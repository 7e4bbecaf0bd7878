//! RibEye: a streaming aggregation framework for routing-table snapshots.
//!
//! A run consumes a sequence of parsed routing-table elements and fans each
//! element out to a set of processors, each of which owns snapshot-scoped
//! aggregation state and produces a structured result document.  A separate
//! summarize phase merges the per-snapshot "latest" artifacts of many
//! snapshots into one cumulative result, with a merge rule of each
//! processor's own.
//!
//! Decoding the binary dump format, serializing result documents and all
//! file or network I/O live outside this crate; the types here hold the
//! data as plain values.

use vstd::prelude::*;

pub mod elem;
pub mod processors;

use crate::elem::RoutingElement;
use crate::processors::meta::RibMeta;
use crate::processors::{
    is_empty_state, lemma_ran_extend, ran, same_kind, As2relProcessor, MessageProcessor,
    PeerStatsProcessor, Prefix2AsProcessor, Prefix2DistProcessor,
};

verus! {

/// Error of a processor lookup by name: the index of the first unknown
/// processor name.
#[derive(Clone, Copy, Debug, PartialEq, Eq, Structural)]
pub struct UnknownProcessorError {
    pub index: usize,
}

/// Whether a processor name (already lower-cased) selects a variant.
pub open spec fn known_processor_name(n: Seq<char>) -> bool {
    ||| n == "peerstats"@
    ||| n == "peer_stats"@
    ||| n == "peer-stats"@
    ||| n == "pfx2as"@
    ||| n == "as2rel"@
    ||| n == "pfx2dist"@
}

/// A freshly built processor: empty state, no snapshot meta, output
/// under the given root, not skipped.
pub open spec fn fresh_processor(p: MessageProcessor, output_dir: Seq<char>) -> bool {
    &&& p.wf()
    &&& is_empty_state(p@)
    &&& p.spec_rib_meta() is None
    &&& p.spec_processor_meta()@.output_dir == output_dir
    &&& !p.latest_output_exists()
}

/// The pipeline coordinator: an ordered collection of registered
/// processors.
///
/// Each registered processor is either active or skipped.  A skipped
/// processor — one that reported its "latest" output as already present
/// for the forthcoming snapshot — is never fed an element and is left
/// untouched by a run.
pub struct RibEye {
    processors: Vec<MessageProcessor>,
    active: Vec<bool>,
}

impl RibEye {
    /// Both parallel vectors describe the same registered processors, and
    /// every processor's store is well formed.
    pub closed spec fn wf(&self) -> bool {
        &&& self.processors@.len() == self.active@.len()
        &&& forall|j: int|
            0 <= j < self.processors@.len() ==> (#[trigger] self.processors@[j]).wf()
    }

    /// How many processors are registered.
    pub closed spec fn count(&self) -> nat {
        self.processors@.len()
    }

    /// The processor registered at an index.
    pub closed spec fn processor_at(&self, j: int) -> MessageProcessor {
        self.processors@[j]
    }

    /// Whether the processor at an index takes part in runs.
    pub closed spec fn active_at(&self, j: int) -> bool {
        self.active@[j]
    }

    pub fn new() -> (r: RibEye)
        ensures
            r.wf(),
            r.count() == 0,
    {
        RibEye { processors: Vec::new(), active: Vec::new() }
    }

    /// Register a processor for the next run.  A processor that reports
    /// its "latest" output as already present is registered as skipped:
    /// the run will not feed it any element.
    pub fn add_processor(&mut self, processor: MessageProcessor)
        requires
            old(self).wf(),
            processor.wf(),
        ensures
            final(self).wf(),
            final(self).count() == old(self).count() + 1,
            forall|j: int|
                0 <= j < old(self).count() ==> final(self).processor_at(j) == old(self).processor_at(j) && final(self).active_at(j) == old(self).active_at(j),
            final(self).processor_at(old(self).count() as int) == processor,
            final(self).active_at(old(self).count() as int) == !processor.latest_output_exists(),
    {
        let skip = processor.latest_output_exists_now();
        self.processors.push(processor);
        self.active.push(!skip);
    }

    /// Replace the registered processors, each registered as `add_processor`
    /// would.
    pub fn with_processors(self, processors: Vec<MessageProcessor>) -> (r: RibEye)
        requires
            forall|j: int| 0 <= j < processors@.len() ==> (#[trigger] processors@[j]).wf(),
        ensures
            r.wf(),
            r.count() == processors@.len(),
            forall|j: int|
                0 <= j < processors@.len() ==> r.processor_at(j) == processors@[j]
                    && r.active_at(j) == !processors@[j].latest_output_exists(),
    {
        let mut r = RibEye::new();
        let mut i: usize = 0;
        let n = processors.len();
        let mut rest = processors;
        while i < n
            invariant
                i <= n,
                n == rest@.len() + i,
                r.wf(),
                r.count() == i,
                forall|j: int|
                    0 <= j < rest@.len() ==> (#[trigger] rest@[j]).wf(),
                forall|j: int|
                    i <= j < n ==> rest@[j - i] == old_processors_at(processors@, j),
                forall|j: int|
                    0 <= j < i ==> r.processor_at(j) == old_processors_at(processors@, j)
                        && r.active_at(j) == !old_processors_at(
                        processors@,
                        j,
                    ).latest_output_exists(),
            decreases n - i,
        {
            let p = rest.remove(0);
            r.add_processor(p);
            i = i + 1;
        }
        r
    }

    /// Reset every registered processor for the given snapshot,
    /// discarding prior state and storing the meta.
    pub fn initialize_processors(&mut self, rib_meta: &RibMeta)
        requires
            old(self).wf(),
        ensures
            final(self).wf(),
            final(self).count() == old(self).count(),
            forall|j: int|
                0 <= j < old(self).count() ==> is_empty_state(
                    (#[trigger] final(self).processor_at(j))@,
                ),
            forall|j: int|
                0 <= j < old(self).count() ==> ((#[trigger] final(self).processor_at(
                    j,
                )).spec_rib_meta() matches Some(m) && m@ == rib_meta@),
            forall|j: int|
                0 <= j < old(self).count() ==> (#[trigger] final(self).processor_at(
                    j,
                )).spec_processor_meta() == old(self).processor_at(j).spec_processor_meta(),
            forall|j: int|
                0 <= j < old(self).count() ==> (#[trigger] final(self).processor_at(
                    j,
                )).latest_output_exists() == old(self).processor_at(j).latest_output_exists(),
            forall|j: int|
                0 <= j < old(self).count() ==> same_kind(
                    old(self).processor_at(j),
                    #[trigger] final(self).processor_at(j),
                ),
            forall|j: int|
                0 <= j < old(self).count() ==> #[trigger] final(self).active_at(j) == old(
                    self,
                ).active_at(j),
    {
        let mut j: usize = 0;
        while j < self.processors.len()
            invariant
                j <= self.processors@.len(),
                self.processors@.len() == old(self).processors@.len(),
                self.active@ == old(self).active@,
                forall|l: int|
                    0 <= l < self.processors@.len() ==> (#[trigger] self.processors@[l]).wf(),
                forall|l: int|
                    j <= l < self.processors@.len() ==> self.processors@[l] == old(self).processors@[l],
                forall|l: int|
                    0 <= l < j ==> {
                        &&& is_empty_state((#[trigger] self.processors@[l])@)
                        &&& self.processors@[l].spec_rib_meta() matches Some(m) && m@ == rib_meta@
                        &&& self.processors@[l].spec_processor_meta() == old(self).processors@[l].spec_processor_meta()
                        &&& self.processors@[l].latest_output_exists() == old(self).processors@[l].latest_output_exists()
                        &&& same_kind(old(self).processors@[l], self.processors@[l])
                    },
            decreases self.processors@.len() - j,
        {
            let p = &mut self.processors[j];
            p.reset_processor(rib_meta);
            j = j + 1;
        }
    }

    /// Reset every registered processor for the given snapshot and hand
    /// the coordinator back.
    pub fn with_rib_meta(self, rib_meta: &RibMeta) -> (r: RibEye)
        requires
            self.wf(),
        ensures
            r.wf(),
            r.count() == self.count(),
            forall|j: int|
                0 <= j < self.count() ==> is_empty_state((#[trigger] r.processor_at(j))@),
            forall|j: int|
                0 <= j < self.count() ==> ((#[trigger] r.processor_at(j)).spec_rib_meta()
                    matches Some(m) && m@ == rib_meta@),
            forall|j: int|
                0 <= j < self.count() ==> (#[trigger] r.processor_at(j)).spec_processor_meta()
                    == self.processor_at(j).spec_processor_meta(),
            forall|j: int|
                0 <= j < self.count() ==> (#[trigger] r.processor_at(j)).latest_output_exists()
                    == self.processor_at(j).latest_output_exists(),
            forall|j: int|
                0 <= j < self.count() ==> same_kind(
                    self.processor_at(j),
                    #[trigger] r.processor_at(j),
                ),
            forall|j: int|
                0 <= j < self.count() ==> #[trigger] r.active_at(j) == self.active_at(j),
    {
        let mut r = self;
        r.initialize_processors(rib_meta);
        r
    }

    /// Fan one element out to every active processor, in registration
    /// order.  A skipped processor is left untouched.
    pub fn process_element(&mut self, element: &RoutingElement)
        requires
            old(self).wf(),
        ensures
            final(self).wf(),
            final(self).count() == old(self).count(),
            forall|j: int|
                0 <= j < old(self).count() ==> final(self).active_at(j) == old(self).active_at(j),
            forall|j: int|
                0 <= j < old(self).count() && old(self).active_at(j)
                    ==> crate::processors::stepped(
                    old(self).processor_at(j),
                    final(self).processor_at(j),
                    *element,
                ),
            forall|j: int|
                0 <= j < old(self).count() && !old(self).active_at(j) ==> final(self).processor_at(j) == old(self).processor_at(j),
    {
        let mut j: usize = 0;
        while j < self.processors.len()
            invariant
                j <= self.processors@.len(),
                self.processors@.len() == old(self).processors@.len(),
                self.processors@.len() == self.active@.len(),
                self.active@ == old(self).active@,
                forall|l: int|
                    0 <= l < self.processors@.len() ==> (#[trigger] self.processors@[l]).wf(),
                forall|l: int|
                    j <= l < self.processors@.len() ==> self.processors@[l] == old(self).processors@[l],
                forall|l: int|
                    0 <= l < j && old(self).active@[l] ==> crate::processors::stepped(
                        old(self).processors@[l],
                        #[trigger] self.processors@[l],
                        *element,
                    ),
                forall|l: int|
                    0 <= l < j && !old(self).active@[l] ==> self.processors@[l] == old(self).processors@[l],
            decreases self.processors@.len() - j,
        {
            if self.active[j] {
                let p = &mut self.processors[j];
                p.process_entry(element);
            }
            j = j + 1;
        }
    }

    /// Drive one pass over a whole element sequence: every element, in
    /// order, is fanned out to every active processor in registration
    /// order.  A skipped processor is never fed an element and comes out
    /// exactly as it went in.
    pub fn process_all(&mut self, elements: &Vec<RoutingElement>)
        requires
            old(self).wf(),
        ensures
            final(self).wf(),
            final(self).count() == old(self).count(),
            forall|j: int|
                0 <= j < old(self).count() ==> final(self).active_at(j) == old(self).active_at(j),
            forall|j: int|
                0 <= j < old(self).count() && old(self).active_at(j) ==> ran(
                    old(self).processor_at(j),
                    final(self).processor_at(j),
                    elements@,
                ),
            forall|j: int|
                0 <= j < old(self).count() && !old(self).active_at(j) ==> final(self).processor_at(j) == old(self).processor_at(j),
    {
        let mut i: usize = 0;
        proof {
            assert forall|j: int|
                0 <= j < old(self).count() && old(self).active_at(j) implies ran(
                old(self).processor_at(j),
                old(self).processor_at(j),
                elements@.take(0),
            ) by {
                assert(elements@.take(0) =~= Seq::<RoutingElement>::empty());
            }
        }
        while i < elements.len()
            invariant
                i <= elements@.len(),
                self.wf(),
                self.count() == old(self).count(),
                forall|j: int|
                    0 <= j < old(self).count() ==> self.active_at(j) == old(self).active_at(j),
                forall|j: int|
                    0 <= j < old(self).count() && old(self).active_at(j) ==> ran(
                        old(self).processor_at(j),
                        self.processor_at(j),
                        elements@.take(i as int),
                    ),
                forall|j: int|
                    0 <= j < old(self).count() && !old(self).active_at(j) ==> self.processor_at(j)
                        == old(self).processor_at(j),
            decreases elements@.len() - i,
        {
            let ghost mid = *self;
            self.process_element(&elements[i]);
            proof {
                assert forall|j: int|
                    0 <= j < old(self).count() && old(self).active_at(j) implies ran(
                    old(self).processor_at(j),
                    self.processor_at(j),
                    elements@.take(i + 1),
                ) by {
                    lemma_ran_extend(
                        old(self).processor_at(j),
                        mid.processor_at(j),
                        self.processor_at(j),
                        elements@.take(i as int),
                        elements@[i as int],
                    );
                    assert(elements@.take(i + 1) =~= elements@.take(i as int).push(
                        elements@[i as int],
                    ));
                }
            }
            i = i + 1;
        }
        proof {
            assert(elements@.take(elements@.len() as int) =~= elements@);
        }
    }

    /// The registered processors, in registration order.
    pub fn processors(&self) -> (r: &Vec<MessageProcessor>)
        ensures
            r@.len() == self.count(),
            forall|j: int| 0 <= j < self.count() ==> r@[j] == self.processor_at(j),
    {
        &self.processors
    }

    /// Whether the processor at an index takes part in runs.
    pub fn is_active(&self, j: usize) -> (r: bool)
        requires
            self.wf(),
            j < self.count(),
        ensures
            r == self.active_at(j as int),
    {
        self.active[j]
    }

    /// The default processors for a pipeline: peer statistics,
    /// prefix-to-origin and AS-relationship.  The prefix-to-distance
    /// processor is left out of the default set for its memory cost.
    pub fn default_processors(output_dir: &str) -> (r: Vec<MessageProcessor>)
        ensures
            r@.len() == 3,
            forall|j: int|
                0 <= j < r@.len() ==> fresh_processor(#[trigger] r@[j], output_dir@),
            r@[0] is PeerStats,
            r@[1] is Prefix2As,
            r@[2] is As2rel,
            r@[0].spec_processor_meta()@.name == "peer-stats"@,
            r@[1].spec_processor_meta()@.name == "pfx2as"@,
            r@[2].spec_processor_meta()@.name == "as2rel"@,
    {
        let mut r: Vec<MessageProcessor> = Vec::new();
        r.push(MessageProcessor::PeerStats(PeerStatsProcessor::new(output_dir)));
        r.push(MessageProcessor::Prefix2As(Prefix2AsProcessor::new(output_dir)));
        r.push(MessageProcessor::As2rel(As2relProcessor::new(output_dir)));
        r
    }

    /// The processor a (lower-cased) name selects, freshly built, or
    /// nothing for an unknown name.
    pub fn get_processor(processor_name: &str, output_dir: &str) -> (r: Option<MessageProcessor>)
        ensures
            r is Some <==> known_processor_name(processor_name@),
            r matches Some(p) ==> fresh_processor(p, output_dir@),
            (processor_name@ == "peerstats"@ || processor_name@ == "peer_stats"@
                || processor_name@ == "peer-stats"@) ==> (r matches Some(p) && p is PeerStats
                && p.spec_processor_meta()@.name == "peer-stats"@),
            processor_name@ == "pfx2as"@ ==> (r matches Some(p) && p is Prefix2As
                && p.spec_processor_meta()@.name == "pfx2as"@),
            processor_name@ == "as2rel"@ ==> (r matches Some(p) && p is As2rel
                && p.spec_processor_meta()@.name == "as2rel"@),
            processor_name@ == "pfx2dist"@ ==> (r matches Some(p) && p is Prefix2Dist
                && p.spec_processor_meta()@.name == "pfx2dist"@),
    {
        proof {
            lemma_processor_names_distinct();
        }
        let name = String::from_str(processor_name);
        if name == String::from_str("peerstats") || name == String::from_str("peer_stats") || name
            == String::from_str("peer-stats") {
            Some(MessageProcessor::PeerStats(PeerStatsProcessor::new(output_dir)))
        } else if name == String::from_str("pfx2as") {
            Some(MessageProcessor::Prefix2As(Prefix2AsProcessor::new(output_dir)))
        } else if name == String::from_str("as2rel") {
            Some(MessageProcessor::As2rel(As2relProcessor::new(output_dir)))
        } else if name == String::from_str("pfx2dist") {
            Some(MessageProcessor::Prefix2Dist(Prefix2DistProcessor::new(output_dir)))
        } else {
            None
        }
    }

    /// The processors a list of (lower-cased) names selects, or the index
    /// of the first unknown name.
    pub fn get_processors(processor_names: &Vec<String>, output_dir: &str) -> (r: Result<
        Vec<MessageProcessor>,
        UnknownProcessorError,
    >)
        ensures
            r is Ok <==> (forall|j: int|
                0 <= j < processor_names@.len() ==> known_processor_name(
                    (#[trigger] processor_names@[j])@,
                )),
            match r {
                Ok(v) => v@.len() == processor_names@.len() && forall|j: int|
                    0 <= j < v@.len() ==> fresh_processor(#[trigger] v@[j], output_dir@),
                Err(e) => e.index < processor_names@.len() && !known_processor_name(
                    processor_names@[e.index as int]@,
                ) && forall|j: int|
                    0 <= j < e.index ==> known_processor_name((#[trigger] processor_names@[j])@),
            },
    {
        let mut v: Vec<MessageProcessor> = Vec::new();
        let mut i: usize = 0;
        while i < processor_names.len()
            invariant
                i <= processor_names@.len(),
                v@.len() == i,
                forall|j: int|
                    0 <= j < i ==> known_processor_name((#[trigger] processor_names@[j])@),
                forall|j: int| 0 <= j < v@.len() ==> fresh_processor(#[trigger] v@[j], output_dir@),
            decreases processor_names@.len() - i,
        {
            match Self::get_processor(processor_names[i].as_str(), output_dir) {
                Some(p) => {
                    v.push(p);
                },
                None => {
                    return Err(UnknownProcessorError { index: i });
                },
            }
            i = i + 1;
        }
        Ok(v)
    }

    /// Register the processors a list of names selects, or the default
    /// set when the list is empty; an unknown name reports its index.
    pub fn with_processor_names(self, processor_names: &Vec<String>, output_dir: &str) -> (r:
        Result<RibEye, UnknownProcessorError>)
        ensures
            r is Ok <==> (forall|j: int|
                0 <= j < processor_names@.len() ==> known_processor_name(
                    (#[trigger] processor_names@[j])@,
                )),
            match r {
                Ok(rib) => {
                    &&& rib.wf()
                    &&& rib.count() == if processor_names@.len() == 0 {
                        3nat
                    } else {
                        processor_names@.len()
                    }
                    &&& forall|j: int|
                        0 <= j < rib.count() ==> fresh_processor(
                            #[trigger] rib.processor_at(j),
                            output_dir@,
                        ) && rib.active_at(j)
                },
                Err(e) => e.index < processor_names@.len() && !known_processor_name(
                    processor_names@[e.index as int]@,
                ),
            },
    {
        if processor_names.len() == 0 {
            let ps = Self::default_processors(output_dir);
            Ok(RibEye::new().with_processors(ps))
        } else {
            match Self::get_processors(processor_names, output_dir) {
                Ok(ps) => Ok(RibEye::new().with_processors(ps)),
                Err(e) => Err(e),
            }
        }
    }
}

/// The element a consumed vector held at an index, for contracts that
/// still need to speak of it.
pub open spec fn old_processors_at(s: Seq<MessageProcessor>, j: int) -> MessageProcessor {
    s[j]
}

/// Re-running a pass is reproducible: two processors of the same kind
/// and identity, both reset (empty state, same snapshot meta), end a
/// pass over the same element sequence with the same aggregation state.
/// In particular a second run after a fresh reset reproduces the first
/// run's result documents, key for key.
pub proof fn lemma_rerun_reproducible(
    a: MessageProcessor,
    a2: MessageProcessor,
    b: MessageProcessor,
    b2: MessageProcessor,
    elements: Seq<RoutingElement>,
)
    requires
        a@ == b@,
        a.spec_rib_meta() == b.spec_rib_meta(),
        ran(a, a2, elements),
        ran(b, b2, elements),
    ensures
        a2@ == b2@,
{
}




/// The recognized processor names are pairwise distinct.
proof fn lemma_processor_names_distinct()
    ensures
        "peerstats"@ != "peer_stats"@,
        "peerstats"@ != "peer-stats"@,
        "peerstats"@ != "pfx2as"@,
        "peerstats"@ != "as2rel"@,
        "peerstats"@ != "pfx2dist"@,
        "peer_stats"@ != "peer-stats"@,
        "peer_stats"@ != "pfx2as"@,
        "peer_stats"@ != "as2rel"@,
        "peer_stats"@ != "pfx2dist"@,
        "peer-stats"@ != "pfx2as"@,
        "peer-stats"@ != "as2rel"@,
        "peer-stats"@ != "pfx2dist"@,
        "pfx2as"@ != "as2rel"@,
        "pfx2as"@ != "pfx2dist"@,
        "as2rel"@ != "pfx2dist"@,
{
    reveal_strlit("peerstats");
    reveal_strlit("peer_stats");
    reveal_strlit("peer-stats");
    reveal_strlit("pfx2as");
    reveal_strlit("as2rel");
    reveal_strlit("pfx2dist");
    assert("peerstats"@.len() == 9);
    assert("peer_stats"@.len() == 10);
    assert("peer-stats"@.len() == 10);
    assert("pfx2as"@.len() == 6);
    assert("as2rel"@.len() == 6);
    assert("pfx2dist"@.len() == 8);
    assert("peer_stats"@[4] == '_');
    assert("peer-stats"@[4] == '-');
    assert("pfx2as"@[0] == 'p');
    assert("as2rel"@[0] == 'a');
}

} // verus!

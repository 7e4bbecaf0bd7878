//! Snapshot-scoped aggregation processors.
//!
//! Each processor consumes routing elements one at a time, keeps one
//! aggregation store per snapshot, produces a structured result document,
//! and merges the "latest" artifacts of many snapshots into one cumulative
//! result with a merge rule of its own.

use vstd::prelude::*;

pub use crate::processors::as2rel::As2relProcessor;
pub use crate::processors::meta::RibMeta;
pub use crate::processors::peer_stats::PeerStatsProcessor;
pub use crate::processors::pfx2as::Prefix2AsProcessor;
pub use crate::processors::pfx2dist::Prefix2DistProcessor;

use crate::elem::{IpAddress, Network, RoutingElement};
use crate::processors::as2rel::{a2r_run, a2r_step};
use crate::processors::meta::{archive_path_spec, latest_path_spec, ProcessorMeta};
use crate::processors::peer_stats::{ps_run, ps_step, PeerView};
use crate::processors::pfx2as::{p2a_run, p2a_step};
use crate::processors::pfx2dist::{p2d_run, p2d_step};

pub mod as2rel;
pub mod meta;
pub mod peer_stats;
pub mod pfx2as;
pub mod pfx2dist;

verus! {

/// Error of a summarize call that was not allowed to skip unreadable
/// artifacts: the index of the first unreadable per-snapshot artifact.
#[derive(Clone, Copy, Debug, PartialEq, Eq, Structural)]
pub struct SummarizeError {
    pub failed_index: usize,
}


/// Pushing an element onto a sequence adds it to the sequence's set.
pub proof fn lemma_push_to_set<A>(s: Seq<A>, x: A)
    ensures
        s.push(x).to_set() =~= s.to_set().insert(x),
{
    assert forall|a: A| #[trigger] s.push(x).to_set().contains(a) implies s.to_set().insert(
        x,
    ).contains(a) by {
        let i = choose|i: int| 0 <= i < s.push(x).len() && s.push(x)[i] == a;
        if i < s.len() {
            assert(s[i] == a);
        }
    }
    assert forall|a: A| #[trigger] s.to_set().insert(x).contains(a) implies s.push(
        x,
    ).to_set().contains(a) by {
        if a == x {
            assert(s.push(x)[s.len() as int] == a);
        } else {
            let i = choose|i: int| 0 <= i < s.len() && s[i] == a;
            assert(s.push(x)[i] == a);
        }
    }
}


/// Pushing a fresh element onto a duplicate-free sequence keeps it
/// duplicate-free.
pub proof fn lemma_push_no_duplicates<A>(s: Seq<A>, x: A)
    requires
        s.no_duplicates(),
        !s.contains(x),
    ensures
        s.push(x).no_duplicates(),
{
    assert forall|i: int, j: int|
        0 <= i < s.push(x).len() && 0 <= j < s.push(x).len() && i != j implies s.push(x)[i]
        != s.push(x)[j] by {
        if i < s.len() && j < s.len() {
        } else if i < s.len() {
            assert(s[i] == s.push(x)[i]);
        } else if j < s.len() {
            assert(s[j] == s.push(x)[j]);
        }
    }
}


/// The closed set of processor variants behind one shared capability
/// interface.  A coordinator holds an ordered collection of these and
/// drives them through reset, per-element processing and output.
#[derive(Debug)]
pub enum MessageProcessor {
    PeerStats(PeerStatsProcessor),
    Prefix2As(Prefix2AsProcessor),
    As2rel(As2relProcessor),
    Prefix2Dist(Prefix2DistProcessor),
}

/// The aggregation state of a processor, per variant.
pub enum ProcessorState {
    PeerStats(Map<IpAddress, PeerView>),
    Prefix2As(Map<(Network, u32), u64>),
    As2rel(Map<(u32, u32, u8), (u64, Set<IpAddress>)>),
    Prefix2Dist(Map<(Network, u32), u32>),
}

impl View for MessageProcessor {
    type V = ProcessorState;

    open spec fn view(&self) -> ProcessorState {
        match self {
            MessageProcessor::PeerStats(p) => ProcessorState::PeerStats(p@),
            MessageProcessor::Prefix2As(p) => ProcessorState::Prefix2As(p@),
            MessageProcessor::As2rel(p) => ProcessorState::As2rel(p@),
            MessageProcessor::Prefix2Dist(p) => ProcessorState::Prefix2Dist(p@),
        }
    }
}

/// The empty aggregation state, per variant.
pub open spec fn is_empty_state(s: ProcessorState) -> bool {
    match s {
        ProcessorState::PeerStats(m) => m == Map::<IpAddress, PeerView>::empty(),
        ProcessorState::Prefix2As(m) => m == Map::<(Network, u32), u64>::empty(),
        ProcessorState::As2rel(m) => m == Map::<(u32, u32, u8), (u64, Set<IpAddress>)>::empty(),
        ProcessorState::Prefix2Dist(m) => m == Map::<(Network, u32), u32>::empty(),
    }
}

/// Whether two processors are the same variant.
pub open spec fn same_kind(a: MessageProcessor, b: MessageProcessor) -> bool {
    match (a, b) {
        (MessageProcessor::PeerStats(_), MessageProcessor::PeerStats(_)) => true,
        (MessageProcessor::Prefix2As(_), MessageProcessor::Prefix2As(_)) => true,
        (MessageProcessor::As2rel(_), MessageProcessor::As2rel(_)) => true,
        (MessageProcessor::Prefix2Dist(_), MessageProcessor::Prefix2Dist(_)) => true,
        _ => false,
    }
}

/// How one element transforms a processor state, per the variant's own
/// aggregation rule.
pub open spec fn proc_step(
    s: ProcessorState,
    e: RoutingElement,
    collector: Option<Seq<char>>,
) -> ProcessorState {
    match s {
        ProcessorState::PeerStats(m) => ProcessorState::PeerStats(ps_step(m, e, collector)),
        ProcessorState::Prefix2As(m) => ProcessorState::Prefix2As(p2a_step(m, e)),
        ProcessorState::As2rel(m) => ProcessorState::As2rel(a2r_step(m, e)),
        ProcessorState::Prefix2Dist(m) => ProcessorState::Prefix2Dist(p2d_step(m, e)),
    }
}

/// How a whole element sequence transforms a processor state.
pub open spec fn proc_run(
    s: ProcessorState,
    elems: Seq<RoutingElement>,
    collector: Option<Seq<char>>,
) -> ProcessorState {
    match s {
        ProcessorState::PeerStats(m) => ProcessorState::PeerStats(ps_run(m, elems, collector)),
        ProcessorState::Prefix2As(m) => ProcessorState::Prefix2As(p2a_run(m, elems)),
        ProcessorState::As2rel(m) => ProcessorState::As2rel(a2r_run(m, elems)),
        ProcessorState::Prefix2Dist(m) => ProcessorState::Prefix2Dist(p2d_run(m, elems)),
    }
}

/// Running one more element is one more step.
pub proof fn lemma_proc_run_push(
    s: ProcessorState,
    elems: Seq<RoutingElement>,
    e: RoutingElement,
    collector: Option<Seq<char>>,
)
    ensures
        proc_run(s, elems.push(e), collector) == proc_step(proc_run(s, elems, collector), e, collector),
{
    assert(elems.push(e).drop_last() =~= elems);
    assert(elems.push(e).last() == e);
}

impl MessageProcessor {
    /// Basic well-formedness of the inner aggregation store.
    pub open spec fn wf(&self) -> bool {
        match self {
            MessageProcessor::PeerStats(p) => p.wf(),
            MessageProcessor::Prefix2As(p) => p.wf(),
            MessageProcessor::As2rel(p) => p.wf(),
            MessageProcessor::Prefix2Dist(p) => p.wf(),
        }
    }

    pub open spec fn spec_rib_meta(&self) -> Option<RibMeta> {
        match self {
            MessageProcessor::PeerStats(p) => p.spec_rib_meta(),
            MessageProcessor::Prefix2As(p) => p.spec_rib_meta(),
            MessageProcessor::As2rel(p) => p.spec_rib_meta(),
            MessageProcessor::Prefix2Dist(p) => p.spec_rib_meta(),
        }
    }

    pub open spec fn spec_processor_meta(&self) -> ProcessorMeta {
        match self {
            MessageProcessor::PeerStats(p) => p.spec_processor_meta(),
            MessageProcessor::Prefix2As(p) => p.spec_processor_meta(),
            MessageProcessor::As2rel(p) => p.spec_processor_meta(),
            MessageProcessor::Prefix2Dist(p) => p.spec_processor_meta(),
        }
    }

    /// The collector name handed to freshly created peer records.
    pub open spec fn spec_collector(&self) -> Option<Seq<char>> {
        match self.spec_rib_meta() {
            Some(m) => Some(m@.collector),
            None => None,
        }
    }

    pub open spec fn latest_output_exists(&self) -> bool {
        match self {
            MessageProcessor::PeerStats(p) => p.latest_output_exists(),
            MessageProcessor::Prefix2As(p) => p.latest_output_exists(),
            MessageProcessor::As2rel(p) => p.latest_output_exists(),
            MessageProcessor::Prefix2Dist(p) => p.latest_output_exists(),
        }
    }

    /// The stable name of the processor.
    pub fn name(&self) -> (r: String)
        ensures
            r@ == self.spec_processor_meta()@.name,
    {
        match self {
            MessageProcessor::PeerStats(p) => p.name(),
            MessageProcessor::Prefix2As(p) => p.name(),
            MessageProcessor::As2rel(p) => p.name(),
            MessageProcessor::Prefix2Dist(p) => p.name(),
        }
    }

    /// Whether the processor reports its "latest" output target as
    /// already holding output for the forthcoming snapshot.
    pub fn latest_output_exists_now(&self) -> (r: bool)
        ensures
            r == self.latest_output_exists(),
    {
        match self {
            MessageProcessor::PeerStats(p) => p.output_exists(),
            MessageProcessor::Prefix2As(p) => p.output_exists(),
            MessageProcessor::As2rel(p) => p.output_exists(),
            MessageProcessor::Prefix2Dist(p) => p.output_exists(),
        }
    }

    /// Record that the "latest" output target already holds output.
    pub fn mark_latest_exists(&mut self)
        ensures
            final(self).latest_output_exists(),
            final(self)@ == old(self)@,
            final(self).wf() == old(self).wf(),
            final(self).spec_rib_meta() == old(self).spec_rib_meta(),
            final(self).spec_processor_meta() == old(self).spec_processor_meta(),
            same_kind(*old(self), *final(self)),
    {
        match self {
            MessageProcessor::PeerStats(p) => p.mark_latest_exists(),
            MessageProcessor::Prefix2As(p) => p.mark_latest_exists(),
            MessageProcessor::As2rel(p) => p.mark_latest_exists(),
            MessageProcessor::Prefix2Dist(p) => p.mark_latest_exists(),
        }
    }

    /// Discard all prior aggregation state and store the snapshot meta.
    pub fn reset_processor(&mut self, rib_meta: &RibMeta)
        ensures
            final(self).wf(),
            is_empty_state(final(self)@),
            final(self).spec_rib_meta() matches Some(m) && m@ == rib_meta@,
            final(self).spec_processor_meta() == old(self).spec_processor_meta(),
            final(self).latest_output_exists() == old(self).latest_output_exists(),
            same_kind(*old(self), *final(self)),
    {
        match self {
            MessageProcessor::PeerStats(p) => p.reset_processor(rib_meta),
            MessageProcessor::Prefix2As(p) => p.reset_processor(rib_meta),
            MessageProcessor::As2rel(p) => p.reset_processor(rib_meta),
            MessageProcessor::Prefix2Dist(p) => p.reset_processor(rib_meta),
        }
    }

    /// Process one element under the variant's own aggregation rule.
    pub fn process_entry(&mut self, elem: &RoutingElement)
        requires
            old(self).wf(),
        ensures
            stepped(*old(self), *final(self), *elem),
    {
        match self {
            MessageProcessor::PeerStats(p) => p.process_entry(elem),
            MessageProcessor::Prefix2As(p) => p.process_entry(elem),
            MessageProcessor::As2rel(p) => p.process_entry(elem),
            MessageProcessor::Prefix2Dist(p) => p.process_entry(elem),
        }
    }

    /// The archival and "latest" output locations for the snapshot this
    /// processor was reset with.
    pub fn output_paths(&self) -> (r: Option<Vec<String>>)
        requires
            self.spec_rib_meta() is Some,
        ensures
            r matches Some(v) && v@.len() == 2 && v@[0]@ == archive_path_spec(
                self.spec_processor_meta()@,
                self.spec_rib_meta()->Some_0@,
            ) && v@[1]@ == latest_path_spec(
                self.spec_processor_meta()@,
                self.spec_rib_meta()->Some_0@,
            ),
    {
        match self {
            MessageProcessor::PeerStats(p) => p.output_paths(),
            MessageProcessor::Prefix2As(p) => p.output_paths(),
            MessageProcessor::As2rel(p) => p.output_paths(),
            MessageProcessor::Prefix2Dist(p) => p.output_paths(),
        }
    }
}

/// One processing step as seen from outside: the state advanced by the
/// variant's own rule, everything else untouched.
pub open spec fn stepped(
    pre: MessageProcessor,
    post: MessageProcessor,
    e: RoutingElement,
) -> bool {
    &&& post.wf()
    &&& post@ == proc_step(pre@, e, pre.spec_collector())
    &&& post.spec_rib_meta() == pre.spec_rib_meta()
    &&& post.spec_processor_meta() == pre.spec_processor_meta()
    &&& post.latest_output_exists() == pre.latest_output_exists()
    &&& same_kind(pre, post)
}

/// A whole run as seen from outside: the state advanced by the whole
/// element sequence, everything else untouched.
pub open spec fn ran(
    pre: MessageProcessor,
    post: MessageProcessor,
    elems: Seq<RoutingElement>,
) -> bool {
    &&& post.wf()
    &&& post@ == proc_run(pre@, elems, pre.spec_collector())
    &&& post.spec_rib_meta() == pre.spec_rib_meta()
    &&& post.spec_processor_meta() == pre.spec_processor_meta()
    &&& post.latest_output_exists() == pre.latest_output_exists()
    &&& same_kind(pre, post)
}

/// One more step extends a run by one element.
pub proof fn lemma_ran_extend(
    pre: MessageProcessor,
    mid: MessageProcessor,
    post: MessageProcessor,
    elems: Seq<RoutingElement>,
    e: RoutingElement,
)
    requires
        ran(pre, mid, elems),
        stepped(mid, post, e),
    ensures
        ran(pre, post, elems.push(e)),
{
    lemma_proc_run_push(pre@, elems, e, pre.spec_collector());
}


impl MessageProcessor {
    /// The processor's own meta: name and output root.
    pub fn processor_meta(&self) -> (r: ProcessorMeta)
        ensures
            r@ == self.spec_processor_meta()@,
    {
        match self {
            MessageProcessor::PeerStats(p) => p.processor_meta(),
            MessageProcessor::Prefix2As(p) => p.processor_meta(),
            MessageProcessor::As2rel(p) => p.processor_meta(),
            MessageProcessor::Prefix2Dist(p) => p.processor_meta(),
        }
    }

    /// Whether a snapshot meta has been stored by a reset.
    pub fn has_rib_meta(&self) -> (r: bool)
        ensures
            r == (self.spec_rib_meta() is Some),
    {
        match self {
            MessageProcessor::PeerStats(p) => p.has_rib_meta(),
            MessageProcessor::Prefix2As(p) => p.has_rib_meta(),
            MessageProcessor::As2rel(p) => p.has_rib_meta(),
            MessageProcessor::Prefix2Dist(p) => p.has_rib_meta(),
        }
    }
}

} // verus!

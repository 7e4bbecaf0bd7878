//! Prefix-to-distance processor.
//!
//! Tracks, per (destination network, reference AS) pair, the shortest AS
//! path length under which the network was observed.  The reference AS is
//! the head of the unreversed path: the AS adjacent to the observing peer.
//! Path lengths are taken after collapsing consecutive duplicate AS
//! numbers (path prepending).  The merge rule across snapshots takes the
//! minimum distance per key.

use vstd::prelude::*;

use crate::elem::{collapse, collapse_path, ElemType, Network, RoutingElement};
use crate::processors::meta::{
    archive_path_spec, get_latest_output_path, get_output_path, latest_path_spec, ProcessorMeta,
    RibMeta,
};
use crate::processors::SummarizeError;

verus! {

/// One (prefix, reference AS) pair with its minimum observed distance.
#[derive(Clone, Copy, Debug, PartialEq, Eq, Structural)]
pub struct Prefix2Dist {
    pub prefix: Network,
    pub collector_asn: u32,
    pub distance: u32,
}

/// The aggregation key of one distance entry.
pub open spec fn p2d_key(e: Prefix2Dist) -> (Network, u32) {
    (e.prefix, e.collector_asn)
}

/// The association map held by a sequence of distance entries.
pub open spec fn p2d_map_of(s: Seq<Prefix2Dist>) -> Map<(Network, u32), u32>
    decreases s.len(),
{
    if s.len() == 0 {
        Map::empty()
    } else {
        p2d_map_of(s.drop_last()).insert(p2d_key(s.last()), s.last().distance)
    }
}

/// No two entries share a key.
pub open spec fn p2d_unique(s: Seq<Prefix2Dist>) -> bool {
    forall|i: int, j: int| 0 <= i < j < s.len() ==> p2d_key(s[i]) != p2d_key(s[j])
}

pub proof fn lemma_p2d_map_of_contains(s: Seq<Prefix2Dist>, k: (Network, u32))
    ensures
        p2d_map_of(s).contains_key(k) <==> exists|i: int| 0 <= i < s.len() && p2d_key(s[i]) == k,
    decreases s.len(),
{
    if s.len() > 0 {
        let rest = s.drop_last();
        lemma_p2d_map_of_contains(rest, k);
        if k == p2d_key(s.last()) {
            assert(p2d_key(s[s.len() - 1]) == k);
        } else {
            if p2d_map_of(s).contains_key(k) {
                let i = choose|i: int| 0 <= i < rest.len() && p2d_key(rest[i]) == k;
                assert(p2d_key(s[i]) == k);
            }
            if exists|i: int| 0 <= i < s.len() && p2d_key(s[i]) == k {
                let i = choose|i: int| 0 <= i < s.len() && p2d_key(s[i]) == k;
                assert(i < s.len() - 1);
                assert(p2d_key(rest[i]) == k);
            }
        }
    }
}

pub proof fn lemma_p2d_map_of_index(s: Seq<Prefix2Dist>, i: int)
    requires
        p2d_unique(s),
        0 <= i < s.len(),
    ensures
        p2d_map_of(s).contains_key(p2d_key(s[i])),
        p2d_map_of(s)[p2d_key(s[i])] == s[i].distance,
    decreases s.len(),
{
    let rest = s.drop_last();
    if i < s.len() - 1 {
        assert(p2d_unique(rest));
        lemma_p2d_map_of_index(rest, i);
        assert(p2d_key(s[i]) != p2d_key(s[s.len() - 1]));
    }
}

pub proof fn lemma_p2d_map_of_update(s: Seq<Prefix2Dist>, i: int, e: Prefix2Dist)
    requires
        p2d_unique(s),
        0 <= i < s.len(),
        p2d_key(e) == p2d_key(s[i]),
    ensures
        p2d_map_of(s.update(i, e)) =~= p2d_map_of(s).insert(p2d_key(e), e.distance),
    decreases s.len(),
{
    let rest = s.drop_last();
    if i == s.len() - 1 {
        assert(s.update(i, e).drop_last() =~= rest);
        assert(s.update(i, e).last() == e);
    } else {
        assert(p2d_unique(rest));
        assert(s.update(i, e).drop_last() =~= rest.update(i, e));
        lemma_p2d_map_of_update(rest, i, e);
        assert(p2d_key(s.last()) != p2d_key(e));
    }
}

/// The value of a key in a distance map, unbounded when absent.
pub open spec fn p2d_get(m: Map<(Network, u32), u32>, k: (Network, u32)) -> u32 {
    if m.contains_key(k) {
        m[k]
    } else {
        u32::MAX
    }
}

/// Whether an element contributes to the prefix-to-distance statistic:
/// an announce for a non-default network with a usable, non-empty path.
pub open spec fn p2d_qualifies(e: RoutingElement) -> bool {
    &&& e.elem_type is Announce
    &&& !e.prefix.spec_is_default()
    &&& e.has_path()
}

/// The aggregation key of a qualifying element: the destination network
/// and the AS at the head of the unreversed path.
pub open spec fn p2d_elem_key(e: RoutingElement) -> (Network, u32)
    recommends
        p2d_qualifies(e),
{
    (e.prefix, e.path()->Some_0.first())
}

/// The distance carried by a path: its hop count after collapsing
/// consecutive duplicates, capped at the largest representable distance.
pub open spec fn p2d_dist_of(path: Seq<u32>) -> u32 {
    if collapse(path).len() >= u32::MAX {
        u32::MAX
    } else {
        collapse(path).len() as u32
    }
}

/// How one element transforms the prefix-to-distance map: the recorded
/// distance only ever decreases.
pub open spec fn p2d_step(m: Map<(Network, u32), u32>, e: RoutingElement) -> Map<
    (Network, u32),
    u32,
> {
    if p2d_qualifies(e) {
        let k = p2d_elem_key(e);
        let d = p2d_dist_of(e.path()->Some_0);
        let prev = p2d_get(m, k);
        m.insert(
            k,
            if d < prev {
                d
            } else {
                prev
            },
        )
    } else {
        m
    }
}

/// How a whole element sequence transforms the prefix-to-distance map.
pub open spec fn p2d_run(m: Map<(Network, u32), u32>, elems: Seq<RoutingElement>) -> Map<
    (Network, u32),
    u32,
>
    decreases elems.len(),
{
    if elems.len() == 0 {
        m
    } else {
        p2d_step(p2d_run(m, elems.drop_last()), elems.last())
    }
}

/// Find the index of the entry with the given key, if any.
fn p2d_find(v: &Vec<Prefix2Dist>, prefix: Network, asn: u32) -> (r: Option<usize>)
    ensures
        match r {
            Some(i) => i < v@.len() && p2d_key(v@[i as int]) == (prefix, asn),
            None => forall|j: int| 0 <= j < v@.len() ==> p2d_key(v@[j]) != (prefix, asn),
        },
{
    let mut i: usize = 0;
    while i < v.len()
        invariant
            i <= v@.len(),
            forall|j: int| 0 <= j < i ==> p2d_key(v@[j]) != (prefix, asn),
        decreases v@.len() - i,
    {
        if v[i].prefix == prefix && v[i].collector_asn == asn {
            return Some(i);
        }
        i = i + 1;
    }
    None
}

/// The prefix-to-distance processor.
#[derive(Debug)]
pub struct Prefix2DistProcessor {
    rib_meta: Option<RibMeta>,
    processor_meta: ProcessorMeta,
    pfx2dist_map: Vec<Prefix2Dist>,
    latest_exists: bool,
}

impl View for Prefix2DistProcessor {
    type V = Map<(Network, u32), u32>;

    closed spec fn view(&self) -> Map<(Network, u32), u32> {
        p2d_map_of(self.pfx2dist_map@)
    }
}

impl Prefix2DistProcessor {
    pub closed spec fn wf(&self) -> bool {
        p2d_unique(self.pfx2dist_map@)
    }

    pub closed spec fn spec_rib_meta(&self) -> Option<RibMeta> {
        self.rib_meta
    }

    pub closed spec fn spec_processor_meta(&self) -> ProcessorMeta {
        self.processor_meta
    }

    pub closed spec fn spec_entries(&self) -> Seq<Prefix2Dist> {
        self.pfx2dist_map@
    }

    pub closed spec fn latest_output_exists(&self) -> bool {
        self.latest_exists
    }

    pub fn new(output_dir: &str) -> (r: Prefix2DistProcessor)
        ensures
            r.wf(),
            r@ =~= Map::<(Network, u32), u32>::empty(),
            r.spec_rib_meta() is None,
            r.spec_processor_meta()@.name == "pfx2dist"@,
            r.spec_processor_meta()@.output_dir == output_dir@,
            !r.latest_output_exists(),
    {
        let processor_meta = ProcessorMeta {
            name: String::from_str("pfx2dist"),
            output_dir: String::from_str(output_dir),
        };
        Prefix2DistProcessor {
            rib_meta: None,
            processor_meta,
            pfx2dist_map: Vec::new(),
            latest_exists: false,
        }
    }

    /// Record that the "latest" output target for the forthcoming snapshot
    /// already holds output, so a coordinator registers this processor as
    /// skipped.
    pub fn mark_latest_exists(&mut self)
        ensures
            final(self).latest_output_exists(),
            final(self)@ == old(self)@,
            final(self).wf() == old(self).wf(),
            final(self).spec_entries() == old(self).spec_entries(),
            final(self).spec_rib_meta() == old(self).spec_rib_meta(),
            final(self).spec_processor_meta() == old(self).spec_processor_meta(),
    {
        self.latest_exists = true;
    }

    /// Discard all prior aggregation state and store the snapshot meta.
    pub fn reset_processor(&mut self, rib_meta: &RibMeta)
        ensures
            final(self).wf(),
            final(self)@ =~= Map::<(Network, u32), u32>::empty(),
            final(self).spec_rib_meta() matches Some(m) && m@ == rib_meta@,
            final(self).spec_processor_meta() == old(self).spec_processor_meta(),
            final(self).latest_output_exists() == old(self).latest_output_exists(),
    {
        self.rib_meta = Some(rib_meta.clone());
        self.pfx2dist_map = Vec::new();
    }

    /// Process one element: lower the recorded distance of a qualifying
    /// announce's (network, reference AS) key; ignore everything else.
    pub fn process_entry(&mut self, elem: &RoutingElement)
        requires
            old(self).wf(),
        ensures
            final(self).wf(),
            final(self)@ =~= p2d_step(old(self)@, *elem),
            final(self).spec_rib_meta() == old(self).spec_rib_meta(),
            final(self).spec_processor_meta() == old(self).spec_processor_meta(),
            final(self).latest_output_exists() == old(self).latest_output_exists(),
    {
        if !matches!(elem.elem_type, ElemType::Announce) {
            return ;
        }
        if elem.prefix.is_default() {
            return ;
        }
        match &elem.as_path {
            None => {},
            Some(path) => {
                if path.len() > 0 {
                    let asn = path[0];
                    let prefix = elem.prefix;
                    let collapsed = collapse_path(path);
                    let d: u32 = if collapsed.len() >= u32::MAX as usize {
                        u32::MAX
                    } else {
                        collapsed.len() as u32
                    };
                    match p2d_find(&self.pfx2dist_map, prefix, asn) {
                        Some(i) => {
                            let prev = self.pfx2dist_map[i].distance;
                            let newd = if d < prev {
                                d
                            } else {
                                prev
                            };
                            let e = Prefix2Dist { prefix, collector_asn: asn, distance: newd };
                            proof {
                                lemma_p2d_map_of_index(self.pfx2dist_map@, i as int);
                                lemma_p2d_map_of_update(self.pfx2dist_map@, i as int, e);
                            }
                            self.pfx2dist_map[i] = e;
                        },
                        None => {
                            proof {
                                lemma_p2d_map_of_contains(self.pfx2dist_map@, (prefix, asn));
                            }
                            let e = Prefix2Dist { prefix, collector_asn: asn, distance: d };
                            self.pfx2dist_map.push(e);
                            proof {
                                assert(self.pfx2dist_map@.drop_last() =~= old(self).pfx2dist_map@);
                            }
                        },
                    }
                }
            },
        }
    }

    /// The current distance entries, one per key, in no significant order.
    pub fn get_count_vec(&self) -> (r: Vec<Prefix2Dist>)
        requires
            self.wf(),
        ensures
            r@ == self.spec_entries(),
            p2d_unique(r@),
            p2d_map_of(r@) == self@,
    {
        let mut r: Vec<Prefix2Dist> = Vec::new();
        let mut i: usize = 0;
        while i < self.pfx2dist_map.len()
            invariant
                i <= self.pfx2dist_map@.len(),
                r@ == self.pfx2dist_map@.take(i as int),
            decreases self.pfx2dist_map@.len() - i,
        {
            r.push(self.pfx2dist_map[i]);
            proof {
                assert(self.pfx2dist_map@.take(i + 1).drop_last() =~= self.pfx2dist_map@.take(
                    i as int,
                ));
                assert(r@ =~= self.pfx2dist_map@.take(i + 1));
            }
            i = i + 1;
        }
        proof {
            assert(self.pfx2dist_map@.take(self.pfx2dist_map@.len() as int) =~= self.pfx2dist_map@);
        }
        r
    }
}

/// The archival per-snapshot artifact of the prefix-to-distance processor.
#[derive(Debug)]
pub struct Prefix2DistCollectorJson {
    pub project: String,
    pub collector: String,
    pub rib_dump_url: String,
    pub pfx2dist: Vec<Prefix2Dist>,
}

/// The cumulative cross-snapshot artifact of the prefix-to-distance
/// processor.
#[derive(Debug)]
pub struct Prefix2DistSummaryJson {
    pub rib_dump_urls: Vec<String>,
    pub pfx2dist: Vec<Prefix2Dist>,
}

/// All distance entries of the readable artifacts, in artifact order.
pub open spec fn p2d_readable_entries(arts: Seq<Option<Prefix2DistCollectorJson>>) -> Seq<
    Prefix2Dist,
>
    decreases arts.len(),
{
    if arts.len() == 0 {
        Seq::empty()
    } else {
        p2d_readable_entries(arts.drop_last()) + match arts.last() {
            Some(d) => d.pfx2dist@,
            None => Seq::empty(),
        }
    }
}

/// The least distance carried for key `k` by a sequence of entries,
/// unbounded when no entry carries the key.
pub open spec fn p2d_min(entries: Seq<Prefix2Dist>, k: (Network, u32)) -> u32
    decreases entries.len(),
{
    if entries.len() == 0 {
        u32::MAX
    } else {
        let rest = p2d_min(entries.drop_last(), k);
        if p2d_key(entries.last()) == k && entries.last().distance < rest {
            entries.last().distance
        } else {
            rest
        }
    }
}

/// Whether some entry carries key `k`.
pub open spec fn p2d_has(entries: Seq<Prefix2Dist>, k: (Network, u32)) -> bool {
    exists|i: int| 0 <= i < entries.len() && p2d_key(entries[i]) == k
}

proof fn lemma_p2d_min_push(s: Seq<Prefix2Dist>, e: Prefix2Dist, k: (Network, u32))
    ensures
        p2d_min(s.push(e), k) == if p2d_key(e) == k && e.distance < p2d_min(s, k) {
            e.distance
        } else {
            p2d_min(s, k)
        },
        p2d_has(s.push(e), k) <==> p2d_has(s, k) || p2d_key(e) == k,
{
    assert(s.push(e).drop_last() =~= s);
    assert(s.push(e).last() == e);
    if p2d_has(s, k) {
        let i = choose|i: int| 0 <= i < s.len() && p2d_key(s[i]) == k;
        assert(p2d_key(s.push(e)[i]) == k);
    }
    if p2d_key(e) == k {
        assert(p2d_key(s.push(e)[s.len() as int]) == k);
    }
    if p2d_has(s.push(e), k) && p2d_key(e) != k {
        let i = choose|i: int| 0 <= i < s.push(e).len() && p2d_key(s.push(e)[i]) == k;
        if i < s.len() {
            assert(p2d_key(s[i]) == k);
        }
    }
}

/// Fold a flat entry sequence into one entry per key, keeping the least
/// distance per key.
fn p2d_merge_entries(flat: &Vec<Prefix2Dist>) -> (r: Vec<Prefix2Dist>)
    ensures
        p2d_unique(r@),
        forall|k: (Network, u32)| #[trigger] p2d_map_of(r@).contains_key(k) <==> p2d_has(flat@, k),
        forall|k: (Network, u32)|
            p2d_map_of(r@).contains_key(k) ==> p2d_map_of(r@)[k] == p2d_min(flat@, k),
{
    let mut r: Vec<Prefix2Dist> = Vec::new();
    let mut i: usize = 0;
    while i < flat.len()
        invariant
            i <= flat@.len(),
            p2d_unique(r@),
            forall|k: (Network, u32)|
                #[trigger] p2d_map_of(r@).contains_key(k) <==> p2d_has(flat@.take(i as int), k),
            forall|k: (Network, u32)|
                p2d_map_of(r@).contains_key(k) ==> p2d_map_of(r@)[k] == p2d_min(
                    flat@.take(i as int),
                    k,
                ),
        decreases flat@.len() - i,
    {
        let e = flat[i];
        let ghost k0 = p2d_key(e);
        let ghost pre = flat@.take(i as int);
        proof {
            assert(flat@.take(i + 1) =~= pre.push(e));
            assert forall|k: (Network, u32)|
                p2d_min(flat@.take(i + 1), k) == (if p2d_key(e) == k && e.distance < p2d_min(
                    pre,
                    k,
                ) {
                    e.distance
                } else {
                    p2d_min(pre, k)
                }) && (p2d_has(flat@.take(i + 1), k) <==> p2d_has(pre, k) || p2d_key(e)
                == k) by {
                lemma_p2d_min_push(pre, e, k);
            }
        }
        match p2d_find(&r, e.prefix, e.collector_asn) {
            Some(idx) => {
                let prev = r[idx].distance;
                let newd = if e.distance < prev {
                    e.distance
                } else {
                    prev
                };
                let updated = Prefix2Dist {
                    prefix: e.prefix,
                    collector_asn: e.collector_asn,
                    distance: newd,
                };
                proof {
                    lemma_p2d_map_of_index(r@, idx as int);
                    lemma_p2d_map_of_update(r@, idx as int, updated);
                }
                r[idx] = updated;
            },
            None => {
                proof {
                    lemma_p2d_map_of_contains(r@, k0);
                    assert(!p2d_has(pre, k0));
                    assert(p2d_min(pre, k0) == u32::MAX) by {
                        lemma_p2d_min_no_key(pre, k0);
                    }
                }
                let ghost r0 = r@;
                r.push(e);
                proof {
                    assert(r@.drop_last() =~= r0);
                }
            },
        }
        i = i + 1;
    }
    proof {
        assert(flat@.take(flat@.len() as int) =~= flat@);
    }
    r
}

/// No entry with key `k` means an unbounded least distance for `k`.
proof fn lemma_p2d_min_no_key(s: Seq<Prefix2Dist>, k: (Network, u32))
    requires
        !p2d_has(s, k),
    ensures
        p2d_min(s, k) == u32::MAX,
    decreases s.len(),
{
    if s.len() > 0 {
        assert(!p2d_has(s.drop_last(), k)) by {
            if p2d_has(s.drop_last(), k) {
                let i = choose|i: int|
                    0 <= i < s.drop_last().len() && p2d_key(s.drop_last()[i]) == k;
                assert(p2d_key(s[i]) == k);
            }
        }
        lemma_p2d_min_no_key(s.drop_last(), k);
        assert(p2d_key(s[s.len() - 1]) != k);
    }
}

/// Collect the distance entries of the readable artifacts into one flat
/// sequence, or report the first unreadable artifact when none may be
/// skipped.
fn p2d_flatten(artifacts: &Vec<Option<Prefix2DistCollectorJson>>, ignore_error: bool) -> (r: Result<
    Vec<Prefix2Dist>,
    SummarizeError,
>)
    ensures
        match r {
            Ok(flat) => (ignore_error || forall|j: int|
                0 <= j < artifacts@.len() ==> artifacts@[j] is Some) && flat@
                == p2d_readable_entries(artifacts@),
            Err(e) => !ignore_error && e.failed_index < artifacts@.len()
                && artifacts@[e.failed_index as int] is None && forall|j: int|
                0 <= j < e.failed_index ==> artifacts@[j] is Some,
        },
{
    let mut flat: Vec<Prefix2Dist> = Vec::new();
    let mut i: usize = 0;
    while i < artifacts.len()
        invariant
            i <= artifacts@.len(),
            flat@ == p2d_readable_entries(artifacts@.take(i as int)),
            !ignore_error ==> forall|j: int| 0 <= j < i ==> artifacts@[j] is Some,
        decreases artifacts@.len() - i,
    {
        proof {
            assert(artifacts@.take(i + 1).drop_last() =~= artifacts@.take(i as int));
        }
        match &artifacts[i] {
            None => {
                if !ignore_error {
                    return Err(SummarizeError { failed_index: i });
                }
                proof {
                    assert(flat@ =~= p2d_readable_entries(artifacts@.take(i + 1)));
                }
            },
            Some(doc) => {
                let ghost base = flat@;
                let mut j: usize = 0;
                while j < doc.pfx2dist.len()
                    invariant
                        j <= doc.pfx2dist@.len(),
                        flat@ == base + doc.pfx2dist@.take(j as int),
                    decreases doc.pfx2dist@.len() - j,
                {
                    flat.push(doc.pfx2dist[j]);
                    proof {
                        assert(base + doc.pfx2dist@.take(j + 1) =~= (base + doc.pfx2dist@.take(
                            j as int,
                        )).push(doc.pfx2dist@[j as int]));
                    }
                    j = j + 1;
                }
                proof {
                    assert(doc.pfx2dist@.take(doc.pfx2dist@.len() as int) =~= doc.pfx2dist@);
                    assert(flat@ =~= p2d_readable_entries(artifacts@.take(i + 1)));
                }
            },
        }
        i = i + 1;
    }
    proof {
        assert(artifacts@.take(artifacts@.len() as int) =~= artifacts@);
    }
    Ok(flat)
}

impl Prefix2DistProcessor {
    /// Merge the readable per-snapshot artifacts into one cumulative
    /// result: per key, the merged distance is the least per-snapshot
    /// distance.
    ///
    /// When `ignore_error` is set an unreadable artifact is skipped;
    /// otherwise the first unreadable artifact aborts the whole call and
    /// its index is reported.
    pub fn summarize_latest(
        &self,
        artifacts: &Vec<Option<Prefix2DistCollectorJson>>,
        rib_dump_urls: Vec<String>,
        ignore_error: bool,
    ) -> (r: Result<Prefix2DistSummaryJson, SummarizeError>)
        ensures
            r is Ok <==> (ignore_error || forall|j: int|
                0 <= j < artifacts@.len() ==> artifacts@[j] is Some),
            match r {
                Ok(summary) => {
                    &&& summary.rib_dump_urls == rib_dump_urls
                    &&& p2d_unique(summary.pfx2dist@)
                    &&& forall|k: (Network, u32)|
                        #[trigger] p2d_map_of(summary.pfx2dist@).contains_key(k) <==> p2d_has(
                            p2d_readable_entries(artifacts@),
                            k,
                        )
                    &&& forall|k: (Network, u32)|
                        p2d_map_of(summary.pfx2dist@).contains_key(k) ==> p2d_map_of(
                            summary.pfx2dist@,
                        )[k] == p2d_min(p2d_readable_entries(artifacts@), k)
                },
                Err(e) => {
                    &&& !ignore_error
                    &&& e.failed_index < artifacts@.len()
                    &&& artifacts@[e.failed_index as int] is None
                    &&& forall|j: int| 0 <= j < e.failed_index ==> artifacts@[j] is Some
                },
            },
    {
        let flat = match p2d_flatten(artifacts, ignore_error) {
            Ok(flat) => flat,
            Err(e) => {
                return Err(e);
            },
        };
        let merged = p2d_merge_entries(&flat);
        Ok(Prefix2DistSummaryJson { rib_dump_urls, pfx2dist: merged })
    }
}


impl Prefix2DistProcessor {
    /// The stable name of this processor.
    pub fn name(&self) -> (r: String)
        ensures
            r@ == self.spec_processor_meta()@.name,
    {
        self.processor_meta.name.clone()
    }

    /// The archival and "latest" output locations for the snapshot this
    /// processor was reset with: the archival one is timestamped, the
    /// "latest" one is overwritten every run.
    pub fn output_paths(&self) -> (r: Option<Vec<String>>)
        requires
            self.spec_rib_meta() is Some,
        ensures
            r matches Some(v) && v@.len() == 2 && v@[0]@ == archive_path_spec(
                self.spec_processor_meta()@,
                self.spec_rib_meta()->Some_0@,
            ) && v@[1]@ == latest_path_spec(
                self.spec_processor_meta()@,
                self.spec_rib_meta()->Some_0@,
            ),
    {
        match &self.rib_meta {
            Some(m) => Some(
                vec![
                    get_output_path(m, &self.processor_meta),
                    get_latest_output_path(m, &self.processor_meta),
                ],
            ),
            None => None,
        }
    }

    /// The per-snapshot result document: the snapshot identity and the
    /// current pfx2dist entries.
    pub fn to_result(&self) -> (r: Option<Prefix2DistCollectorJson>)
        requires
            self.spec_rib_meta() is Some,
            self.wf(),
        ensures
            r matches Some(doc) && doc.project@ == self.spec_rib_meta()->Some_0@.project
                && doc.collector@ == self.spec_rib_meta()->Some_0@.collector && doc.rib_dump_url@
                == self.spec_rib_meta()->Some_0@.rib_dump_url && doc.pfx2dist@ == self.spec_entries() && p2d_unique(doc.pfx2dist@) && p2d_map_of(doc.pfx2dist@) == self@,
    {
        match &self.rib_meta {
            Some(m) => Some(
                Prefix2DistCollectorJson {
                    project: m.project.clone(),
                    collector: m.collector.clone(),
                    rib_dump_url: m.rib_dump_url.clone(),
                    pfx2dist: self.get_count_vec(),
                },
            ),
            None => None,
        }
    }
}


impl Prefix2DistProcessor {
    /// Whether this processor reports its "latest" output target as
    /// already holding output for the forthcoming snapshot.
    pub fn output_exists(&self) -> (r: bool)
        ensures
            r == self.latest_output_exists(),
    {
        self.latest_exists
    }
}


impl Prefix2DistProcessor {
    /// The processor's own meta: name and output root.
    pub fn processor_meta(&self) -> (r: ProcessorMeta)
        ensures
            r@ == self.spec_processor_meta()@,
    {
        self.processor_meta.clone()
    }

    /// Whether a snapshot meta has been stored by a reset.
    pub fn has_rib_meta(&self) -> (r: bool)
        ensures
            r == (self.spec_rib_meta() is Some),
    {
        match &self.rib_meta {
            Some(_) => true,
            None => false,
        }
    }
}


/// Within one pass a recorded distance only ever decreases.
pub proof fn lemma_p2d_step_monotone(m: Map<(Network, u32), u32>, e: RoutingElement, k: (
    Network,
    u32,
))
    ensures
        p2d_get(p2d_step(m, e), k) <= p2d_get(m, k),
{
}

} // verus!

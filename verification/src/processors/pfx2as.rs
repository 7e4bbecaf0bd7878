//! Prefix-to-origin processor.
//!
//! Counts, per (destination network, origin AS) pair, how many announce
//! elements were observed whose path originates at that AS.  The origin AS
//! is the last entry of the AS path in receiver-to-origin order.  The merge
//! rule across snapshots sums the counts per key.

use vstd::prelude::*;

use crate::elem::{ElemType, Network, RoutingElement};
use crate::processors::meta::{
    archive_path_spec, get_latest_output_path, get_output_path, latest_path_spec, ProcessorMeta,
    RibMeta,
};
use crate::processors::SummarizeError;

verus! {

/// One (prefix, origin AS) pair with its occurrence count.
#[derive(Clone, Copy, Debug, PartialEq, Eq, Structural)]
pub struct Prefix2AsCount {
    pub prefix: Network,
    pub asn: u32,
    pub count: u64,
}

/// The aggregation key of one count entry.
pub open spec fn p2a_key(e: Prefix2AsCount) -> (Network, u32) {
    (e.prefix, e.asn)
}

/// The association map held by a sequence of count entries.
pub open spec fn p2a_map_of(s: Seq<Prefix2AsCount>) -> Map<(Network, u32), u64>
    decreases s.len(),
{
    if s.len() == 0 {
        Map::empty()
    } else {
        p2a_map_of(s.drop_last()).insert(p2a_key(s.last()), s.last().count)
    }
}

/// No two entries share a key.
pub open spec fn p2a_unique(s: Seq<Prefix2AsCount>) -> bool {
    forall|i: int, j: int| 0 <= i < j < s.len() ==> p2a_key(s[i]) != p2a_key(s[j])
}

pub proof fn lemma_p2a_map_of_contains(s: Seq<Prefix2AsCount>, k: (Network, u32))
    ensures
        p2a_map_of(s).contains_key(k) <==> exists|i: int| 0 <= i < s.len() && p2a_key(s[i]) == k,
    decreases s.len(),
{
    if s.len() > 0 {
        let rest = s.drop_last();
        lemma_p2a_map_of_contains(rest, k);
        if k == p2a_key(s.last()) {
            assert(p2a_key(s[s.len() - 1]) == k);
        } else {
            if p2a_map_of(s).contains_key(k) {
                let i = choose|i: int| 0 <= i < rest.len() && p2a_key(rest[i]) == k;
                assert(p2a_key(s[i]) == k);
            }
            if exists|i: int| 0 <= i < s.len() && p2a_key(s[i]) == k {
                let i = choose|i: int| 0 <= i < s.len() && p2a_key(s[i]) == k;
                assert(i < s.len() - 1);
                assert(p2a_key(rest[i]) == k);
            }
        }
    }
}

pub proof fn lemma_p2a_map_of_index(s: Seq<Prefix2AsCount>, i: int)
    requires
        p2a_unique(s),
        0 <= i < s.len(),
    ensures
        p2a_map_of(s).contains_key(p2a_key(s[i])),
        p2a_map_of(s)[p2a_key(s[i])] == s[i].count,
    decreases s.len(),
{
    let rest = s.drop_last();
    if i < s.len() - 1 {
        assert(p2a_unique(rest));
        lemma_p2a_map_of_index(rest, i);
        assert(p2a_key(s[i]) != p2a_key(s[s.len() - 1]));
    }
}

pub proof fn lemma_p2a_map_of_update(s: Seq<Prefix2AsCount>, i: int, e: Prefix2AsCount)
    requires
        p2a_unique(s),
        0 <= i < s.len(),
        p2a_key(e) == p2a_key(s[i]),
    ensures
        p2a_map_of(s.update(i, e)) =~= p2a_map_of(s).insert(p2a_key(e), e.count),
    decreases s.len(),
{
    let rest = s.drop_last();
    if i == s.len() - 1 {
        assert(s.update(i, e).drop_last() =~= rest);
        assert(s.update(i, e).last() == e);
    } else {
        assert(p2a_unique(rest));
        assert(s.update(i, e).drop_last() =~= rest.update(i, e));
        lemma_p2a_map_of_update(rest, i, e);
        assert(p2a_key(s.last()) != p2a_key(e));
    }
}

/// The value of a key in a count map, zero when absent.
pub open spec fn p2a_get(m: Map<(Network, u32), u64>, k: (Network, u32)) -> u64 {
    if m.contains_key(k) {
        m[k]
    } else {
        0
    }
}

/// A counter increment, saturating at the largest representable count.
pub open spec fn inc_sat(c: u64) -> u64 {
    if c == u64::MAX {
        c
    } else {
        (c + 1) as u64
    }
}

/// Whether an element contributes to the prefix-to-origin statistic:
/// an announce for a non-default network with a usable, non-empty path.
pub open spec fn p2a_qualifies(e: RoutingElement) -> bool {
    &&& e.elem_type is Announce
    &&& !e.prefix.spec_is_default()
    &&& e.has_path()
}

/// The aggregation key of a qualifying element.
pub open spec fn p2a_elem_key(e: RoutingElement) -> (Network, u32)
    recommends
        p2a_qualifies(e),
{
    (e.prefix, e.path()->Some_0.last())
}

/// How one element transforms the prefix-to-origin map.
pub open spec fn p2a_step(m: Map<(Network, u32), u64>, e: RoutingElement) -> Map<
    (Network, u32),
    u64,
> {
    if p2a_qualifies(e) {
        m.insert(p2a_elem_key(e), inc_sat(p2a_get(m, p2a_elem_key(e))))
    } else {
        m
    }
}

/// How a whole element sequence transforms the prefix-to-origin map.
pub open spec fn p2a_run(m: Map<(Network, u32), u64>, elems: Seq<RoutingElement>) -> Map<
    (Network, u32),
    u64,
>
    decreases elems.len(),
{
    if elems.len() == 0 {
        m
    } else {
        p2a_step(p2a_run(m, elems.drop_last()), elems.last())
    }
}

/// The number of elements of a sequence that qualify and carry key `k`.
pub open spec fn p2a_matching(elems: Seq<RoutingElement>, k: (Network, u32)) -> nat
    decreases elems.len(),
{
    if elems.len() == 0 {
        0
    } else {
        p2a_matching(elems.drop_last(), k) + if p2a_qualifies(elems.last()) && p2a_elem_key(
            elems.last(),
        ) == k {
            1nat
        } else {
            0nat
        }
    }
}

/// Starting from an empty store, the count recorded for a key is exactly
/// the number of announce elements for that non-default network whose
/// path's last AS number is that origin.
pub proof fn lemma_p2a_count_is_matching(elems: Seq<RoutingElement>, k: (Network, u32))
    requires
        elems.len() <= u64::MAX,
    ensures
        p2a_run(Map::empty(), elems).contains_key(k) <==> p2a_matching(elems, k) > 0,
        p2a_run(Map::empty(), elems).contains_key(k) ==> p2a_run(Map::empty(), elems)[k]
            == p2a_matching(elems, k),
        p2a_matching(elems, k) <= elems.len(),
    decreases elems.len(),
{
    if elems.len() > 0 {
        lemma_p2a_count_is_matching(elems.drop_last(), k);
    }
}

/// Find the index of the entry with the given key, if any.
fn p2a_find(v: &Vec<Prefix2AsCount>, prefix: Network, asn: u32) -> (r: Option<usize>)
    ensures
        match r {
            Some(i) => i < v@.len() && p2a_key(v@[i as int]) == (prefix, asn),
            None => forall|j: int| 0 <= j < v@.len() ==> p2a_key(v@[j]) != (prefix, asn),
        },
{
    let mut i: usize = 0;
    while i < v.len()
        invariant
            i <= v@.len(),
            forall|j: int| 0 <= j < i ==> p2a_key(v@[j]) != (prefix, asn),
        decreases v@.len() - i,
    {
        if v[i].prefix == prefix && v[i].asn == asn {
            return Some(i);
        }
        i = i + 1;
    }
    None
}

/// The prefix-to-origin processor.
#[derive(Debug)]
pub struct Prefix2AsProcessor {
    rib_meta: Option<RibMeta>,
    processor_meta: ProcessorMeta,
    pfx2as_map: Vec<Prefix2AsCount>,
    latest_exists: bool,
}

impl View for Prefix2AsProcessor {
    type V = Map<(Network, u32), u64>;

    closed spec fn view(&self) -> Map<(Network, u32), u64> {
        p2a_map_of(self.pfx2as_map@)
    }
}

impl Prefix2AsProcessor {
    pub closed spec fn wf(&self) -> bool {
        p2a_unique(self.pfx2as_map@)
    }

    pub closed spec fn spec_rib_meta(&self) -> Option<RibMeta> {
        self.rib_meta
    }

    pub closed spec fn spec_processor_meta(&self) -> ProcessorMeta {
        self.processor_meta
    }

    pub closed spec fn spec_entries(&self) -> Seq<Prefix2AsCount> {
        self.pfx2as_map@
    }

    pub closed spec fn latest_output_exists(&self) -> bool {
        self.latest_exists
    }

    pub fn new(output_dir: &str) -> (r: Prefix2AsProcessor)
        ensures
            r.wf(),
            r@ =~= Map::<(Network, u32), u64>::empty(),
            r.spec_rib_meta() is None,
            r.spec_processor_meta()@.name == "pfx2as"@,
            r.spec_processor_meta()@.output_dir == output_dir@,
            !r.latest_output_exists(),
    {
        let processor_meta = ProcessorMeta {
            name: String::from_str("pfx2as"),
            output_dir: String::from_str(output_dir),
        };
        Prefix2AsProcessor {
            rib_meta: None,
            processor_meta,
            pfx2as_map: Vec::new(),
            latest_exists: false,
        }
    }

    /// Record that the "latest" output target for the forthcoming snapshot
    /// already holds output, so a coordinator registers this processor as
    /// skipped.
    pub fn mark_latest_exists(&mut self)
        ensures
            final(self).latest_output_exists(),
            final(self)@ == old(self)@,
            final(self).wf() == old(self).wf(),
            final(self).spec_entries() == old(self).spec_entries(),
            final(self).spec_rib_meta() == old(self).spec_rib_meta(),
            final(self).spec_processor_meta() == old(self).spec_processor_meta(),
    {
        self.latest_exists = true;
    }

    /// Discard all prior aggregation state and store the snapshot meta.
    pub fn reset_processor(&mut self, rib_meta: &RibMeta)
        ensures
            final(self).wf(),
            final(self)@ =~= Map::<(Network, u32), u64>::empty(),
            final(self).spec_rib_meta() matches Some(m) && m@ == rib_meta@,
            final(self).spec_processor_meta() == old(self).spec_processor_meta(),
            final(self).latest_output_exists() == old(self).latest_output_exists(),
    {
        self.rib_meta = Some(rib_meta.clone());
        self.pfx2as_map = Vec::new();
    }

    /// Process one element: count a qualifying announce under its
    /// (network, origin AS) key; ignore everything else.
    pub fn process_entry(&mut self, elem: &RoutingElement)
        requires
            old(self).wf(),
        ensures
            final(self).wf(),
            final(self)@ =~= p2a_step(old(self)@, *elem),
            final(self).spec_rib_meta() == old(self).spec_rib_meta(),
            final(self).spec_processor_meta() == old(self).spec_processor_meta(),
            final(self).latest_output_exists() == old(self).latest_output_exists(),
    {
        if !matches!(elem.elem_type, ElemType::Announce) {
            return ;
        }
        if elem.prefix.is_default() {
            return ;
        }
        match &elem.as_path {
            None => {},
            Some(path) => {
                if path.len() > 0 {
                    let origin = path[path.len() - 1];
                    let prefix = elem.prefix;
                    match p2a_find(&self.pfx2as_map, prefix, origin) {
                        Some(i) => {
                            let c = self.pfx2as_map[i].count;
                            let newc = if c == u64::MAX {
                                c
                            } else {
                                c + 1
                            };
                            let e = Prefix2AsCount { prefix, asn: origin, count: newc };
                            proof {
                                lemma_p2a_map_of_index(self.pfx2as_map@, i as int);
                                lemma_p2a_map_of_update(self.pfx2as_map@, i as int, e);
                            }
                            self.pfx2as_map[i] = e;
                        },
                        None => {
                            proof {
                                lemma_p2a_map_of_contains(self.pfx2as_map@, (prefix, origin));
                            }
                            let e = Prefix2AsCount { prefix, asn: origin, count: 1 };
                            self.pfx2as_map.push(e);
                            proof {
                                assert(self.pfx2as_map@.drop_last() =~= old(self).pfx2as_map@);
                            }
                        },
                    }
                }
            },
        }
    }

    /// The current count entries, one per key, in no significant order.
    pub fn get_count_vec(&self) -> (r: Vec<Prefix2AsCount>)
        requires
            self.wf(),
        ensures
            r@ == self.spec_entries(),
            p2a_unique(r@),
            p2a_map_of(r@) == self@,
    {
        let mut r: Vec<Prefix2AsCount> = Vec::new();
        let mut i: usize = 0;
        while i < self.pfx2as_map.len()
            invariant
                i <= self.pfx2as_map@.len(),
                r@ == self.pfx2as_map@.take(i as int),
            decreases self.pfx2as_map@.len() - i,
        {
            r.push(self.pfx2as_map[i]);
            proof {
                assert(self.pfx2as_map@.take(i + 1).drop_last() =~= self.pfx2as_map@.take(i as int));
                assert(r@ =~= self.pfx2as_map@.take(i + 1));
            }
            i = i + 1;
        }
        proof {
            assert(self.pfx2as_map@.take(self.pfx2as_map@.len() as int) =~= self.pfx2as_map@);
        }
        r
    }
}


/// The archival per-snapshot artifact of the prefix-to-origin processor.
#[derive(Debug)]
pub struct Prefix2AsCollectorJson {
    pub project: String,
    pub collector: String,
    pub rib_dump_url: String,
    pub pfx2as: Vec<Prefix2AsCount>,
}

/// The cumulative cross-snapshot artifact of the prefix-to-origin processor.
#[derive(Debug)]
pub struct Prefix2AsSummaryJson {
    pub rib_dump_urls: Vec<String>,
    pub pfx2as: Vec<Prefix2AsCount>,
}

/// All count entries of the readable artifacts, in artifact order.
pub open spec fn p2a_readable_entries(arts: Seq<Option<Prefix2AsCollectorJson>>) -> Seq<
    Prefix2AsCount,
>
    decreases arts.len(),
{
    if arts.len() == 0 {
        Seq::empty()
    } else {
        p2a_readable_entries(arts.drop_last()) + match arts.last() {
            Some(d) => d.pfx2as@,
            None => Seq::empty(),
        }
    }
}

/// The total count carried for key `k` by a sequence of entries.
pub open spec fn p2a_sum(entries: Seq<Prefix2AsCount>, k: (Network, u32)) -> nat
    decreases entries.len(),
{
    if entries.len() == 0 {
        0
    } else {
        p2a_sum(entries.drop_last(), k) + if p2a_key(entries.last()) == k {
            entries.last().count as nat
        } else {
            0nat
        }
    }
}

/// Whether some entry carries key `k`.
pub open spec fn p2a_has(entries: Seq<Prefix2AsCount>, k: (Network, u32)) -> bool {
    exists|i: int| 0 <= i < entries.len() && p2a_key(entries[i]) == k
}

/// A mathematical count capped at the largest representable one.
pub open spec fn sat_cap(n: nat) -> u64 {
    if n >= u64::MAX {
        u64::MAX
    } else {
        n as u64
    }
}

proof fn lemma_p2a_sum_push(s: Seq<Prefix2AsCount>, e: Prefix2AsCount, k: (Network, u32))
    ensures
        p2a_sum(s.push(e), k) == p2a_sum(s, k) + if p2a_key(e) == k {
            e.count as nat
        } else {
            0nat
        },
        p2a_has(s.push(e), k) <==> p2a_has(s, k) || p2a_key(e) == k,
{
    assert(s.push(e).drop_last() =~= s);
    assert(s.push(e).last() == e);
    if p2a_has(s, k) {
        let i = choose|i: int| 0 <= i < s.len() && p2a_key(s[i]) == k;
        assert(p2a_key(s.push(e)[i]) == k);
    }
    if p2a_key(e) == k {
        assert(p2a_key(s.push(e)[s.len() as int]) == k);
    }
    if p2a_has(s.push(e), k) && p2a_key(e) != k {
        let i = choose|i: int| 0 <= i < s.push(e).len() && p2a_key(s.push(e)[i]) == k;
        if i < s.len() {
            assert(p2a_key(s[i]) == k);
        }
    }
}

/// No entry with key `k` means a zero total for `k`.
proof fn lemma_p2a_sum_no_key(s: Seq<Prefix2AsCount>, k: (Network, u32))
    requires
        !p2a_has(s, k),
    ensures
        p2a_sum(s, k) == 0,
    decreases s.len(),
{
    if s.len() > 0 {
        assert(!p2a_has(s.drop_last(), k)) by {
            if p2a_has(s.drop_last(), k) {
                let i = choose|i: int|
                    0 <= i < s.drop_last().len() && p2a_key(s.drop_last()[i]) == k;
                assert(p2a_key(s[i]) == k);
            }
        }
        lemma_p2a_sum_no_key(s.drop_last(), k);
        assert(p2a_key(s[s.len() - 1]) != k);
    }
}

/// Fold a flat entry sequence into one entry per key, summing the counts
/// and saturating at the largest representable count.
fn p2a_merge_entries(flat: &Vec<Prefix2AsCount>) -> (r: Vec<Prefix2AsCount>)
    ensures
        p2a_unique(r@),
        forall|k: (Network, u32)|
            #[trigger] p2a_map_of(r@).contains_key(k) <==> p2a_has(flat@, k),
        forall|k: (Network, u32)|
            p2a_map_of(r@).contains_key(k) ==> p2a_map_of(r@)[k] == sat_cap(p2a_sum(flat@, k)),
{
    let mut r: Vec<Prefix2AsCount> = Vec::new();
    let mut i: usize = 0;
    while i < flat.len()
        invariant
            i <= flat@.len(),
            p2a_unique(r@),
            forall|k: (Network, u32)|
                #[trigger] p2a_map_of(r@).contains_key(k) <==> p2a_has(flat@.take(i as int), k),
            forall|k: (Network, u32)|
                p2a_map_of(r@).contains_key(k) ==> p2a_map_of(r@)[k] == sat_cap(
                    p2a_sum(flat@.take(i as int), k),
                ),
        decreases flat@.len() - i,
    {
        let e = flat[i];
        let ghost k0 = p2a_key(e);
        let ghost pre = flat@.take(i as int);
        let ghost post = flat@.take(i + 1);
        proof {
            assert(post =~= pre.push(e));
            assert forall|k: (Network, u32)|
                p2a_sum(post, k) == p2a_sum(pre, k) + (if p2a_key(e) == k {
                    e.count as nat
                } else {
                    0nat
                }) && (p2a_has(post, k) <==> p2a_has(pre, k) || p2a_key(e) == k) by {
                lemma_p2a_sum_push(pre, e, k);
            }
        }
        match p2a_find(&r, e.prefix, e.asn) {
            Some(idx) => {
                let c = r[idx].count;
                let newc = if c > u64::MAX - e.count {
                    u64::MAX
                } else {
                    c + e.count
                };
                let updated = Prefix2AsCount { prefix: e.prefix, asn: e.asn, count: newc };
                proof {
                    lemma_p2a_map_of_index(r@, idx as int);
                    lemma_p2a_map_of_update(r@, idx as int, updated);
                }
                r[idx] = updated;
            },
            None => {
                proof {
                    lemma_p2a_map_of_contains(r@, k0);
                    lemma_p2a_sum_no_key(pre, k0);
                }
                let ghost r0 = r@;
                r.push(e);
                proof {
                    assert(r@.drop_last() =~= r0);
                }
            },
        }
        i = i + 1;
    }
    proof {
        assert(flat@.take(flat@.len() as int) =~= flat@);
    }
    r
}

/// Collect the count entries of the readable artifacts into one flat
/// sequence, or report the first unreadable artifact when none may be
/// skipped.
fn p2a_flatten(artifacts: &Vec<Option<Prefix2AsCollectorJson>>, ignore_error: bool) -> (r: Result<
    Vec<Prefix2AsCount>,
    SummarizeError,
>)
    ensures
        match r {
            Ok(flat) => (ignore_error || forall|j: int|
                0 <= j < artifacts@.len() ==> artifacts@[j] is Some) && flat@
                == p2a_readable_entries(artifacts@),
            Err(e) => !ignore_error && e.failed_index < artifacts@.len()
                && artifacts@[e.failed_index as int] is None && forall|j: int|
                0 <= j < e.failed_index ==> artifacts@[j] is Some,
        },
{
    let mut flat: Vec<Prefix2AsCount> = Vec::new();
    let mut i: usize = 0;
    while i < artifacts.len()
        invariant
            i <= artifacts@.len(),
            flat@ == p2a_readable_entries(artifacts@.take(i as int)),
            !ignore_error ==> forall|j: int| 0 <= j < i ==> artifacts@[j] is Some,
        decreases artifacts@.len() - i,
    {
        proof {
            assert(artifacts@.take(i + 1).drop_last() =~= artifacts@.take(i as int));
        }
        match &artifacts[i] {
            None => {
                if !ignore_error {
                    return Err(SummarizeError { failed_index: i });
                }
                proof {
                    assert(flat@ =~= p2a_readable_entries(artifacts@.take(i + 1)));
                }
            },
            Some(doc) => {
                let ghost base = flat@;
                let mut j: usize = 0;
                while j < doc.pfx2as.len()
                    invariant
                        j <= doc.pfx2as@.len(),
                        flat@ == base + doc.pfx2as@.take(j as int),
                    decreases doc.pfx2as@.len() - j,
                {
                    flat.push(doc.pfx2as[j]);
                    proof {
                        assert(base + doc.pfx2as@.take(j + 1) =~= (base + doc.pfx2as@.take(
                            j as int,
                        )).push(doc.pfx2as@[j as int]));
                    }
                    j = j + 1;
                }
                proof {
                    assert(doc.pfx2as@.take(doc.pfx2as@.len() as int) =~= doc.pfx2as@);
                    assert(flat@ =~= p2a_readable_entries(artifacts@.take(i + 1)));
                }
            },
        }
        i = i + 1;
    }
    proof {
        assert(artifacts@.take(artifacts@.len() as int) =~= artifacts@);
    }
    Ok(flat)
}

impl Prefix2AsProcessor {
    /// Merge the readable per-snapshot artifacts into one cumulative
    /// result: per key, the merged count is the total of the per-snapshot
    /// counts (saturating at the largest representable count).
    ///
    /// When `ignore_error` is set an unreadable artifact is skipped;
    /// otherwise the first unreadable artifact aborts the whole call and
    /// its index is reported.
    pub fn summarize_latest(
        &self,
        artifacts: &Vec<Option<Prefix2AsCollectorJson>>,
        rib_dump_urls: Vec<String>,
        ignore_error: bool,
    ) -> (r: Result<Prefix2AsSummaryJson, SummarizeError>)
        ensures
            r is Ok <==> (ignore_error || forall|j: int|
                0 <= j < artifacts@.len() ==> artifacts@[j] is Some),
            match r {
                Ok(summary) => {
                    &&& summary.rib_dump_urls == rib_dump_urls
                    &&& p2a_unique(summary.pfx2as@)
                    &&& forall|k: (Network, u32)|
                        #[trigger] p2a_map_of(summary.pfx2as@).contains_key(k) <==> p2a_has(
                            p2a_readable_entries(artifacts@),
                            k,
                        )
                    &&& forall|k: (Network, u32)|
                        p2a_map_of(summary.pfx2as@).contains_key(k) ==> p2a_map_of(
                            summary.pfx2as@,
                        )[k] == sat_cap(p2a_sum(p2a_readable_entries(artifacts@), k))
                },
                Err(e) => {
                    &&& !ignore_error
                    &&& e.failed_index < artifacts@.len()
                    &&& artifacts@[e.failed_index as int] is None
                    &&& forall|j: int| 0 <= j < e.failed_index ==> artifacts@[j] is Some
                },
            },
    {
        let flat = match p2a_flatten(artifacts, ignore_error) {
            Ok(flat) => flat,
            Err(e) => {
                return Err(e);
            },
        };
        let merged = p2a_merge_entries(&flat);
        Ok(Prefix2AsSummaryJson { rib_dump_urls, pfx2as: merged })
    }
}


impl Prefix2AsProcessor {
    /// The stable name of this processor.
    pub fn name(&self) -> (r: String)
        ensures
            r@ == self.spec_processor_meta()@.name,
    {
        self.processor_meta.name.clone()
    }

    /// The archival and "latest" output locations for the snapshot this
    /// processor was reset with: the archival one is timestamped, the
    /// "latest" one is overwritten every run.
    pub fn output_paths(&self) -> (r: Option<Vec<String>>)
        requires
            self.spec_rib_meta() is Some,
        ensures
            r matches Some(v) && v@.len() == 2 && v@[0]@ == archive_path_spec(
                self.spec_processor_meta()@,
                self.spec_rib_meta()->Some_0@,
            ) && v@[1]@ == latest_path_spec(
                self.spec_processor_meta()@,
                self.spec_rib_meta()->Some_0@,
            ),
    {
        match &self.rib_meta {
            Some(m) => Some(
                vec![
                    get_output_path(m, &self.processor_meta),
                    get_latest_output_path(m, &self.processor_meta),
                ],
            ),
            None => None,
        }
    }

    /// The per-snapshot result document: the snapshot identity and the
    /// current pfx2as entries.
    pub fn to_result(&self) -> (r: Option<Prefix2AsCollectorJson>)
        requires
            self.spec_rib_meta() is Some,
            self.wf(),
        ensures
            r matches Some(doc) && doc.project@ == self.spec_rib_meta()->Some_0@.project
                && doc.collector@ == self.spec_rib_meta()->Some_0@.collector && doc.rib_dump_url@
                == self.spec_rib_meta()->Some_0@.rib_dump_url && doc.pfx2as@ == self.spec_entries() && p2a_unique(doc.pfx2as@) && p2a_map_of(doc.pfx2as@) == self@,
    {
        match &self.rib_meta {
            Some(m) => Some(
                Prefix2AsCollectorJson {
                    project: m.project.clone(),
                    collector: m.collector.clone(),
                    rib_dump_url: m.rib_dump_url.clone(),
                    pfx2as: self.get_count_vec(),
                },
            ),
            None => None,
        }
    }
}


impl Prefix2AsProcessor {
    /// Whether this processor reports its "latest" output target as
    /// already holding output for the forthcoming snapshot.
    pub fn output_exists(&self) -> (r: bool)
        ensures
            r == self.latest_output_exists(),
    {
        self.latest_exists
    }
}


impl Prefix2AsProcessor {
    /// The processor's own meta: name and output root.
    pub fn processor_meta(&self) -> (r: ProcessorMeta)
        ensures
            r@ == self.spec_processor_meta()@,
    {
        self.processor_meta.clone()
    }

    /// Whether a snapshot meta has been stored by a reset.
    pub fn has_rib_meta(&self) -> (r: bool)
        ensures
            r == (self.spec_rib_meta() is Some),
    {
        match &self.rib_meta {
            Some(_) => true,
            None => false,
        }
    }
}


/// Within one pass a recorded count only ever increases.
pub proof fn lemma_p2a_step_monotone(m: Map<(Network, u32), u64>, e: RoutingElement, k: (
    Network,
    u32,
))
    ensures
        p2a_get(p2a_step(m, e), k) >= p2a_get(m, k),
{
}

} // verus!

//! AS-relationship processor.
//!
//! Accumulates raw per-message evidence of adjacency type between AS-number
//! pairs observed in paths.  A qualifying path is first collapsed so runs
//! of one AS number (path prepending) count once.  For every adjacent pair
//! of the collapsed path (as received, receiver-to-origin order) an
//! undetermined entry keyed `(a, b, 0)` is recorded, exactly as observed
//! and not canonicalized.
//! When the path contains a member of a fixed reference set of well-known
//! default-free ("Tier-1") AS numbers, the path is reversed so the origin
//! comes first, the Tier-1 member closest to the origin is located, and
//! every adjacent pair lying strictly before it yields a provider-to-
//! customer entry keyed `(upstream, downstream, 1)`, the hop nearer the
//! origin being the customer.  Each entry carries an occurrence counter and
//! the set of distinct observing peer IPs.
//!
//! The merge rule across snapshots sums occurrence counts per key; the
//! per-snapshot distinct-observer counts are also summed, not re-
//! deduplicated, which can overcount true distinct observers — a known
//! limitation that is preserved rather than silently corrected.

use vstd::prelude::*;

use crate::elem::{collapse, collapse_path, ElemType, IpAddress, RoutingElement};
use crate::processors::lemma_push_to_set;
use crate::processors::meta::{
    archive_path_spec, get_latest_output_path, get_output_path, latest_path_spec, ProcessorMeta,
    RibMeta,
};
use crate::processors::pfx2as::{inc_sat, sat_cap};
use crate::processors::SummarizeError;

verus! {

/// Whether an AS number belongs to the fixed reference set of well-known
/// default-free (Tier-1) AS numbers.
pub open spec fn spec_is_tier1(asn: u32) -> bool {
    ||| asn == 6762
    ||| asn == 12956
    ||| asn == 2914
    ||| asn == 3356
    ||| asn == 6453
    ||| asn == 1239
    ||| asn == 701
    ||| asn == 6461
    ||| asn == 3257
    ||| asn == 1299
    ||| asn == 3491
    ||| asn == 7018
    ||| asn == 3320
    ||| asn == 5511
    ||| asn == 6830
    ||| asn == 174
    ||| asn == 6939
}

#[verifier::when_used_as_spec(spec_is_tier1)]
pub fn is_tier1(asn: u32) -> (r: bool)
    ensures
        r == spec_is_tier1(asn),
{
    asn == 6762 || asn == 12956 || asn == 2914 || asn == 3356 || asn == 6453 || asn == 1239
        || asn == 701 || asn == 6461 || asn == 3257 || asn == 1299 || asn == 3491 || asn == 7018
        || asn == 3320 || asn == 5511 || asn == 6830 || asn == 174 || asn == 6939
}

/// Whether a path contains a Tier-1 AS number.
pub open spec fn has_tier1(path: Seq<u32>) -> bool {
    exists|i: int| 0 <= i < path.len() && spec_is_tier1(path[i])
}

/// The index of the first Tier-1 AS number of a path.
pub open spec fn first_tier1_idx(path: Seq<u32>) -> int
    decreases path.len(),
{
    if path.len() == 0 {
        0
    } else if spec_is_tier1(path.first()) {
        0
    } else {
        1 + first_tier1_idx(path.drop_first())
    }
}

/// The first Tier-1 index is the unique position with a Tier-1 AS number
/// and none before it.
pub proof fn lemma_first_tier1_idx(path: Seq<u32>, t: int)
    requires
        0 <= t < path.len(),
        spec_is_tier1(path[t]),
        forall|j: int| 0 <= j < t ==> !spec_is_tier1(path[j]),
    ensures
        first_tier1_idx(path) == t,
    decreases path.len(),
{
    if t > 0 {
        let rest = path.drop_first();
        assert(rest[t - 1] == path[t]);
        assert forall|j: int| 0 <= j < t - 1 implies !spec_is_tier1(rest[j]) by {
            assert(rest[j] == path[j + 1]);
        }
        lemma_first_tier1_idx(rest, t - 1);
    }
}

/// One evidence record: an AS pair, a relationship code, an occurrence
/// counter and the observing peer IPs (no duplicates).
#[derive(Debug)]
pub struct As2relRecord {
    pub asn1: u32,
    pub asn2: u32,
    pub rel: u8,
    pub paths_count: u64,
    pub peers: Vec<IpAddress>,
}

/// The aggregation key of one evidence record.
pub open spec fn a2r_key(e: As2relRecord) -> (u32, u32, u8) {
    (e.asn1, e.asn2, e.rel)
}

/// The association map held by a sequence of evidence records: per key,
/// the occurrence count and the set of distinct observing peers.
pub open spec fn a2r_map_of(s: Seq<As2relRecord>) -> Map<(u32, u32, u8), (u64, Set<IpAddress>)>
    decreases s.len(),
{
    if s.len() == 0 {
        Map::empty()
    } else {
        a2r_map_of(s.drop_last()).insert(
            a2r_key(s.last()),
            (s.last().paths_count, s.last().peers@.to_set()),
        )
    }
}

/// No two records share a key, and no record lists a peer twice.
pub open spec fn a2r_wf_seq(s: Seq<As2relRecord>) -> bool {
    &&& forall|i: int, j: int| 0 <= i < j < s.len() ==> a2r_key(s[i]) != a2r_key(s[j])
    &&& forall|i: int| 0 <= i < s.len() ==> (#[trigger] s[i].peers@).no_duplicates()
}

pub proof fn lemma_a2r_map_of_contains(s: Seq<As2relRecord>, k: (u32, u32, u8))
    ensures
        a2r_map_of(s).contains_key(k) <==> exists|i: int| 0 <= i < s.len() && a2r_key(s[i]) == k,
    decreases s.len(),
{
    if s.len() > 0 {
        let rest = s.drop_last();
        lemma_a2r_map_of_contains(rest, k);
        if k == a2r_key(s.last()) {
            assert(a2r_key(s[s.len() - 1]) == k);
        } else {
            if a2r_map_of(s).contains_key(k) {
                let i = choose|i: int| 0 <= i < rest.len() && a2r_key(rest[i]) == k;
                assert(a2r_key(s[i]) == k);
            }
            if exists|i: int| 0 <= i < s.len() && a2r_key(s[i]) == k {
                let i = choose|i: int| 0 <= i < s.len() && a2r_key(s[i]) == k;
                assert(i < s.len() - 1);
                assert(a2r_key(rest[i]) == k);
            }
        }
    }
}

pub proof fn lemma_a2r_map_of_index(s: Seq<As2relRecord>, i: int)
    requires
        a2r_wf_seq(s),
        0 <= i < s.len(),
    ensures
        a2r_map_of(s).contains_key(a2r_key(s[i])),
        a2r_map_of(s)[a2r_key(s[i])] == (s[i].paths_count, s[i].peers@.to_set()),
    decreases s.len(),
{
    let rest = s.drop_last();
    if i < s.len() - 1 {
        assert(a2r_wf_seq(rest));
        lemma_a2r_map_of_index(rest, i);
        assert(a2r_key(s[i]) != a2r_key(s[s.len() - 1]));
    }
}

pub proof fn lemma_a2r_map_of_update(s: Seq<As2relRecord>, i: int, e: As2relRecord)
    requires
        a2r_wf_seq(s),
        0 <= i < s.len(),
        a2r_key(e) == a2r_key(s[i]),
    ensures
        a2r_map_of(s.update(i, e)) =~= a2r_map_of(s).insert(
            a2r_key(e),
            (e.paths_count, e.peers@.to_set()),
        ),
    decreases s.len(),
{
    let rest = s.drop_last();
    if i == s.len() - 1 {
        assert(s.update(i, e).drop_last() =~= rest);
        assert(s.update(i, e).last() == e);
    } else {
        assert(a2r_wf_seq(rest));
        assert(s.update(i, e).drop_last() =~= rest.update(i, e));
        lemma_a2r_map_of_update(rest, i, e);
        assert(a2r_key(s.last()) != a2r_key(e));
    }
}

/// The value of a key in an evidence map: occurrence count and observer
/// set, both empty when absent.
pub open spec fn a2r_val(m: Map<(u32, u32, u8), (u64, Set<IpAddress>)>, k: (u32, u32, u8)) -> (
    u64,
    Set<IpAddress>,
) {
    if m.contains_key(k) {
        m[k]
    } else {
        (0u64, Set::empty())
    }
}

/// Record one observation of key `k` by `peer`: the occurrence count is
/// incremented (saturating) and the peer joins the observer set.
pub open spec fn a2r_touch(
    m: Map<(u32, u32, u8), (u64, Set<IpAddress>)>,
    k: (u32, u32, u8),
    peer: IpAddress,
) -> Map<(u32, u32, u8), (u64, Set<IpAddress>)> {
    m.insert(k, (inc_sat(a2r_val(m, k).0), a2r_val(m, k).1.insert(peer)))
}

/// Record the undetermined (code 0) entries of the first `n` adjacent
/// pairs of a path, as received.
pub open spec fn a2r_code0_upto(
    m: Map<(u32, u32, u8), (u64, Set<IpAddress>)>,
    path: Seq<u32>,
    n: int,
    peer: IpAddress,
) -> Map<(u32, u32, u8), (u64, Set<IpAddress>)>
    decreases n,
{
    if n <= 0 {
        m
    } else {
        a2r_touch(
            a2r_code0_upto(m, path, n - 1, peer),
            (path[n - 1], path[n], 0u8),
            peer,
        )
    }
}

/// Record the provider-to-customer (code 1) entries of the first `n`
/// adjacent pairs of a reversed (origin-first) path: the hop nearer the
/// origin is the customer, so the key puts the upstream hop first.
pub open spec fn a2r_code1_upto(
    m: Map<(u32, u32, u8), (u64, Set<IpAddress>)>,
    rev: Seq<u32>,
    n: int,
    peer: IpAddress,
) -> Map<(u32, u32, u8), (u64, Set<IpAddress>)>
    decreases n,
{
    if n <= 0 {
        m
    } else {
        a2r_touch(
            a2r_code1_upto(m, rev, n - 1, peer),
            (rev[n], rev[n - 1], 1u8),
            peer,
        )
    }
}

/// Whether an element contributes relationship evidence: an announce for
/// a non-default network with a usable, non-empty path.
pub open spec fn a2r_qualifies(e: RoutingElement) -> bool {
    &&& e.elem_type is Announce
    &&& !e.prefix.spec_is_default()
    &&& e.has_path()
}

/// How one element transforms the evidence map.
pub open spec fn a2r_step(
    m: Map<(u32, u32, u8), (u64, Set<IpAddress>)>,
    e: RoutingElement,
) -> Map<(u32, u32, u8), (u64, Set<IpAddress>)> {
    if a2r_qualifies(e) {
        let path = collapse(e.path()->Some_0);
        let m0 = a2r_code0_upto(m, path, path.len() - 1, e.peer_ip);
        if has_tier1(path) {
            let rev = path.reverse();
            a2r_code1_upto(m0, rev, first_tier1_idx(rev) - 1, e.peer_ip)
        } else {
            m0
        }
    } else {
        m
    }
}

/// How a whole element sequence transforms the evidence map.
pub open spec fn a2r_run(
    m: Map<(u32, u32, u8), (u64, Set<IpAddress>)>,
    elems: Seq<RoutingElement>,
) -> Map<(u32, u32, u8), (u64, Set<IpAddress>)>
    decreases elems.len(),
{
    if elems.len() == 0 {
        m
    } else {
        a2r_step(a2r_run(m, elems.drop_last()), elems.last())
    }
}

/// Find the index of the record with the given key, if any.
fn a2r_find(v: &Vec<As2relRecord>, asn1: u32, asn2: u32, rel: u8) -> (r: Option<usize>)
    ensures
        match r {
            Some(i) => i < v@.len() && a2r_key(v@[i as int]) == (asn1, asn2, rel),
            None => forall|j: int| 0 <= j < v@.len() ==> a2r_key(v@[j]) != (asn1, asn2, rel),
        },
{
    let mut i: usize = 0;
    while i < v.len()
        invariant
            i <= v@.len(),
            forall|j: int| 0 <= j < i ==> a2r_key(v@[j]) != (asn1, asn2, rel),
        decreases v@.len() - i,
    {
        if v[i].asn1 == asn1 && v[i].asn2 == asn2 && v[i].rel == rel {
            return Some(i);
        }
        i = i + 1;
    }
    None
}

/// Whether a peer list contains an address.
fn peers_contain(v: &Vec<IpAddress>, x: IpAddress) -> (r: bool)
    ensures
        r <==> v@.contains(x),
{
    let mut i: usize = 0;
    while i < v.len()
        invariant
            i <= v@.len(),
            forall|j: int| 0 <= j < i ==> v@[j] != x,
        decreases v@.len() - i,
    {
        if v[i] == x {
            assert(v@[i as int] == x);
            return true;
        }
        i = i + 1;
    }
    assert(!v@.contains(x));
    false
}

/// Record one observation of `(asn1, asn2, rel)` by `peer` in the store.
fn a2r_touch_exec(v: &mut Vec<As2relRecord>, asn1: u32, asn2: u32, rel: u8, peer: IpAddress)
    requires
        a2r_wf_seq(old(v)@),
    ensures
        a2r_wf_seq(final(v)@),
        a2r_map_of(final(v)@) =~= a2r_touch(a2r_map_of(old(v)@), (asn1, asn2, rel), peer),
{
    match a2r_find(v, asn1, asn2, rel) {
        Some(i) => {
            proof {
                lemma_a2r_map_of_index(v@, i as int);
            }
            let mut rec = v.remove(i);
            let ghost pre = rec;
            rec.paths_count = if rec.paths_count == u64::MAX {
                rec.paths_count
            } else {
                rec.paths_count + 1
            };
            if !peers_contain(&rec.peers, peer) {
                rec.peers.push(peer);
                proof {
                    lemma_push_to_set(pre.peers@, peer);
                }
            } else {
                proof {
                    assert(pre.peers@.to_set().insert(peer) =~= pre.peers@.to_set());
                }
            }
            proof {
                lemma_a2r_map_of_update(old(v)@, i as int, rec);
            }
            v.insert(i, rec);
            proof {
                assert(old(v)@.remove(i as int).insert(i as int, rec) =~= old(v)@.update(
                    i as int,
                    rec,
                ));
            }
        },
        None => {
            proof {
                lemma_a2r_map_of_contains(v@, (asn1, asn2, rel));
            }
            let mut peers: Vec<IpAddress> = Vec::new();
            peers.push(peer);
            let rec = As2relRecord { asn1, asn2, rel, paths_count: 1, peers };
            v.push(rec);
            proof {
                assert(v@.drop_last() =~= old(v)@);
                assert(rec.peers@.to_set() =~= Set::empty().insert(peer)) by {
                    lemma_push_to_set(Seq::<IpAddress>::empty(), peer);
                    assert(Seq::<IpAddress>::empty().to_set() =~= Set::<IpAddress>::empty());
                }
            }
        },
    }
}


/// Whether a path contains a Tier-1 AS number.
fn path_has_tier1(v: &Vec<u32>) -> (r: bool)
    ensures
        r == has_tier1(v@),
{
    let mut j: usize = 0;
    while j < v.len()
        invariant
            j <= v@.len(),
            forall|l: int| 0 <= l < j ==> !spec_is_tier1(v@[l]),
        decreases v@.len() - j,
    {
        if is_tier1(v[j]) {
            assert(spec_is_tier1(v@[j as int]));
            return true;
        }
        j = j + 1;
    }
    assert(!has_tier1(v@));
    false
}

/// Reverse a path so the origin AS comes first.
fn reverse_vec(v: &Vec<u32>) -> (r: Vec<u32>)
    ensures
        r@ == v@.reverse(),
{
    let mut r: Vec<u32> = Vec::new();
    let mut i: usize = 0;
    while i < v.len()
        invariant
            i <= v@.len(),
            r@.len() == i,
            forall|j: int| 0 <= j < i ==> r@[j] == v@[v@.len() - 1 - j],
        decreases v@.len() - i,
    {
        r.push(v[v.len() - 1 - i]);
        i = i + 1;
    }
    proof {
        assert(r@ =~= v@.reverse());
    }
    r
}

/// The AS-relationship processor.
#[derive(Debug)]
pub struct As2relProcessor {
    rib_meta: Option<RibMeta>,
    processor_meta: ProcessorMeta,
    as2rel_map: Vec<As2relRecord>,
    latest_exists: bool,
}

impl View for As2relProcessor {
    type V = Map<(u32, u32, u8), (u64, Set<IpAddress>)>;

    closed spec fn view(&self) -> Map<(u32, u32, u8), (u64, Set<IpAddress>)> {
        a2r_map_of(self.as2rel_map@)
    }
}

impl As2relProcessor {
    pub closed spec fn wf(&self) -> bool {
        a2r_wf_seq(self.as2rel_map@)
    }

    pub closed spec fn spec_rib_meta(&self) -> Option<RibMeta> {
        self.rib_meta
    }

    pub closed spec fn spec_processor_meta(&self) -> ProcessorMeta {
        self.processor_meta
    }

    pub closed spec fn spec_records(&self) -> Seq<As2relRecord> {
        self.as2rel_map@
    }

    pub closed spec fn latest_output_exists(&self) -> bool {
        self.latest_exists
    }

    pub fn new(output_dir: &str) -> (r: As2relProcessor)
        ensures
            r.wf(),
            r@ =~= Map::<(u32, u32, u8), (u64, Set<IpAddress>)>::empty(),
            r.spec_rib_meta() is None,
            r.spec_processor_meta()@.name == "as2rel"@,
            r.spec_processor_meta()@.output_dir == output_dir@,
            !r.latest_output_exists(),
    {
        let processor_meta = ProcessorMeta {
            name: String::from_str("as2rel"),
            output_dir: String::from_str(output_dir),
        };
        As2relProcessor {
            rib_meta: None,
            processor_meta,
            as2rel_map: Vec::new(),
            latest_exists: false,
        }
    }

    /// Record that the "latest" output target for the forthcoming snapshot
    /// already holds output, so a coordinator registers this processor as
    /// skipped.
    pub fn mark_latest_exists(&mut self)
        ensures
            final(self).latest_output_exists(),
            final(self)@ == old(self)@,
            final(self).wf() == old(self).wf(),
            final(self).spec_records() == old(self).spec_records(),
            final(self).spec_rib_meta() == old(self).spec_rib_meta(),
            final(self).spec_processor_meta() == old(self).spec_processor_meta(),
    {
        self.latest_exists = true;
    }

    /// Discard all prior aggregation state and store the snapshot meta.
    pub fn reset_processor(&mut self, rib_meta: &RibMeta)
        ensures
            final(self).wf(),
            final(self)@ =~= Map::<(u32, u32, u8), (u64, Set<IpAddress>)>::empty(),
            final(self).spec_rib_meta() matches Some(m) && m@ == rib_meta@,
            final(self).spec_processor_meta() == old(self).spec_processor_meta(),
            final(self).latest_output_exists() == old(self).latest_output_exists(),
    {
        self.rib_meta = Some(rib_meta.clone());
        self.as2rel_map = Vec::new();
    }

    /// Process one element: record the adjacency evidence of a qualifying
    /// announce's path; ignore everything else.
    pub fn process_entry(&mut self, elem: &RoutingElement)
        requires
            old(self).wf(),
        ensures
            final(self).wf(),
            final(self)@ =~= a2r_step(old(self)@, *elem),
            final(self).spec_rib_meta() == old(self).spec_rib_meta(),
            final(self).spec_processor_meta() == old(self).spec_processor_meta(),
            final(self).latest_output_exists() == old(self).latest_output_exists(),
    {
        if !matches!(elem.elem_type, ElemType::Announce) {
            return ;
        }
        if elem.prefix.is_default() {
            return ;
        }
        let raw = match &elem.as_path {
            None => {
                return ;
            },
            Some(p) => p,
        };
        if raw.len() == 0 {
            return ;
        }
        let path = collapse_path(raw);
        proof {
            crate::elem::lemma_collapse_endpoints(raw@);
        }
        let peer = elem.peer_ip;
        let ghost m_init = a2r_map_of(self.as2rel_map@);

        // undetermined (code 0) evidence for every adjacent pair as received
        let mut i: usize = 0;
        while i + 1 < path.len()
            invariant
                path@.len() > 0,
                i < path@.len(),
                a2r_wf_seq(self.as2rel_map@),
                a2r_map_of(self.as2rel_map@) =~= a2r_code0_upto(m_init, path@, i as int, peer),
                self.rib_meta == old(self).rib_meta,
                self.processor_meta == old(self).processor_meta,
                self.latest_exists == old(self).latest_exists,
            decreases path@.len() - i,
        {
            a2r_touch_exec(&mut self.as2rel_map, path[i], path[i + 1], 0, peer);
            i = i + 1;
        }
        proof {
            assert(i as int == path@.len() - 1);
        }

        // a path without any Tier-1 AS number yields code-0 evidence only
        if !path_has_tier1(&path) {
            return ;
        }

        // reverse so the origin comes first and find the Tier-1 AS number
        // closest to the origin
        let rev = reverse_vec(&path);
        let mut t: usize = 0;
        while t < rev.len() && !is_tier1(rev[t])
            invariant
                t <= rev@.len(),
                forall|l: int| 0 <= l < t ==> !spec_is_tier1(rev@[l]),
            decreases rev@.len() - t,
        {
            t = t + 1;
        }
        proof {
            assert(has_tier1(rev@)) by {
                let w = choose|w: int| 0 <= w < path@.len() && spec_is_tier1(path@[w]);
                assert(rev@[path@.len() - 1 - w] == path@[w]);
            }
            assert(t < rev@.len()) by {
                if t == rev@.len() {
                    let w = choose|w: int| 0 <= w < rev@.len() && spec_is_tier1(rev@[w]);
                }
            }
            lemma_first_tier1_idx(rev@, t as int);
        }

        // provider-to-customer (code 1) evidence for every adjacent pair
        // strictly before the first Tier-1 hop
        if t >= 1 {
            let ghost m0 = a2r_map_of(self.as2rel_map@);
            let mut i1: usize = 0;
            while i1 + 1 < t
                invariant
                    t <= rev@.len(),
                    i1 < t,
                    a2r_wf_seq(self.as2rel_map@),
                    a2r_map_of(self.as2rel_map@) =~= a2r_code1_upto(m0, rev@, i1 as int, peer),
                    self.rib_meta == old(self).rib_meta,
                    self.processor_meta == old(self).processor_meta,
                    self.latest_exists == old(self).latest_exists,
                decreases t - i1,
            {
                a2r_touch_exec(&mut self.as2rel_map, rev[i1 + 1], rev[i1], 1, peer);
                i1 = i1 + 1;
            }
        }
    }
}


/// One output entry: an AS pair, occurrence count, distinct-observer
/// count, and relationship code.
#[derive(Clone, Copy, Debug, PartialEq, Eq, Structural)]
pub struct As2relEntry {
    pub asn1: u32,
    pub asn2: u32,
    pub paths_count: u64,
    pub peers_count: u64,
    pub rel: u8,
}

/// The aggregation key of one output entry.
pub open spec fn a2re_key(e: As2relEntry) -> (u32, u32, u8) {
    (e.asn1, e.asn2, e.rel)
}

/// The output entry of one evidence record: the observer set becomes its
/// cardinality.
pub open spec fn a2r_entry_of(rec: As2relRecord) -> As2relEntry {
    As2relEntry {
        asn1: rec.asn1,
        asn2: rec.asn2,
        paths_count: rec.paths_count,
        peers_count: rec.peers@.to_set().len() as u64,
        rel: rec.rel,
    }
}

impl As2relProcessor {
    /// The current output entries, one per key, in no significant order:
    /// each record's observer set is reported as its distinct count.
    pub fn get_count_vec(&self) -> (r: Vec<As2relEntry>)
        requires
            self.wf(),
        ensures
            r@.len() == self.spec_records().len(),
            forall|i: int|
                0 <= i < r@.len() ==> r@[i] == a2r_entry_of(self.spec_records()[i]),
    {
        let mut r: Vec<As2relEntry> = Vec::new();
        let mut i: usize = 0;
        while i < self.as2rel_map.len()
            invariant
                self.wf(),
                i <= self.as2rel_map@.len(),
                r@.len() == i,
                forall|j: int| 0 <= j < i ==> r@[j] == a2r_entry_of(self.as2rel_map@[j]),
            decreases self.as2rel_map@.len() - i,
        {
            let rec = &self.as2rel_map[i];
            proof {
                self.as2rel_map@[i as int].peers@.unique_seq_to_set();
            }
            let peers_count: u64 = rec.peers.len() as u64;
            r.push(
                As2relEntry {
                    asn1: rec.asn1,
                    asn2: rec.asn2,
                    paths_count: rec.paths_count,
                    peers_count,
                    rel: rec.rel,
                },
            );
            i = i + 1;
        }
        r
    }
}

/// The archival per-snapshot artifact of the AS-relationship processor.
#[derive(Debug)]
pub struct As2relCollectorJson {
    pub project: String,
    pub collector: String,
    pub rib_dump_url: String,
    pub as2rel: Vec<As2relEntry>,
}

/// The cumulative cross-snapshot artifact of the AS-relationship
/// processor.
#[derive(Debug)]
pub struct As2relSummaryJson {
    pub rib_dump_urls: Vec<String>,
    pub as2rel: Vec<As2relEntry>,
}

/// The association map held by a sequence of output entries: per key, the
/// occurrence count and the (possibly overcounted) observer count.
pub open spec fn a2re_map_of(s: Seq<As2relEntry>) -> Map<(u32, u32, u8), (u64, u64)>
    decreases s.len(),
{
    if s.len() == 0 {
        Map::empty()
    } else {
        a2re_map_of(s.drop_last()).insert(
            a2re_key(s.last()),
            (s.last().paths_count, s.last().peers_count),
        )
    }
}

/// No two entries share a key.
pub open spec fn a2re_unique(s: Seq<As2relEntry>) -> bool {
    forall|i: int, j: int| 0 <= i < j < s.len() ==> a2re_key(s[i]) != a2re_key(s[j])
}

pub proof fn lemma_a2re_map_of_contains(s: Seq<As2relEntry>, k: (u32, u32, u8))
    ensures
        a2re_map_of(s).contains_key(k) <==> exists|i: int| 0 <= i < s.len() && a2re_key(s[i]) == k,
    decreases s.len(),
{
    if s.len() > 0 {
        let rest = s.drop_last();
        lemma_a2re_map_of_contains(rest, k);
        if k == a2re_key(s.last()) {
            assert(a2re_key(s[s.len() - 1]) == k);
        } else {
            if a2re_map_of(s).contains_key(k) {
                let i = choose|i: int| 0 <= i < rest.len() && a2re_key(rest[i]) == k;
                assert(a2re_key(s[i]) == k);
            }
            if exists|i: int| 0 <= i < s.len() && a2re_key(s[i]) == k {
                let i = choose|i: int| 0 <= i < s.len() && a2re_key(s[i]) == k;
                assert(i < s.len() - 1);
                assert(a2re_key(rest[i]) == k);
            }
        }
    }
}

pub proof fn lemma_a2re_map_of_index(s: Seq<As2relEntry>, i: int)
    requires
        a2re_unique(s),
        0 <= i < s.len(),
    ensures
        a2re_map_of(s).contains_key(a2re_key(s[i])),
        a2re_map_of(s)[a2re_key(s[i])] == (s[i].paths_count, s[i].peers_count),
    decreases s.len(),
{
    let rest = s.drop_last();
    if i < s.len() - 1 {
        assert(a2re_unique(rest));
        lemma_a2re_map_of_index(rest, i);
        assert(a2re_key(s[i]) != a2re_key(s[s.len() - 1]));
    }
}

pub proof fn lemma_a2re_map_of_update(s: Seq<As2relEntry>, i: int, e: As2relEntry)
    requires
        a2re_unique(s),
        0 <= i < s.len(),
        a2re_key(e) == a2re_key(s[i]),
    ensures
        a2re_map_of(s.update(i, e)) =~= a2re_map_of(s).insert(
            a2re_key(e),
            (e.paths_count, e.peers_count),
        ),
    decreases s.len(),
{
    let rest = s.drop_last();
    if i == s.len() - 1 {
        assert(s.update(i, e).drop_last() =~= rest);
        assert(s.update(i, e).last() == e);
    } else {
        assert(a2re_unique(rest));
        assert(s.update(i, e).drop_last() =~= rest.update(i, e));
        lemma_a2re_map_of_update(rest, i, e);
        assert(a2re_key(s.last()) != a2re_key(e));
    }
}

/// All output entries of the readable artifacts, in artifact order.
pub open spec fn a2r_readable_entries(arts: Seq<Option<As2relCollectorJson>>) -> Seq<As2relEntry>
    decreases arts.len(),
{
    if arts.len() == 0 {
        Seq::empty()
    } else {
        a2r_readable_entries(arts.drop_last()) + match arts.last() {
            Some(d) => d.as2rel@,
            None => Seq::empty(),
        }
    }
}

/// The total occurrence count carried for key `k` by a sequence of
/// entries.
pub open spec fn a2r_sum_paths(entries: Seq<As2relEntry>, k: (u32, u32, u8)) -> nat
    decreases entries.len(),
{
    if entries.len() == 0 {
        0
    } else {
        a2r_sum_paths(entries.drop_last(), k) + if a2re_key(entries.last()) == k {
            entries.last().paths_count as nat
        } else {
            0nat
        }
    }
}

/// The total observer count carried for key `k` by a sequence of entries.
pub open spec fn a2r_sum_peers(entries: Seq<As2relEntry>, k: (u32, u32, u8)) -> nat
    decreases entries.len(),
{
    if entries.len() == 0 {
        0
    } else {
        a2r_sum_peers(entries.drop_last(), k) + if a2re_key(entries.last()) == k {
            entries.last().peers_count as nat
        } else {
            0nat
        }
    }
}

/// Whether some entry carries key `k`.
pub open spec fn a2re_has(entries: Seq<As2relEntry>, k: (u32, u32, u8)) -> bool {
    exists|i: int| 0 <= i < entries.len() && a2re_key(entries[i]) == k
}

proof fn lemma_a2r_sums_push(s: Seq<As2relEntry>, e: As2relEntry, k: (u32, u32, u8))
    ensures
        a2r_sum_paths(s.push(e), k) == a2r_sum_paths(s, k) + if a2re_key(e) == k {
            e.paths_count as nat
        } else {
            0nat
        },
        a2r_sum_peers(s.push(e), k) == a2r_sum_peers(s, k) + if a2re_key(e) == k {
            e.peers_count as nat
        } else {
            0nat
        },
        a2re_has(s.push(e), k) <==> a2re_has(s, k) || a2re_key(e) == k,
{
    assert(s.push(e).drop_last() =~= s);
    assert(s.push(e).last() == e);
    if a2re_has(s, k) {
        let i = choose|i: int| 0 <= i < s.len() && a2re_key(s[i]) == k;
        assert(a2re_key(s.push(e)[i]) == k);
    }
    if a2re_key(e) == k {
        assert(a2re_key(s.push(e)[s.len() as int]) == k);
    }
    if a2re_has(s.push(e), k) && a2re_key(e) != k {
        let i = choose|i: int| 0 <= i < s.push(e).len() && a2re_key(s.push(e)[i]) == k;
        if i < s.len() {
            assert(a2re_key(s[i]) == k);
        }
    }
}

/// No entry with key `k` means zero totals for `k`.
proof fn lemma_a2r_sums_no_key(s: Seq<As2relEntry>, k: (u32, u32, u8))
    requires
        !a2re_has(s, k),
    ensures
        a2r_sum_paths(s, k) == 0,
        a2r_sum_peers(s, k) == 0,
    decreases s.len(),
{
    if s.len() > 0 {
        assert(!a2re_has(s.drop_last(), k)) by {
            if a2re_has(s.drop_last(), k) {
                let i = choose|i: int|
                    0 <= i < s.drop_last().len() && a2re_key(s.drop_last()[i]) == k;
                assert(a2re_key(s[i]) == k);
            }
        }
        lemma_a2r_sums_no_key(s.drop_last(), k);
        assert(a2re_key(s[s.len() - 1]) != k);
    }
}

/// Find the index of the output entry with the given key, if any.
fn a2re_find(v: &Vec<As2relEntry>, asn1: u32, asn2: u32, rel: u8) -> (r: Option<usize>)
    ensures
        match r {
            Some(i) => i < v@.len() && a2re_key(v@[i as int]) == (asn1, asn2, rel),
            None => forall|j: int| 0 <= j < v@.len() ==> a2re_key(v@[j]) != (asn1, asn2, rel),
        },
{
    let mut i: usize = 0;
    while i < v.len()
        invariant
            i <= v@.len(),
            forall|j: int| 0 <= j < i ==> a2re_key(v@[j]) != (asn1, asn2, rel),
        decreases v@.len() - i,
    {
        if v[i].asn1 == asn1 && v[i].asn2 == asn2 && v[i].rel == rel {
            return Some(i);
        }
        i = i + 1;
    }
    None
}

/// Fold a flat entry sequence into one entry per key, summing both the
/// occurrence counts and the observer counts (saturating).
fn a2r_merge_entries(flat: &Vec<As2relEntry>) -> (r: Vec<As2relEntry>)
    ensures
        a2re_unique(r@),
        forall|k: (u32, u32, u8)|
            #[trigger] a2re_map_of(r@).contains_key(k) <==> a2re_has(flat@, k),
        forall|k: (u32, u32, u8)|
            a2re_map_of(r@).contains_key(k) ==> a2re_map_of(r@)[k] == (
                sat_cap(a2r_sum_paths(flat@, k)),
                sat_cap(a2r_sum_peers(flat@, k)),
            ),
{
    let mut r: Vec<As2relEntry> = Vec::new();
    let mut i: usize = 0;
    while i < flat.len()
        invariant
            i <= flat@.len(),
            a2re_unique(r@),
            forall|k: (u32, u32, u8)|
                #[trigger] a2re_map_of(r@).contains_key(k) <==> a2re_has(flat@.take(i as int), k),
            forall|k: (u32, u32, u8)|
                a2re_map_of(r@).contains_key(k) ==> a2re_map_of(r@)[k] == (
                    sat_cap(a2r_sum_paths(flat@.take(i as int), k)),
                    sat_cap(a2r_sum_peers(flat@.take(i as int), k)),
                ),
        decreases flat@.len() - i,
    {
        let e = flat[i];
        let ghost k0 = a2re_key(e);
        let ghost pre = flat@.take(i as int);
        proof {
            assert(flat@.take(i + 1) =~= pre.push(e));
            assert forall|k: (u32, u32, u8)|
                a2r_sum_paths(flat@.take(i + 1), k) == a2r_sum_paths(pre, k) + (
                if a2re_key(e) == k {
                    e.paths_count as nat
                } else {
                    0nat
                }) && a2r_sum_peers(flat@.take(i + 1), k) == a2r_sum_peers(pre, k) + (
                if a2re_key(e) == k {
                    e.peers_count as nat
                } else {
                    0nat
                }) && (a2re_has(flat@.take(i + 1), k) <==> a2re_has(pre, k) || a2re_key(e)
                == k) by {
                lemma_a2r_sums_push(pre, e, k);
            }
        }
        match a2re_find(&r, e.asn1, e.asn2, e.rel) {
            Some(idx) => {
                let cp = r[idx].paths_count;
                let newp = if cp > u64::MAX - e.paths_count {
                    u64::MAX
                } else {
                    cp + e.paths_count
                };
                let cs = r[idx].peers_count;
                let news = if cs > u64::MAX - e.peers_count {
                    u64::MAX
                } else {
                    cs + e.peers_count
                };
                let updated = As2relEntry {
                    asn1: e.asn1,
                    asn2: e.asn2,
                    paths_count: newp,
                    peers_count: news,
                    rel: e.rel,
                };
                proof {
                    lemma_a2re_map_of_index(r@, idx as int);
                    lemma_a2re_map_of_update(r@, idx as int, updated);
                }
                r[idx] = updated;
            },
            None => {
                proof {
                    lemma_a2re_map_of_contains(r@, k0);
                    lemma_a2r_sums_no_key(pre, k0);
                }
                let ghost r0 = r@;
                r.push(e);
                proof {
                    assert(r@.drop_last() =~= r0);
                }
            },
        }
        i = i + 1;
    }
    proof {
        assert(flat@.take(flat@.len() as int) =~= flat@);
    }
    r
}

/// Collect the output entries of the readable artifacts into one flat
/// sequence, or report the first unreadable artifact when none may be
/// skipped.
fn a2r_flatten(artifacts: &Vec<Option<As2relCollectorJson>>, ignore_error: bool) -> (r: Result<
    Vec<As2relEntry>,
    SummarizeError,
>)
    ensures
        match r {
            Ok(flat) => (ignore_error || forall|j: int|
                0 <= j < artifacts@.len() ==> artifacts@[j] is Some) && flat@
                == a2r_readable_entries(artifacts@),
            Err(e) => !ignore_error && e.failed_index < artifacts@.len()
                && artifacts@[e.failed_index as int] is None && forall|j: int|
                0 <= j < e.failed_index ==> artifacts@[j] is Some,
        },
{
    let mut flat: Vec<As2relEntry> = Vec::new();
    let mut i: usize = 0;
    while i < artifacts.len()
        invariant
            i <= artifacts@.len(),
            flat@ == a2r_readable_entries(artifacts@.take(i as int)),
            !ignore_error ==> forall|j: int| 0 <= j < i ==> artifacts@[j] is Some,
        decreases artifacts@.len() - i,
    {
        proof {
            assert(artifacts@.take(i + 1).drop_last() =~= artifacts@.take(i as int));
        }
        match &artifacts[i] {
            None => {
                if !ignore_error {
                    return Err(SummarizeError { failed_index: i });
                }
                proof {
                    assert(flat@ =~= a2r_readable_entries(artifacts@.take(i + 1)));
                }
            },
            Some(doc) => {
                let ghost base = flat@;
                let mut j: usize = 0;
                while j < doc.as2rel.len()
                    invariant
                        j <= doc.as2rel@.len(),
                        flat@ == base + doc.as2rel@.take(j as int),
                    decreases doc.as2rel@.len() - j,
                {
                    flat.push(doc.as2rel[j]);
                    proof {
                        assert(base + doc.as2rel@.take(j + 1) =~= (base + doc.as2rel@.take(
                            j as int,
                        )).push(doc.as2rel@[j as int]));
                    }
                    j = j + 1;
                }
                proof {
                    assert(doc.as2rel@.take(doc.as2rel@.len() as int) =~= doc.as2rel@);
                    assert(flat@ =~= a2r_readable_entries(artifacts@.take(i + 1)));
                }
            },
        }
        i = i + 1;
    }
    proof {
        assert(artifacts@.take(artifacts@.len() as int) =~= artifacts@);
    }
    Ok(flat)
}

impl As2relProcessor {
    /// Merge the readable per-snapshot artifacts into one cumulative
    /// result: per key, both the occurrence count and the observer count
    /// are summed (saturating).  Observer counts are summed, not re-
    /// deduplicated, preserving the known overcounting limitation.
    ///
    /// When `ignore_error` is set an unreadable artifact is skipped;
    /// otherwise the first unreadable artifact aborts the whole call and
    /// its index is reported.
    pub fn summarize_latest(
        &self,
        artifacts: &Vec<Option<As2relCollectorJson>>,
        rib_dump_urls: Vec<String>,
        ignore_error: bool,
    ) -> (r: Result<As2relSummaryJson, SummarizeError>)
        ensures
            r is Ok <==> (ignore_error || forall|j: int|
                0 <= j < artifacts@.len() ==> artifacts@[j] is Some),
            match r {
                Ok(summary) => {
                    &&& summary.rib_dump_urls == rib_dump_urls
                    &&& a2re_unique(summary.as2rel@)
                    &&& forall|k: (u32, u32, u8)|
                        #[trigger] a2re_map_of(summary.as2rel@).contains_key(k) <==> a2re_has(
                            a2r_readable_entries(artifacts@),
                            k,
                        )
                    &&& forall|k: (u32, u32, u8)|
                        a2re_map_of(summary.as2rel@).contains_key(k) ==> a2re_map_of(
                            summary.as2rel@,
                        )[k] == (
                            sat_cap(a2r_sum_paths(a2r_readable_entries(artifacts@), k)),
                            sat_cap(a2r_sum_peers(a2r_readable_entries(artifacts@), k)),
                        )
                },
                Err(e) => {
                    &&& !ignore_error
                    &&& e.failed_index < artifacts@.len()
                    &&& artifacts@[e.failed_index as int] is None
                    &&& forall|j: int| 0 <= j < e.failed_index ==> artifacts@[j] is Some
                },
            },
    {
        let flat = match a2r_flatten(artifacts, ignore_error) {
            Ok(flat) => flat,
            Err(e) => {
                return Err(e);
            },
        };
        let merged = a2r_merge_entries(&flat);
        Ok(As2relSummaryJson { rib_dump_urls, as2rel: merged })
    }
}


/// The occurrences of the ordered pair (a, b) among the first `n`
/// adjacent pairs of a path.
pub open spec fn a2r_pair_count_upto(path: Seq<u32>, n: int, a: u32, b: u32) -> nat
    decreases n,
{
    if n <= 0 {
        0
    } else {
        a2r_pair_count_upto(path, n - 1, a, b) + if path[n - 1] == a && path[n] == b {
            1nat
        } else {
            0nat
        }
    }
}

/// The occurrences of the ordered pair (a, b) among all adjacent pairs of
/// a path.
pub open spec fn a2r_pair_count(path: Seq<u32>, a: u32, b: u32) -> nat {
    a2r_pair_count_upto(path, path.len() - 1, a, b)
}

proof fn lemma_code0_upto_effect(
    m: Map<(u32, u32, u8), (u64, Set<IpAddress>)>,
    path: Seq<u32>,
    n: int,
    peer: IpAddress,
    a: u32,
    b: u32,
)
    requires
        n < path.len(),
    ensures
        forall|k: (u32, u32, u8)|
            k.2 != 0 ==> (#[trigger] a2r_code0_upto(m, path, n, peer).contains_key(k)
                <==> m.contains_key(k)),
        forall|k: (u32, u32, u8)|
            k.2 != 0 && m.contains_key(k) ==> #[trigger] a2r_code0_upto(m, path, n, peer)[k]
                == m[k],
        a2r_val(m, (a, b, 0u8)).0 + a2r_pair_count_upto(path, n, a, b) <= u64::MAX ==> a2r_val(
            a2r_code0_upto(m, path, n, peer),
            (a, b, 0u8),
        ).0 == a2r_val(m, (a, b, 0u8)).0 + a2r_pair_count_upto(path, n, a, b),
    decreases n,
{
    if n > 0 {
        lemma_code0_upto_effect(m, path, n - 1, peer, a, b);
        let m1 = a2r_code0_upto(m, path, n - 1, peer);
        let kt = (path[n - 1], path[n], 0u8);
        assert(a2r_code0_upto(m, path, n, peer) == a2r_touch(m1, kt, peer));
        assert forall|k: (u32, u32, u8)| k.2 != 0 implies (#[trigger] a2r_code0_upto(
            m,
            path,
            n,
            peer,
        ).contains_key(k) <==> m.contains_key(k)) by {
            assert(k != kt);
        }
        assert forall|k: (u32, u32, u8)| k.2 != 0 && m.contains_key(k) implies #[trigger] a2r_code0_upto(
            m,
            path,
            n,
            peer,
        )[k] == m[k] by {
            assert(k != kt);
        }
    }
}

/// A qualifying message whose collapsed path holds no Tier-1 AS number
/// yields only code-0 evidence: every key with a non-zero relationship
/// code is left untouched, and the code-0 entry of each ordered adjacent
/// pair (a, b) — exactly as observed, so (a, b, 0) and (b, a, 0) are
/// distinct keys — gains one occurrence per appearance of that pair in
/// the path.
pub proof fn lemma_no_tier1_yields_code0_only(
    m: Map<(u32, u32, u8), (u64, Set<IpAddress>)>,
    e: RoutingElement,
    a: u32,
    b: u32,
)
    requires
        a2r_qualifies(e),
        !has_tier1(collapse(e.path()->Some_0)),
    ensures
        forall|k: (u32, u32, u8)|
            k.2 != 0 ==> (#[trigger] a2r_step(m, e).contains_key(k) <==> m.contains_key(k)),
        forall|k: (u32, u32, u8)|
            k.2 != 0 && m.contains_key(k) ==> #[trigger] a2r_step(m, e)[k] == m[k],
        a2r_val(m, (a, b, 0u8)).0 + a2r_pair_count(collapse(e.path()->Some_0), a, b) <= u64::MAX
            ==> a2r_val(a2r_step(m, e), (a, b, 0u8)).0 == a2r_val(m, (a, b, 0u8)).0
            + a2r_pair_count(collapse(e.path()->Some_0), a, b),
{
    let path = collapse(e.path()->Some_0);
    crate::elem::lemma_collapse_endpoints(e.path()->Some_0);
    lemma_code0_upto_effect(m, path, path.len() - 1, e.peer_ip, a, b);
}


impl As2relProcessor {
    /// The stable name of this processor.
    pub fn name(&self) -> (r: String)
        ensures
            r@ == self.spec_processor_meta()@.name,
    {
        self.processor_meta.name.clone()
    }

    /// The archival and "latest" output locations for the snapshot this
    /// processor was reset with: the archival one is timestamped, the
    /// "latest" one is overwritten every run.
    pub fn output_paths(&self) -> (r: Option<Vec<String>>)
        requires
            self.spec_rib_meta() is Some,
        ensures
            r matches Some(v) && v@.len() == 2 && v@[0]@ == archive_path_spec(
                self.spec_processor_meta()@,
                self.spec_rib_meta()->Some_0@,
            ) && v@[1]@ == latest_path_spec(
                self.spec_processor_meta()@,
                self.spec_rib_meta()->Some_0@,
            ),
    {
        match &self.rib_meta {
            Some(m) => Some(
                vec![
                    get_output_path(m, &self.processor_meta),
                    get_latest_output_path(m, &self.processor_meta),
                ],
            ),
            None => None,
        }
    }

    /// The per-snapshot result document: the snapshot identity and the
    /// current as2rel entries.
    pub fn to_result(&self) -> (r: Option<As2relCollectorJson>)
        requires
            self.spec_rib_meta() is Some,
            self.wf(),
        ensures
            r matches Some(doc) && doc.project@ == self.spec_rib_meta()->Some_0@.project
                && doc.collector@ == self.spec_rib_meta()->Some_0@.collector && doc.rib_dump_url@
                == self.spec_rib_meta()->Some_0@.rib_dump_url && doc.as2rel@.len() == self.spec_records().len() && (forall|i: int| 0 <= i < doc.as2rel@.len() ==> doc.as2rel@[i] == a2r_entry_of(self.spec_records()[i])),
    {
        match &self.rib_meta {
            Some(m) => Some(
                As2relCollectorJson {
                    project: m.project.clone(),
                    collector: m.collector.clone(),
                    rib_dump_url: m.rib_dump_url.clone(),
                    as2rel: self.get_count_vec(),
                },
            ),
            None => None,
        }
    }
}


impl As2relProcessor {
    /// Whether this processor reports its "latest" output target as
    /// already holding output for the forthcoming snapshot.
    pub fn output_exists(&self) -> (r: bool)
        ensures
            r == self.latest_output_exists(),
    {
        self.latest_exists
    }
}


impl As2relProcessor {
    /// The processor's own meta: name and output root.
    pub fn processor_meta(&self) -> (r: ProcessorMeta)
        ensures
            r@ == self.spec_processor_meta()@,
    {
        self.processor_meta.clone()
    }

    /// Whether a snapshot meta has been stored by a reset.
    pub fn has_rib_meta(&self) -> (r: bool)
        ensures
            r == (self.spec_rib_meta() is Some),
    {
        match &self.rib_meta {
            Some(_) => true,
            None => false,
        }
    }
}


proof fn lemma_code0_upto_monotone(
    m: Map<(u32, u32, u8), (u64, Set<IpAddress>)>,
    path: Seq<u32>,
    n: int,
    peer: IpAddress,
    k: (u32, u32, u8),
)
    ensures
        a2r_val(a2r_code0_upto(m, path, n, peer), k).0 >= a2r_val(m, k).0,
        a2r_val(m, k).1.subset_of(a2r_val(a2r_code0_upto(m, path, n, peer), k).1),
    decreases n,
{
    if n > 0 {
        lemma_code0_upto_monotone(m, path, n - 1, peer, k);
    }
}

proof fn lemma_code1_upto_monotone(
    m: Map<(u32, u32, u8), (u64, Set<IpAddress>)>,
    rev: Seq<u32>,
    n: int,
    peer: IpAddress,
    k: (u32, u32, u8),
)
    ensures
        a2r_val(a2r_code1_upto(m, rev, n, peer), k).0 >= a2r_val(m, k).0,
        a2r_val(m, k).1.subset_of(a2r_val(a2r_code1_upto(m, rev, n, peer), k).1),
    decreases n,
{
    if n > 0 {
        lemma_code1_upto_monotone(m, rev, n - 1, peer, k);
    }
}

/// Within one pass an evidence entry's occurrence count only ever
/// increases and its observer set only ever grows.
pub proof fn lemma_a2r_step_monotone(
    m: Map<(u32, u32, u8), (u64, Set<IpAddress>)>,
    e: RoutingElement,
    k: (u32, u32, u8),
)
    ensures
        a2r_val(a2r_step(m, e), k).0 >= a2r_val(m, k).0,
        a2r_val(m, k).1.subset_of(a2r_val(a2r_step(m, e), k).1),
{
    if a2r_qualifies(e) {
        let path = collapse(e.path()->Some_0);
        let m0 = a2r_code0_upto(m, path, path.len() - 1, e.peer_ip);
        lemma_code0_upto_monotone(m, path, path.len() - 1, e.peer_ip, k);
        if has_tier1(path) {
            let rev = path.reverse();
            lemma_code1_upto_monotone(m0, rev, first_tier1_idx(rev) - 1, e.peer_ip, k);
        }
    }
}

} // verus!

//! Peer-statistics processor.
//!
//! Keeps, per observing collector peer, basic counting information: the
//! peer's AS number (from its first sighting), the sets of observed IPv4
//! and IPv6 networks, the set of adjacent AS numbers (the first hop of a
//! usable path), and whether the peer announced a default route of either
//! family.  Every element — announce or withdraw — creates the peer record
//! when absent, so a withdraw-only peer still appears with zero counts;
//! only announce elements update the sets and flags.
//!
//! The merge rule across snapshots is last-snapshot-wins per peer IP: a
//! later snapshot's record replaces an earlier one outright, unlike the
//! additive merges of the other processors — an asymmetry of the design
//! that is preserved as specified.

use vstd::prelude::*;

use crate::elem::{ElemType, IpAddress, Network, RoutingElement};
use crate::processors::meta::{
    archive_path_spec, get_latest_output_path, get_output_path, latest_path_spec, ProcessorMeta,
    RibMeta,
};
use crate::processors::{lemma_push_no_duplicates, lemma_push_to_set, SummarizeError};

verus! {

/// The per-peer counting record.
#[derive(Debug)]
pub struct PeerInfo {
    /// The collector this peer belongs to, when known.
    pub collector: Option<String>,
    /// The IP address of the peer.
    pub ip: IpAddress,
    /// The AS number of the peer, from its first sighting.
    pub asn: u32,
    /// The observed IPv4 networks (no duplicates).
    pub ipv4_pfxs: Vec<Network>,
    /// The observed IPv6 networks (no duplicates).
    pub ipv6_pfxs: Vec<Network>,
    /// The adjacent AS numbers observed as first hops (no duplicates).
    pub num_connected_asns: Vec<u32>,
    /// Whether the peer announced the IPv4 default route.
    pub ipv4_default: bool,
    /// Whether the peer announced the IPv6 default route.
    pub ipv6_default: bool,
}

/// The mathematical value of a peer record.
#[verifier::ext_equal]
pub struct PeerView {
    pub collector: Option<Seq<char>>,
    pub asn: u32,
    pub ipv4_pfxs: Set<Network>,
    pub ipv6_pfxs: Set<Network>,
    pub connected: Set<u32>,
    pub ipv4_default: bool,
    pub ipv6_default: bool,
}

/// The spec value of an optional string.
pub open spec fn opt_str_view(s: Option<String>) -> Option<Seq<char>> {
    match s {
        Some(c) => Some(c@),
        None => None,
    }
}

impl View for PeerInfo {
    type V = PeerView;

    open spec fn view(&self) -> PeerView {
        PeerView {
            collector: opt_str_view(self.collector),
            asn: self.asn,
            ipv4_pfxs: self.ipv4_pfxs@.to_set(),
            ipv6_pfxs: self.ipv6_pfxs@.to_set(),
            connected: self.num_connected_asns@.to_set(),
            ipv4_default: self.ipv4_default,
            ipv6_default: self.ipv6_default,
        }
    }
}

/// A well-formed peer record: the network and AS lists hold no
/// duplicates, and each network list holds its own family only.
pub open spec fn ps_rec_wf(p: PeerInfo) -> bool {
    &&& p.ipv4_pfxs@.no_duplicates()
    &&& p.ipv6_pfxs@.no_duplicates()
    &&& p.num_connected_asns@.no_duplicates()
    &&& forall|i: int| 0 <= i < p.ipv4_pfxs@.len() ==> (#[trigger] p.ipv4_pfxs@[i]).spec_is_v4()
    &&& forall|i: int| 0 <= i < p.ipv6_pfxs@.len() ==> !(#[trigger] p.ipv6_pfxs@[i]).spec_is_v4()
}

/// The association map held by a sequence of peer records.
pub open spec fn ps_map_of(s: Seq<PeerInfo>) -> Map<IpAddress, PeerView>
    decreases s.len(),
{
    if s.len() == 0 {
        Map::empty()
    } else {
        ps_map_of(s.drop_last()).insert(s.last().ip, s.last()@)
    }
}

/// No two records share a peer IP, and every record is well formed.
pub open spec fn ps_wf_seq(s: Seq<PeerInfo>) -> bool {
    &&& forall|i: int, j: int| 0 <= i < j < s.len() ==> (#[trigger] s[i]).ip != (#[trigger] s[j]).ip
    &&& forall|i: int| 0 <= i < s.len() ==> ps_rec_wf(#[trigger] s[i])
}

pub proof fn lemma_ps_map_of_contains(s: Seq<PeerInfo>, ip: IpAddress)
    ensures
        ps_map_of(s).contains_key(ip) <==> exists|i: int| 0 <= i < s.len() && (#[trigger] s[i]).ip
            == ip,
    decreases s.len(),
{
    if s.len() > 0 {
        let rest = s.drop_last();
        lemma_ps_map_of_contains(rest, ip);
        if ip == s.last().ip {
            assert(s[s.len() - 1].ip == ip);
        } else {
            if ps_map_of(s).contains_key(ip) {
                let i = choose|i: int| 0 <= i < rest.len() && (#[trigger] rest[i]).ip == ip;
                assert(s[i].ip == ip);
            }
            if exists|i: int| 0 <= i < s.len() && (#[trigger] s[i]).ip == ip {
                let i = choose|i: int| 0 <= i < s.len() && (#[trigger] s[i]).ip == ip;
                assert(i < s.len() - 1);
                assert(rest[i].ip == ip);
            }
        }
    }
}

pub proof fn lemma_ps_map_of_index(s: Seq<PeerInfo>, i: int)
    requires
        ps_wf_seq(s),
        0 <= i < s.len(),
    ensures
        ps_map_of(s).contains_key(s[i].ip),
        ps_map_of(s)[s[i].ip] == s[i]@,
    decreases s.len(),
{
    let rest = s.drop_last();
    if i < s.len() - 1 {
        assert(ps_wf_seq(rest));
        lemma_ps_map_of_index(rest, i);
        assert(s[i].ip != s[s.len() - 1].ip);
    }
}

pub proof fn lemma_ps_map_of_update(s: Seq<PeerInfo>, i: int, e: PeerInfo)
    requires
        ps_wf_seq(s),
        0 <= i < s.len(),
        e.ip == s[i].ip,
    ensures
        ps_map_of(s.update(i, e)) =~= ps_map_of(s).insert(e.ip, e@),
    decreases s.len(),
{
    let rest = s.drop_last();
    if i == s.len() - 1 {
        assert(s.update(i, e).drop_last() =~= rest);
        assert(s.update(i, e).last() == e);
    } else {
        assert(ps_wf_seq(rest));
        assert(s.update(i, e).drop_last() =~= rest.update(i, e));
        lemma_ps_map_of_update(rest, i, e);
        assert(s.last().ip != e.ip);
    }
}

/// A fresh peer record's value: the given identity, empty sets, no flags.
pub open spec fn ps_fresh(asn: u32, collector: Option<Seq<char>>) -> PeerView {
    PeerView {
        collector,
        asn,
        ipv4_pfxs: Set::empty(),
        ipv6_pfxs: Set::empty(),
        connected: Set::empty(),
        ipv4_default: false,
        ipv6_default: false,
    }
}

/// How one element transforms the peer map, given the collector name the
/// processor was reset with.  The record is created when absent — also for
/// a withdraw — and only an announce updates sets and flags.
pub open spec fn ps_step(
    m: Map<IpAddress, PeerView>,
    e: RoutingElement,
    collector: Option<Seq<char>>,
) -> Map<IpAddress, PeerView> {
    let base = if m.contains_key(e.peer_ip) {
        m[e.peer_ip]
    } else {
        ps_fresh(e.peer_asn, collector)
    };
    if !(e.elem_type is Announce) {
        m.insert(e.peer_ip, base)
    } else {
        let with_adj = if e.has_path() {
            PeerView { connected: base.connected.insert(e.path()->Some_0.first()), ..base }
        } else {
            base
        };
        let updated = if e.prefix.spec_is_v4() {
            PeerView {
                ipv4_pfxs: with_adj.ipv4_pfxs.insert(e.prefix),
                ipv4_default: with_adj.ipv4_default || e.prefix.spec_is_default(),
                ..with_adj
            }
        } else {
            PeerView {
                ipv6_pfxs: with_adj.ipv6_pfxs.insert(e.prefix),
                ipv6_default: with_adj.ipv6_default || e.prefix.spec_is_default(),
                ..with_adj
            }
        };
        m.insert(e.peer_ip, updated)
    }
}

/// How a whole element sequence transforms the peer map.
pub open spec fn ps_run(
    m: Map<IpAddress, PeerView>,
    elems: Seq<RoutingElement>,
    collector: Option<Seq<char>>,
) -> Map<IpAddress, PeerView>
    decreases elems.len(),
{
    if elems.len() == 0 {
        m
    } else {
        ps_step(ps_run(m, elems.drop_last(), collector), elems.last(), collector)
    }
}

/// Find the index of the record with the given peer IP, if any.
fn ps_find(v: &Vec<PeerInfo>, ip: IpAddress) -> (r: Option<usize>)
    ensures
        match r {
            Some(i) => i < v@.len() && v@[i as int].ip == ip,
            None => forall|j: int| 0 <= j < v@.len() ==> (#[trigger] v@[j]).ip != ip,
        },
{
    let mut i: usize = 0;
    while i < v.len()
        invariant
            i <= v@.len(),
            forall|j: int| 0 <= j < i ==> (#[trigger] v@[j]).ip != ip,
        decreases v@.len() - i,
    {
        if v[i].ip == ip {
            return Some(i);
        }
        i = i + 1;
    }
    None
}

/// Whether a network list contains a network.
fn nets_contain(v: &Vec<Network>, x: Network) -> (r: bool)
    ensures
        r <==> v@.contains(x),
{
    let mut i: usize = 0;
    while i < v.len()
        invariant
            i <= v@.len(),
            forall|j: int| 0 <= j < i ==> v@[j] != x,
        decreases v@.len() - i,
    {
        if v[i] == x {
            assert(v@[i as int] == x);
            return true;
        }
        i = i + 1;
    }
    assert(!v@.contains(x));
    false
}

/// Whether an AS-number list contains a number.
fn asns_contain(v: &Vec<u32>, x: u32) -> (r: bool)
    ensures
        r <==> v@.contains(x),
{
    let mut i: usize = 0;
    while i < v.len()
        invariant
            i <= v@.len(),
            forall|j: int| 0 <= j < i ==> v@[j] != x,
        decreases v@.len() - i,
    {
        if v[i] == x {
            assert(v@[i as int] == x);
            return true;
        }
        i = i + 1;
    }
    assert(!v@.contains(x));
    false
}

impl PeerInfo {
    /// A fresh record for a newly sighted peer: empty sets, no flags.
    pub fn new_from_ip(ip: IpAddress, asn: u32, collector: Option<String>) -> (r: PeerInfo)
        ensures
            r@ == ps_fresh(asn, opt_str_view(collector)),
            r.ip == ip,
            ps_rec_wf(r),
    {
        let r = PeerInfo {
            collector,
            ip,
            asn,
            ipv4_pfxs: Vec::new(),
            ipv6_pfxs: Vec::new(),
            num_connected_asns: Vec::new(),
            ipv4_default: false,
            ipv6_default: false,
        };
        proof {
            assert(r.ipv4_pfxs@.to_set() =~= Set::<Network>::empty());
            assert(r.ipv6_pfxs@.to_set() =~= Set::<Network>::empty());
            assert(r.num_connected_asns@.to_set() =~= Set::<u32>::empty());
        }
        r
    }
}

/// The peer-statistics processor.
#[derive(Debug)]
pub struct PeerStatsProcessor {
    rib_meta: Option<RibMeta>,
    processor_meta: ProcessorMeta,
    peer_info_map: Vec<PeerInfo>,
    latest_exists: bool,
}

impl View for PeerStatsProcessor {
    type V = Map<IpAddress, PeerView>;

    closed spec fn view(&self) -> Map<IpAddress, PeerView> {
        ps_map_of(self.peer_info_map@)
    }
}

impl PeerStatsProcessor {
    pub closed spec fn wf(&self) -> bool {
        ps_wf_seq(self.peer_info_map@)
    }

    pub closed spec fn spec_rib_meta(&self) -> Option<RibMeta> {
        self.rib_meta
    }

    pub closed spec fn spec_processor_meta(&self) -> ProcessorMeta {
        self.processor_meta
    }

    pub closed spec fn spec_records(&self) -> Seq<PeerInfo> {
        self.peer_info_map@
    }

    pub closed spec fn latest_output_exists(&self) -> bool {
        self.latest_exists
    }

    /// The collector name handed to freshly created peer records.
    pub open spec fn spec_collector(&self) -> Option<Seq<char>> {
        match self.spec_rib_meta() {
            Some(m) => Some(m@.collector),
            None => None,
        }
    }

    pub fn new(output_dir: &str) -> (r: PeerStatsProcessor)
        ensures
            r.wf(),
            r@ =~= Map::<IpAddress, PeerView>::empty(),
            r.spec_rib_meta() is None,
            r.spec_processor_meta()@.name == "peer-stats"@,
            r.spec_processor_meta()@.output_dir == output_dir@,
            !r.latest_output_exists(),
    {
        let processor_meta = ProcessorMeta {
            name: String::from_str("peer-stats"),
            output_dir: String::from_str(output_dir),
        };
        PeerStatsProcessor {
            rib_meta: None,
            processor_meta,
            peer_info_map: Vec::new(),
            latest_exists: false,
        }
    }

    /// Record that the "latest" output target for the forthcoming snapshot
    /// already holds output, so a coordinator registers this processor as
    /// skipped.
    pub fn mark_latest_exists(&mut self)
        ensures
            final(self).latest_output_exists(),
            final(self)@ == old(self)@,
            final(self).wf() == old(self).wf(),
            final(self).spec_records() == old(self).spec_records(),
            final(self).spec_rib_meta() == old(self).spec_rib_meta(),
            final(self).spec_processor_meta() == old(self).spec_processor_meta(),
    {
        self.latest_exists = true;
    }

    /// Discard all prior aggregation state and store the snapshot meta.
    pub fn reset_processor(&mut self, rib_meta: &RibMeta)
        ensures
            final(self).wf(),
            final(self)@ =~= Map::<IpAddress, PeerView>::empty(),
            final(self).spec_rib_meta() matches Some(m) && m@ == rib_meta@,
            final(self).spec_processor_meta() == old(self).spec_processor_meta(),
            final(self).latest_output_exists() == old(self).latest_output_exists(),
    {
        self.rib_meta = Some(rib_meta.clone());
        self.peer_info_map = Vec::new();
    }

    /// Process one element: create the peer's record when absent (also for
    /// a withdraw), and on an announce update the adjacency set, the
    /// network set of the family, and the default-route flag.
    pub fn process_entry(&mut self, elem: &RoutingElement)
        requires
            old(self).wf(),
        ensures
            final(self).wf(),
            final(self)@ =~= ps_step(old(self)@, *elem, old(self).spec_collector()),
            final(self).spec_rib_meta() == old(self).spec_rib_meta(),
            final(self).spec_processor_meta() == old(self).spec_processor_meta(),
            final(self).latest_output_exists() == old(self).latest_output_exists(),
    {
        let collector: Option<String> = match &self.rib_meta {
            Some(r) => Some(r.collector.clone()),
            None => None,
        };
        let found = ps_find(&self.peer_info_map, elem.peer_ip);
        let mut rec: PeerInfo;
        match found {
            Some(i) => {
                proof {
                    lemma_ps_map_of_index(self.peer_info_map@, i as int);
                }
                rec = self.peer_info_map.remove(i);
            },
            None => {
                proof {
                    lemma_ps_map_of_contains(self.peer_info_map@, elem.peer_ip);
                }
                rec = PeerInfo::new_from_ip(elem.peer_ip, elem.peer_asn, collector);
            },
        }
        let ghost base = rec@;

        if matches!(elem.elem_type, ElemType::Announce) {
            match &elem.as_path {
                Some(path) => {
                    if path.len() > 0 {
                        let hop = path[0];
                        if !asns_contain(&rec.num_connected_asns, hop) {
                            proof {
                                lemma_push_no_duplicates(rec.num_connected_asns@, hop);
                                lemma_push_to_set(rec.num_connected_asns@, hop);
                            }
                            rec.num_connected_asns.push(hop);
                        } else {
                            proof {
                                assert(rec.num_connected_asns@.to_set().insert(hop)
                                    =~= rec.num_connected_asns@.to_set());
                            }
                        }
                    }
                },
                None => {},
            }
            let ghost with_adj = rec@;
            proof {
                assert(with_adj == if elem.has_path() {
                    PeerView { connected: base.connected.insert(elem.path()->Some_0.first()), ..base }
                } else {
                    base
                });
            }
            let prefix = elem.prefix;
            if prefix.is_v4() {
                if prefix.is_default() {
                    rec.ipv4_default = true;
                }
                if !nets_contain(&rec.ipv4_pfxs, prefix) {
                    proof {
                        lemma_push_no_duplicates(rec.ipv4_pfxs@, prefix);
                        lemma_push_to_set(rec.ipv4_pfxs@, prefix);
                    }
                    rec.ipv4_pfxs.push(prefix);
                } else {
                    proof {
                        assert(rec.ipv4_pfxs@.to_set().insert(prefix) =~= rec.ipv4_pfxs@.to_set());
                    }
                }
            } else {
                if prefix.is_default() {
                    rec.ipv6_default = true;
                }
                if !nets_contain(&rec.ipv6_pfxs, prefix) {
                    proof {
                        lemma_push_no_duplicates(rec.ipv6_pfxs@, prefix);
                        lemma_push_to_set(rec.ipv6_pfxs@, prefix);
                    }
                    rec.ipv6_pfxs.push(prefix);
                } else {
                    proof {
                        assert(rec.ipv6_pfxs@.to_set().insert(prefix) =~= rec.ipv6_pfxs@.to_set());
                    }
                }
            }
        }

        match found {
            Some(i) => {
                proof {
                    lemma_ps_map_of_update(old(self).peer_info_map@, i as int, rec);
                }
                self.peer_info_map.insert(i, rec);
                proof {
                    assert(old(self).peer_info_map@.remove(i as int).insert(i as int, rec)
                        =~= old(self).peer_info_map@.update(i as int, rec));
                }
            },
            None => {
                self.peer_info_map.push(rec);
                proof {
                    assert(self.peer_info_map@.drop_last() =~= old(self).peer_info_map@);
                }
            },
        }
    }
}


/// One output record per peer: set cardinalities, not the sets.
#[derive(Debug)]
pub struct PeerInfoEntry {
    pub ip: IpAddress,
    pub collector: Option<String>,
    pub asn: u32,
    pub num_v4_pfxs: u64,
    pub num_v6_pfxs: u64,
    pub num_connected_asns: u64,
    pub has_v4_default: bool,
    pub has_v6_default: bool,
}

/// The mathematical value of a peer output record.
#[verifier::ext_equal]
pub struct PeerEntryView {
    pub ip: IpAddress,
    pub collector: Option<Seq<char>>,
    pub asn: u32,
    pub num_v4_pfxs: u64,
    pub num_v6_pfxs: u64,
    pub num_connected_asns: u64,
    pub has_v4_default: bool,
    pub has_v6_default: bool,
}

impl View for PeerInfoEntry {
    type V = PeerEntryView;

    open spec fn view(&self) -> PeerEntryView {
        PeerEntryView {
            ip: self.ip,
            collector: opt_str_view(self.collector),
            asn: self.asn,
            num_v4_pfxs: self.num_v4_pfxs,
            num_v6_pfxs: self.num_v6_pfxs,
            num_connected_asns: self.num_connected_asns,
            has_v4_default: self.has_v4_default,
            has_v6_default: self.has_v6_default,
        }
    }
}

impl Clone for PeerInfoEntry {
    fn clone(&self) -> (r: Self)
        ensures
            r@ == self@,
    {
        PeerInfoEntry {
            ip: self.ip,
            collector: match &self.collector {
                Some(c) => Some(c.clone()),
                None => None,
            },
            asn: self.asn,
            num_v4_pfxs: self.num_v4_pfxs,
            num_v6_pfxs: self.num_v6_pfxs,
            num_connected_asns: self.num_connected_asns,
            has_v4_default: self.has_v4_default,
            has_v6_default: self.has_v6_default,
        }
    }
}

/// The output record of a peer record: each set becomes its cardinality.
pub open spec fn ps_entry_view_of(p: PeerInfo) -> PeerEntryView {
    PeerEntryView {
        ip: p.ip,
        collector: opt_str_view(p.collector),
        asn: p.asn,
        num_v4_pfxs: p.ipv4_pfxs@.to_set().len() as u64,
        num_v6_pfxs: p.ipv6_pfxs@.to_set().len() as u64,
        num_connected_asns: p.num_connected_asns@.to_set().len() as u64,
        has_v4_default: p.ipv4_default,
        has_v6_default: p.ipv6_default,
    }
}

impl PeerInfoEntry {
    /// The output record of one peer record.
    pub fn from_info(info: &PeerInfo) -> (r: PeerInfoEntry)
        requires
            ps_rec_wf(*info),
        ensures
            r@ == ps_entry_view_of(*info),
    {
        proof {
            info.ipv4_pfxs@.unique_seq_to_set();
            info.ipv6_pfxs@.unique_seq_to_set();
            info.num_connected_asns@.unique_seq_to_set();
        }
        PeerInfoEntry {
            ip: info.ip,
            collector: match &info.collector {
                Some(c) => Some(c.clone()),
                None => None,
            },
            asn: info.asn,
            num_v4_pfxs: info.ipv4_pfxs.len() as u64,
            num_v6_pfxs: info.ipv6_pfxs.len() as u64,
            num_connected_asns: info.num_connected_asns.len() as u64,
            has_v4_default: info.ipv4_default,
            has_v6_default: info.ipv6_default,
        }
    }
}

impl PeerStatsProcessor {
    /// The current per-peer output records, one per peer, in no
    /// significant order.
    pub fn get_peer_entries(&self) -> (r: Vec<PeerInfoEntry>)
        requires
            self.wf(),
        ensures
            r@.len() == self.spec_records().len(),
            forall|i: int|
                0 <= i < r@.len() ==> (#[trigger] r@[i])@ == ps_entry_view_of(
                    self.spec_records()[i],
                ),
    {
        let mut r: Vec<PeerInfoEntry> = Vec::new();
        let mut i: usize = 0;
        while i < self.peer_info_map.len()
            invariant
                self.wf(),
                i <= self.peer_info_map@.len(),
                r@.len() == i,
                forall|j: int|
                    0 <= j < i ==> (#[trigger] r@[j])@ == ps_entry_view_of(self.peer_info_map@[j]),
            decreases self.peer_info_map@.len() - i,
        {
            let entry = PeerInfoEntry::from_info(&self.peer_info_map[i]);
            r.push(entry);
            i = i + 1;
        }
        r
    }
}

/// The archival per-snapshot artifact of the peer-statistics processor.
#[derive(Debug)]
pub struct PeerInfoCollectorJson {
    pub project: String,
    pub collector: String,
    pub rib_dump_url: String,
    pub peers: Vec<PeerInfoEntry>,
}

/// The cumulative cross-snapshot artifact of the peer-statistics
/// processor.
#[derive(Debug)]
pub struct PeerInfoSummaryJson {
    pub rib_dump_urls: Vec<String>,
    pub peers: Vec<PeerInfoEntry>,
}

/// The values of a sequence of peer output records.
pub open spec fn pse_views(s: Seq<PeerInfoEntry>) -> Seq<PeerEntryView> {
    s.map_values(|e: PeerInfoEntry| e@)
}

/// The association map held by a sequence of peer output values: a later
/// record for the same peer IP replaces an earlier one outright.
pub open spec fn psev_map_of(s: Seq<PeerEntryView>) -> Map<IpAddress, PeerEntryView>
    decreases s.len(),
{
    if s.len() == 0 {
        Map::empty()
    } else {
        psev_map_of(s.drop_last()).insert(s.last().ip, s.last())
    }
}

/// No two output values share a peer IP.
pub open spec fn psev_unique(s: Seq<PeerEntryView>) -> bool {
    forall|i: int, j: int| 0 <= i < j < s.len() ==> (#[trigger] s[i]).ip != (#[trigger] s[j]).ip
}

pub proof fn lemma_psev_map_of_contains(s: Seq<PeerEntryView>, ip: IpAddress)
    ensures
        psev_map_of(s).contains_key(ip) <==> exists|i: int|
            0 <= i < s.len() && (#[trigger] s[i]).ip == ip,
    decreases s.len(),
{
    if s.len() > 0 {
        let rest = s.drop_last();
        lemma_psev_map_of_contains(rest, ip);
        if ip == s.last().ip {
            assert(s[s.len() - 1].ip == ip);
        } else {
            if psev_map_of(s).contains_key(ip) {
                let i = choose|i: int| 0 <= i < rest.len() && (#[trigger] rest[i]).ip == ip;
                assert(s[i].ip == ip);
            }
            if exists|i: int| 0 <= i < s.len() && (#[trigger] s[i]).ip == ip {
                let i = choose|i: int| 0 <= i < s.len() && (#[trigger] s[i]).ip == ip;
                assert(i < s.len() - 1);
                assert(rest[i].ip == ip);
            }
        }
    }
}

pub proof fn lemma_psev_map_of_update(s: Seq<PeerEntryView>, i: int, e: PeerEntryView)
    requires
        psev_unique(s),
        0 <= i < s.len(),
        e.ip == s[i].ip,
    ensures
        psev_map_of(s.update(i, e)) =~= psev_map_of(s).insert(e.ip, e),
    decreases s.len(),
{
    let rest = s.drop_last();
    if i == s.len() - 1 {
        assert(s.update(i, e).drop_last() =~= rest);
        assert(s.update(i, e).last() == e);
    } else {
        assert(psev_unique(rest));
        assert(s.update(i, e).drop_last() =~= rest.update(i, e));
        lemma_psev_map_of_update(rest, i, e);
        assert(s.last().ip != e.ip);
    }
}

proof fn lemma_pse_views_push(s: Seq<PeerInfoEntry>, e: PeerInfoEntry)
    ensures
        pse_views(s.push(e)) =~= pse_views(s).push(e@),
{
}

/// All peer output values of the readable artifacts, in artifact order.
pub open spec fn ps_readable_views(arts: Seq<Option<PeerInfoCollectorJson>>) -> Seq<PeerEntryView>
    decreases arts.len(),
{
    if arts.len() == 0 {
        Seq::empty()
    } else {
        ps_readable_views(arts.drop_last()) + match arts.last() {
            Some(d) => pse_views(d.peers@),
            None => Seq::empty(),
        }
    }
}

/// Find the index of the output record with the given peer IP, if any.
fn pse_find(v: &Vec<PeerInfoEntry>, ip: IpAddress) -> (r: Option<usize>)
    ensures
        match r {
            Some(i) => i < v@.len() && v@[i as int].ip == ip,
            None => forall|j: int| 0 <= j < v@.len() ==> (#[trigger] v@[j]).ip != ip,
        },
{
    let mut i: usize = 0;
    while i < v.len()
        invariant
            i <= v@.len(),
            forall|j: int| 0 <= j < i ==> (#[trigger] v@[j]).ip != ip,
        decreases v@.len() - i,
    {
        if v[i].ip == ip {
            return Some(i);
        }
        i = i + 1;
    }
    None
}

/// Fold a flat record sequence into one record per peer IP, a later
/// record replacing an earlier one outright (last wins).
fn ps_merge_entries(flat: &Vec<PeerInfoEntry>) -> (r: Vec<PeerInfoEntry>)
    ensures
        psev_unique(pse_views(r@)),
        psev_map_of(pse_views(r@)) =~= psev_map_of(pse_views(flat@)),
{
    let mut r: Vec<PeerInfoEntry> = Vec::new();
    let mut i: usize = 0;
    while i < flat.len()
        invariant
            i <= flat@.len(),
            psev_unique(pse_views(r@)),
            psev_map_of(pse_views(r@)) =~= psev_map_of(pse_views(flat@).take(i as int)),
        decreases flat@.len() - i,
    {
        let e = flat[i].clone();
        proof {
            assert(pse_views(flat@).take(i + 1).drop_last() =~= pse_views(flat@).take(i as int));
            assert(pse_views(flat@).take(i + 1).last() == flat@[i as int]@);
        }
        match pse_find(&r, e.ip) {
            Some(idx) => {
                proof {
                    assert(pse_views(r@)[idx as int].ip == e@.ip);
                    lemma_psev_map_of_update(pse_views(r@), idx as int, e@);
                }
                let ghost r0 = r@;
                r[idx] = e;
                proof {
                    assert(pse_views(r@) =~= pse_views(r0).update(idx as int, r@[idx as int]@));
                }
            },
            None => {
                proof {
                    lemma_psev_map_of_contains(pse_views(r@), e@.ip);
                }
                let ghost r0 = r@;
                r.push(e);
                proof {
                    lemma_pse_views_push(r0, r@[r@.len() - 1]);
                    assert(r@.drop_last() =~= r0);
                    assert(pse_views(r@).drop_last() =~= pse_views(r0));
                }
            },
        }
        i = i + 1;
    }
    proof {
        assert(pse_views(flat@).take(pse_views(flat@).len() as int) =~= pse_views(flat@));
    }
    r
}

/// Collect the peer output records of the readable artifacts into one
/// flat sequence, or report the first unreadable artifact when none may
/// be skipped.
fn ps_flatten(artifacts: &Vec<Option<PeerInfoCollectorJson>>, ignore_error: bool) -> (r: Result<
    Vec<PeerInfoEntry>,
    SummarizeError,
>)
    ensures
        match r {
            Ok(flat) => (ignore_error || forall|j: int|
                0 <= j < artifacts@.len() ==> artifacts@[j] is Some) && pse_views(flat@)
                == ps_readable_views(artifacts@),
            Err(e) => !ignore_error && e.failed_index < artifacts@.len()
                && artifacts@[e.failed_index as int] is None && forall|j: int|
                0 <= j < e.failed_index ==> artifacts@[j] is Some,
        },
{
    let mut flat: Vec<PeerInfoEntry> = Vec::new();
    let mut i: usize = 0;
    while i < artifacts.len()
        invariant
            i <= artifacts@.len(),
            pse_views(flat@) == ps_readable_views(artifacts@.take(i as int)),
            !ignore_error ==> forall|j: int| 0 <= j < i ==> artifacts@[j] is Some,
        decreases artifacts@.len() - i,
    {
        proof {
            assert(artifacts@.take(i + 1).drop_last() =~= artifacts@.take(i as int));
        }
        match &artifacts[i] {
            None => {
                if !ignore_error {
                    return Err(SummarizeError { failed_index: i });
                }
                proof {
                    assert(pse_views(flat@) =~= ps_readable_views(artifacts@.take(i + 1)));
                }
            },
            Some(doc) => {
                let ghost base = flat@;
                let mut j: usize = 0;
                while j < doc.peers.len()
                    invariant
                        j <= doc.peers@.len(),
                        pse_views(flat@) =~= pse_views(base) + pse_views(doc.peers@.take(j as int)),
                    decreases doc.peers@.len() - j,
                {
                    let ghost before = flat@;
                    flat.push(doc.peers[j].clone());
                    proof {
                        lemma_pse_views_push(before, flat@[flat@.len() - 1]);
                        assert(pse_views(flat@) =~= pse_views(before).push(
                            flat@[flat@.len() - 1]@,
                        ));
                        assert(pse_views(doc.peers@.take(j + 1)) =~= pse_views(
                            doc.peers@.take(j as int),
                        ).push(doc.peers@[j as int]@));
                    }
                    j = j + 1;
                }
                proof {
                    assert(doc.peers@.take(doc.peers@.len() as int) =~= doc.peers@);
                    assert(pse_views(flat@) =~= ps_readable_views(artifacts@.take(i + 1)));
                }
            },
        }
        i = i + 1;
    }
    proof {
        assert(artifacts@.take(artifacts@.len() as int) =~= artifacts@);
    }
    Ok(flat)
}

impl PeerStatsProcessor {
    /// Merge the readable per-snapshot artifacts into one cumulative
    /// result: per peer IP, the record of the latest readable snapshot
    /// replaces any earlier one outright (last-snapshot-wins, unlike the
    /// additive merges of the other processors).
    ///
    /// When `ignore_error` is set an unreadable artifact is skipped;
    /// otherwise the first unreadable artifact aborts the whole call and
    /// its index is reported.
    pub fn summarize_latest(
        &self,
        artifacts: &Vec<Option<PeerInfoCollectorJson>>,
        rib_dump_urls: Vec<String>,
        ignore_error: bool,
    ) -> (r: Result<PeerInfoSummaryJson, SummarizeError>)
        ensures
            r is Ok <==> (ignore_error || forall|j: int|
                0 <= j < artifacts@.len() ==> artifacts@[j] is Some),
            match r {
                Ok(summary) => {
                    &&& summary.rib_dump_urls == rib_dump_urls
                    &&& psev_unique(pse_views(summary.peers@))
                    &&& psev_map_of(pse_views(summary.peers@)) =~= psev_map_of(
                        ps_readable_views(artifacts@),
                    )
                },
                Err(e) => {
                    &&& !ignore_error
                    &&& e.failed_index < artifacts@.len()
                    &&& artifacts@[e.failed_index as int] is None
                    &&& forall|j: int| 0 <= j < e.failed_index ==> artifacts@[j] is Some
                },
            },
    {
        let flat = match ps_flatten(artifacts, ignore_error) {
            Ok(flat) => flat,
            Err(e) => {
                return Err(e);
            },
        };
        let merged = ps_merge_entries(&flat);
        Ok(PeerInfoSummaryJson { rib_dump_urls, peers: merged })
    }
}


impl PeerStatsProcessor {
    /// The stable name of this processor.
    pub fn name(&self) -> (r: String)
        ensures
            r@ == self.spec_processor_meta()@.name,
    {
        self.processor_meta.name.clone()
    }

    /// The archival and "latest" output locations for the snapshot this
    /// processor was reset with: the archival one is timestamped, the
    /// "latest" one is overwritten every run.
    pub fn output_paths(&self) -> (r: Option<Vec<String>>)
        requires
            self.spec_rib_meta() is Some,
        ensures
            r matches Some(v) && v@.len() == 2 && v@[0]@ == archive_path_spec(
                self.spec_processor_meta()@,
                self.spec_rib_meta()->Some_0@,
            ) && v@[1]@ == latest_path_spec(
                self.spec_processor_meta()@,
                self.spec_rib_meta()->Some_0@,
            ),
    {
        match &self.rib_meta {
            Some(m) => Some(
                vec![
                    get_output_path(m, &self.processor_meta),
                    get_latest_output_path(m, &self.processor_meta),
                ],
            ),
            None => None,
        }
    }

    /// The per-snapshot result document: the snapshot identity and the
    /// current peers entries.
    pub fn to_result(&self) -> (r: Option<PeerInfoCollectorJson>)
        requires
            self.spec_rib_meta() is Some,
            self.wf(),
        ensures
            r matches Some(doc) && doc.project@ == self.spec_rib_meta()->Some_0@.project
                && doc.collector@ == self.spec_rib_meta()->Some_0@.collector && doc.rib_dump_url@
                == self.spec_rib_meta()->Some_0@.rib_dump_url && doc.peers@.len() == self.spec_records().len() && (forall|i: int| 0 <= i < doc.peers@.len() ==> (#[trigger] doc.peers@[i])@ == ps_entry_view_of(self.spec_records()[i])),
    {
        match &self.rib_meta {
            Some(m) => Some(
                PeerInfoCollectorJson {
                    project: m.project.clone(),
                    collector: m.collector.clone(),
                    rib_dump_url: m.rib_dump_url.clone(),
                    peers: self.get_peer_entries(),
                },
            ),
            None => None,
        }
    }
}


impl PeerStatsProcessor {
    /// Whether this processor reports its "latest" output target as
    /// already holding output for the forthcoming snapshot.
    pub fn output_exists(&self) -> (r: bool)
        ensures
            r == self.latest_output_exists(),
    {
        self.latest_exists
    }
}


impl PeerStatsProcessor {
    /// The processor's own meta: name and output root.
    pub fn processor_meta(&self) -> (r: ProcessorMeta)
        ensures
            r@ == self.spec_processor_meta()@,
    {
        self.processor_meta.clone()
    }

    /// Whether a snapshot meta has been stored by a reset.
    pub fn has_rib_meta(&self) -> (r: bool)
        ensures
            r == (self.spec_rib_meta() is Some),
    {
        match &self.rib_meta {
            Some(_) => true,
            None => false,
        }
    }
}


/// Within one pass a peer's observed sets only ever grow, and a set
/// default-route flag never clears.
pub proof fn lemma_ps_step_monotone(
    m: Map<IpAddress, PeerView>,
    e: RoutingElement,
    collector: Option<Seq<char>>,
    ip: IpAddress,
)
    requires
        m.contains_key(ip),
    ensures
        ps_step(m, e, collector).contains_key(ip),
        m[ip].ipv4_pfxs.subset_of(ps_step(m, e, collector)[ip].ipv4_pfxs),
        m[ip].ipv6_pfxs.subset_of(ps_step(m, e, collector)[ip].ipv6_pfxs),
        m[ip].connected.subset_of(ps_step(m, e, collector)[ip].connected),
        m[ip].ipv4_default ==> ps_step(m, e, collector)[ip].ipv4_default,
        m[ip].ipv6_default ==> ps_step(m, e, collector)[ip].ipv6_default,
{
}

} // verus!

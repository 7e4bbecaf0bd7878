use ribeye::elem::{ElemType, IpAddress, Network, RoutingElement};
use ribeye::processors::meta::{RibMeta, RibTimestamp};
use ribeye::processors::peer_stats::{
    PeerInfoCollectorJson, PeerInfoEntry, PeerStatsProcessor,
};

fn meta() -> RibMeta {
    RibMeta {
        project: String::from("route-views"),
        collector: String::from("route-views2"),
        rib_dump_url: String::from("https://example.net/rib.bz2"),
        timestamp: RibTimestamp { year: 2023, month: 3, day: 5, epoch: 1677993600 },
    }
}

fn elem(
    kind: ElemType,
    peer: IpAddress,
    prefix: Network,
    path: Option<Vec<u32>>,
) -> RoutingElement {
    RoutingElement { elem_type: kind, peer_ip: peer, peer_asn: 64500, prefix, as_path: path }
}

fn entry_for(entries: &[PeerInfoEntry], ip: IpAddress) -> Option<&PeerInfoEntry> {
    entries.iter().find(|e| e.ip == ip)
}

#[test]
fn peer_stats_default_route_sets_flag_and_still_counts() {
    let peer = IpAddress::V4(0xC0000201);
    let mut p = PeerStatsProcessor::new("./results");
    p.reset_processor(&meta());
    p.process_entry(&elem(
        ElemType::Announce,
        peer,
        Network::V4 { addr: 0, prefix_len: 0 },
        None,
    ));
    p.process_entry(&elem(
        ElemType::Announce,
        peer,
        Network::V4 { addr: 0xC6336400, prefix_len: 24 },
        None,
    ));
    let entries = p.get_peer_entries();
    assert_eq!(entries.len(), 1);
    let e = entry_for(&entries, peer).unwrap();
    assert_eq!(e.asn, 64500);
    assert!(e.has_v4_default);
    assert!(!e.has_v6_default);
    assert_eq!(e.num_v4_pfxs, 2);
    assert_eq!(e.num_v6_pfxs, 0);
    assert_eq!(e.collector.as_ref().unwrap().as_str(), "route-views2");
}

#[test]
fn peer_stats_withdraw_only_peer_appears_with_zero_counts() {
    let peer = IpAddress::V6(0x2001_0db8 << 96);
    let mut p = PeerStatsProcessor::new("./results");
    p.process_entry(&elem(
        ElemType::Withdraw,
        peer,
        Network::V6 { addr: 0x2001_0db8 << 96, prefix_len: 32 },
        None,
    ));
    let entries = p.get_peer_entries();
    assert_eq!(entries.len(), 1);
    let e = entry_for(&entries, peer).unwrap();
    assert_eq!(e.num_v4_pfxs, 0);
    assert_eq!(e.num_v6_pfxs, 0);
    assert_eq!(e.num_connected_asns, 0);
    assert!(!e.has_v4_default);
    assert!(!e.has_v6_default);
}

#[test]
fn peer_stats_counts_distinct_first_hops() {
    let peer = IpAddress::V4(7);
    let net = Network::V4 { addr: 0xC6336400, prefix_len: 24 };
    let mut p = PeerStatsProcessor::new("./results");
    p.process_entry(&elem(ElemType::Announce, peer, net, Some(vec![6939, 65001])));
    p.process_entry(&elem(ElemType::Announce, peer, net, Some(vec![6939, 65002])));
    p.process_entry(&elem(ElemType::Announce, peer, net, Some(vec![701, 65001])));
    p.process_entry(&elem(ElemType::Announce, peer, net, Some(Vec::new())));
    let entries = p.get_peer_entries();
    let e = entry_for(&entries, peer).unwrap();
    assert_eq!(e.num_connected_asns, 2);
    assert_eq!(e.num_v4_pfxs, 1);
}

fn out_entry(ip: IpAddress, num_v4: u64) -> PeerInfoEntry {
    PeerInfoEntry {
        ip,
        collector: Some(String::from("route-views2")),
        asn: 64500,
        num_v4_pfxs: num_v4,
        num_v6_pfxs: 0,
        num_connected_asns: 0,
        has_v4_default: false,
        has_v6_default: false,
    }
}

fn artifact(peers: Vec<PeerInfoEntry>) -> PeerInfoCollectorJson {
    PeerInfoCollectorJson {
        project: String::from("route-views"),
        collector: String::from("route-views2"),
        rib_dump_url: String::from("https://example.net/rib.bz2"),
        peers,
    }
}

#[test]
fn peer_stats_summarize_is_last_snapshot_wins() {
    let p = PeerStatsProcessor::new("./results");
    let ip_a = IpAddress::V4(1);
    let ip_b = IpAddress::V4(2);
    let arts = vec![
        Some(artifact(vec![out_entry(ip_a, 1), out_entry(ip_b, 7)])),
        Some(artifact(vec![out_entry(ip_a, 5)])),
    ];
    let summary = p
        .summarize_latest(&arts, vec![String::from("u1"), String::from("u2")], true)
        .unwrap();
    assert_eq!(summary.peers.len(), 2);
    assert_eq!(entry_for(&summary.peers, ip_a).unwrap().num_v4_pfxs, 5);
    assert_eq!(entry_for(&summary.peers, ip_b).unwrap().num_v4_pfxs, 7);
}

#[test]
fn peer_stats_summarize_aborts_on_unreadable_when_strict() {
    let p = PeerStatsProcessor::new("./results");
    let arts = vec![Some(artifact(vec![])), None, Some(artifact(vec![]))];
    let err = p.summarize_latest(&arts, vec![], false).unwrap_err();
    assert_eq!(err.failed_index, 1);
}

use ribeye::elem::{ElemType, IpAddress, Network, RoutingElement};
use ribeye::processors::as2rel::{As2relCollectorJson, As2relEntry, As2relProcessor};

fn net24() -> Network {
    Network::V4 { addr: 0xC6336400, prefix_len: 24 }
}

fn announce_from(peer: u32, path: Vec<u32>) -> RoutingElement {
    RoutingElement {
        elem_type: ElemType::Announce,
        peer_ip: IpAddress::V4(peer),
        peer_asn: 64500,
        prefix: net24(),
        as_path: Some(path),
    }
}

fn entry_of(entries: &[As2relEntry], asn1: u32, asn2: u32, rel: u8) -> Option<&As2relEntry> {
    entries.iter().find(|e| e.asn1 == asn1 && e.asn2 == asn2 && e.rel == rel)
}

#[test]
fn as2rel_no_tier1_yields_code0_only() {
    let mut p = As2relProcessor::new("./results");
    p.process_entry(&announce_from(1, vec![65010, 64512, 65001]));
    let entries = p.get_count_vec();
    assert_eq!(entries.len(), 2);
    assert_eq!(entry_of(&entries, 65010, 64512, 0).unwrap().paths_count, 1);
    assert_eq!(entry_of(&entries, 64512, 65001, 0).unwrap().paths_count, 1);
    assert!(entries.iter().all(|e| e.rel == 0));
}

#[test]
fn as2rel_code0_keys_are_not_canonicalized() {
    let mut p = As2relProcessor::new("./results");
    // adjacent pairs: (65001, 64512), (64512, 65001), (65001, 64512)
    p.process_entry(&announce_from(1, vec![65001, 64512, 65001, 64512]));
    let entries = p.get_count_vec();
    assert_eq!(entry_of(&entries, 65001, 64512, 0).unwrap().paths_count, 2);
    assert_eq!(entry_of(&entries, 64512, 65001, 0).unwrap().paths_count, 1);
}

#[test]
fn as2rel_first_tier1_adjacent_to_origin_yields_no_code1() {
    let mut p = As2relProcessor::new("./results");
    // reversed from origin: [65001, 6939, 701, 7018]; first Tier-1 index is 1
    p.process_entry(&announce_from(1, vec![7018, 701, 6939, 65001]));
    let entries = p.get_count_vec();
    assert!(entries.iter().all(|e| e.rel == 0));
    assert_eq!(entries.len(), 3);
    assert_eq!(entry_of(&entries, 7018, 701, 0).unwrap().paths_count, 1);
    assert_eq!(entry_of(&entries, 701, 6939, 0).unwrap().paths_count, 1);
    assert_eq!(entry_of(&entries, 6939, 65001, 0).unwrap().paths_count, 1);
}

#[test]
fn as2rel_hops_below_first_tier1_yield_code1() {
    let mut p = As2relProcessor::new("./results");
    // reversed from origin: [65001, 64512, 3356]; first Tier-1 index is 2,
    // so the one pair strictly before it is provider 64512 -> customer 65001
    p.process_entry(&announce_from(1, vec![3356, 64512, 65001]));
    let entries = p.get_count_vec();
    assert_eq!(entry_of(&entries, 3356, 64512, 0).unwrap().paths_count, 1);
    assert_eq!(entry_of(&entries, 64512, 65001, 0).unwrap().paths_count, 1);
    let code1 = entry_of(&entries, 64512, 65001, 1).unwrap();
    assert_eq!(code1.paths_count, 1);
    assert_eq!(entries.iter().filter(|e| e.rel == 1).count(), 1);
}

#[test]
fn as2rel_collapses_prepending_before_pairing() {
    let mut p = As2relProcessor::new("./results");
    p.process_entry(&announce_from(1, vec![65010, 65010, 64512]));
    let entries = p.get_count_vec();
    assert_eq!(entries.len(), 1);
    assert_eq!(entry_of(&entries, 65010, 64512, 0).unwrap().paths_count, 1);
}

#[test]
fn as2rel_counts_distinct_observers() {
    let mut p = As2relProcessor::new("./results");
    p.process_entry(&announce_from(1, vec![65010, 64512]));
    p.process_entry(&announce_from(2, vec![65010, 64512]));
    p.process_entry(&announce_from(2, vec![65010, 64512]));
    let entries = p.get_count_vec();
    let e = entry_of(&entries, 65010, 64512, 0).unwrap();
    assert_eq!(e.paths_count, 3);
    assert_eq!(e.peers_count, 2);
}

fn artifact(entries: Vec<As2relEntry>) -> As2relCollectorJson {
    As2relCollectorJson {
        project: String::from("route-views"),
        collector: String::from("route-views2"),
        rib_dump_url: String::from("https://example.net/rib.bz2"),
        as2rel: entries,
    }
}

#[test]
fn as2rel_summarize_sums_both_counts_per_key() {
    let p = As2relProcessor::new("./results");
    let e1 = As2relEntry { asn1: 65010, asn2: 64512, paths_count: 3, peers_count: 2, rel: 0 };
    let e2 = As2relEntry { asn1: 65010, asn2: 64512, paths_count: 5, peers_count: 2, rel: 0 };
    let e3 = As2relEntry { asn1: 64512, asn2: 65001, paths_count: 1, peers_count: 1, rel: 1 };
    let arts = vec![Some(artifact(vec![e1])), Some(artifact(vec![e2, e3]))];
    let summary = p.summarize_latest(&arts, vec![String::from("u1"), String::from("u2")], true)
        .unwrap();
    let merged = entry_of(&summary.as2rel, 65010, 64512, 0).unwrap();
    assert_eq!(merged.paths_count, 8);
    // observer counts are summed, not re-deduplicated
    assert_eq!(merged.peers_count, 4);
    let merged1 = entry_of(&summary.as2rel, 64512, 65001, 1).unwrap();
    assert_eq!(merged1.paths_count, 1);
    assert_eq!(summary.as2rel.len(), 2);
}

#[test]
fn as2rel_summarize_aborts_on_unreadable_when_strict() {
    let p = As2relProcessor::new("./results");
    let arts: Vec<Option<As2relCollectorJson>> = vec![None];
    let err = p.summarize_latest(&arts, vec![], false).unwrap_err();
    assert_eq!(err.failed_index, 0);
}

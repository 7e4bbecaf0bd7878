use ribeye::elem::{ElemType, IpAddress, Network, RoutingElement};
use ribeye::processors::pfx2dist::{
    Prefix2Dist, Prefix2DistCollectorJson, Prefix2DistProcessor,
};

fn net24() -> Network {
    Network::V4 { addr: 0xC6336400, prefix_len: 24 }
}

fn announce(path: Vec<u32>) -> RoutingElement {
    RoutingElement {
        elem_type: ElemType::Announce,
        peer_ip: IpAddress::V4(1),
        peer_asn: 64500,
        prefix: net24(),
        as_path: Some(path),
    }
}

fn dist_of(entries: &[Prefix2Dist], prefix: Network, asn: u32) -> Option<u32> {
    entries
        .iter()
        .find(|e| e.prefix == prefix && e.collector_asn == asn)
        .map(|e| e.distance)
}

#[test]
fn pfx2dist_keeps_minimum_hop_count() {
    let mut p = Prefix2DistProcessor::new("./results");
    p.process_entry(&announce(vec![6939, 701, 65001]));
    p.process_entry(&announce(vec![6939, 65001]));
    p.process_entry(&announce(vec![6939, 3356, 701, 65001]));
    let entries = p.get_count_vec();
    assert_eq!(entries.len(), 1);
    assert_eq!(dist_of(&entries, net24(), 6939), Some(2));
}

#[test]
fn pfx2dist_collapses_prepending_before_measuring() {
    let mut p = Prefix2DistProcessor::new("./results");
    p.process_entry(&announce(vec![6939, 65001, 65001, 65001]));
    let entries = p.get_count_vec();
    assert_eq!(dist_of(&entries, net24(), 6939), Some(2));
}

#[test]
fn pfx2dist_keys_by_head_of_unreversed_path() {
    let mut p = Prefix2DistProcessor::new("./results");
    p.process_entry(&announce(vec![6939, 65001]));
    p.process_entry(&announce(vec![701, 64512, 65001]));
    let entries = p.get_count_vec();
    assert_eq!(entries.len(), 2);
    assert_eq!(dist_of(&entries, net24(), 6939), Some(2));
    assert_eq!(dist_of(&entries, net24(), 701), Some(3));
}

fn artifact(entries: Vec<Prefix2Dist>) -> Prefix2DistCollectorJson {
    Prefix2DistCollectorJson {
        project: String::from("route-views"),
        collector: String::from("route-views2"),
        rib_dump_url: String::from("https://example.net/rib.bz2"),
        pfx2dist: entries,
    }
}

#[test]
fn pfx2dist_summarize_takes_minimum_per_key() {
    let p = Prefix2DistProcessor::new("./results");
    let arts = vec![
        Some(artifact(vec![Prefix2Dist {
            prefix: net24(),
            collector_asn: 6939,
            distance: 4,
        }])),
        Some(artifact(vec![Prefix2Dist {
            prefix: net24(),
            collector_asn: 6939,
            distance: 2,
        }])),
        Some(artifact(vec![Prefix2Dist {
            prefix: net24(),
            collector_asn: 6939,
            distance: 3,
        }])),
    ];
    let summary = p.summarize_latest(&arts, vec![], true).unwrap();
    assert_eq!(summary.pfx2dist.len(), 1);
    assert_eq!(dist_of(&summary.pfx2dist, net24(), 6939), Some(2));
}

#[test]
fn pfx2dist_summarize_aborts_on_unreadable_when_strict() {
    let p = Prefix2DistProcessor::new("./results");
    let arts: Vec<Option<Prefix2DistCollectorJson>> = vec![None];
    let err = p.summarize_latest(&arts, vec![], false).unwrap_err();
    assert_eq!(err.failed_index, 0);
}

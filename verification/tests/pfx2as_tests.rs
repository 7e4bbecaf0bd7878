use ribeye::elem::{ElemType, IpAddress, Network, RoutingElement};
use ribeye::processors::meta::{RibMeta, RibTimestamp};
use ribeye::processors::pfx2as::{Prefix2AsCollectorJson, Prefix2AsCount, Prefix2AsProcessor};

fn net(addr: u32, len: u8) -> Network {
    Network::V4 { addr, prefix_len: len }
}

fn announce(prefix: Network, path: Option<Vec<u32>>) -> RoutingElement {
    RoutingElement {
        elem_type: ElemType::Announce,
        peer_ip: IpAddress::V4(0xC0000201),
        peer_asn: 64500,
        prefix,
        as_path: path,
    }
}

fn meta() -> RibMeta {
    RibMeta {
        project: String::from("route-views"),
        collector: String::from("route-views2"),
        rib_dump_url: String::from("https://example.net/rib.bz2"),
        timestamp: RibTimestamp { year: 2023, month: 3, day: 5, epoch: 1677993600 },
    }
}

fn count_of(entries: &[Prefix2AsCount], prefix: Network, asn: u32) -> Option<u64> {
    entries
        .iter()
        .find(|e| e.prefix == prefix && e.asn == asn)
        .map(|e| e.count)
}

#[test]
fn pfx2as_counts_announces_per_prefix_origin() {
    let mut p = Prefix2AsProcessor::new("./results");
    let pfx = net(0xC6336400, 24);
    p.process_entry(&announce(pfx, Some(vec![64500, 6939, 65001])));
    p.process_entry(&announce(pfx, Some(vec![64500, 701, 65001])));
    p.process_entry(&announce(pfx, Some(vec![64500, 701, 65002])));
    let entries = p.get_count_vec();
    assert_eq!(entries.len(), 2);
    assert_eq!(count_of(&entries, pfx, 65001), Some(2));
    assert_eq!(count_of(&entries, pfx, 65002), Some(1));
}

#[test]
fn pfx2as_skips_withdraw_default_and_pathless() {
    let mut p = Prefix2AsProcessor::new("./results");
    let pfx = net(0xC6336400, 24);
    let withdraw = RoutingElement {
        elem_type: ElemType::Withdraw,
        peer_ip: IpAddress::V4(1),
        peer_asn: 64500,
        prefix: pfx,
        as_path: Some(vec![64500, 65001]),
    };
    p.process_entry(&withdraw);
    p.process_entry(&announce(net(0, 0), Some(vec![64500, 65001])));
    p.process_entry(&announce(pfx, None));
    p.process_entry(&announce(pfx, Some(Vec::new())));
    assert_eq!(p.get_count_vec().len(), 0);
}

#[test]
fn pfx2as_reset_clears_state() {
    let mut p = Prefix2AsProcessor::new("./results");
    let pfx = net(0xC6336400, 24);
    p.process_entry(&announce(pfx, Some(vec![64500, 65001])));
    assert_eq!(p.get_count_vec().len(), 1);
    p.reset_processor(&meta());
    assert_eq!(p.get_count_vec().len(), 0);
}

#[test]
fn pfx2as_result_document_carries_snapshot_identity() {
    let mut p = Prefix2AsProcessor::new("./results");
    p.reset_processor(&meta());
    let pfx = net(0xC6336400, 24);
    p.process_entry(&announce(pfx, Some(vec![64500, 65001])));
    let doc = p.to_result().unwrap();
    assert_eq!(doc.project.as_str(), "route-views");
    assert_eq!(doc.collector.as_str(), "route-views2");
    assert_eq!(doc.rib_dump_url.as_str(), "https://example.net/rib.bz2");
    assert_eq!(doc.pfx2as.len(), 1);
    assert_eq!(doc.pfx2as[0].count, 1);
}

fn artifact(entries: Vec<Prefix2AsCount>) -> Prefix2AsCollectorJson {
    Prefix2AsCollectorJson {
        project: String::from("route-views"),
        collector: String::from("route-views2"),
        rib_dump_url: String::from("https://example.net/rib.bz2"),
        pfx2as: entries,
    }
}

#[test]
fn pfx2as_summarize_sums_counts_per_key() {
    let p = Prefix2AsProcessor::new("./results");
    let pfx = net(0xC6336400, 24);
    let arts = vec![
        Some(artifact(vec![Prefix2AsCount { prefix: pfx, asn: 65001, count: 3 }])),
        Some(artifact(vec![
            Prefix2AsCount { prefix: pfx, asn: 65001, count: 4 },
            Prefix2AsCount { prefix: pfx, asn: 65002, count: 1 },
        ])),
        Some(artifact(vec![Prefix2AsCount { prefix: pfx, asn: 65001, count: 5 }])),
    ];
    let urls = vec![String::from("u1"), String::from("u2"), String::from("u3")];
    let summary = p.summarize_latest(&arts, urls, true).unwrap();
    assert_eq!(summary.rib_dump_urls.len(), 3);
    assert_eq!(count_of(&summary.pfx2as, pfx, 65001), Some(12));
    assert_eq!(count_of(&summary.pfx2as, pfx, 65002), Some(1));
    assert_eq!(summary.pfx2as.len(), 2);
}

#[test]
fn pfx2as_summarize_skips_unreadable_when_allowed() {
    let p = Prefix2AsProcessor::new("./results");
    let pfx = net(0xC6336400, 24);
    let arts = vec![
        None,
        Some(artifact(vec![Prefix2AsCount { prefix: pfx, asn: 65001, count: 2 }])),
    ];
    let summary = p.summarize_latest(&arts, vec![], true).unwrap();
    assert_eq!(count_of(&summary.pfx2as, pfx, 65001), Some(2));
}

#[test]
fn pfx2as_summarize_of_no_readable_artifacts_is_empty_not_an_error() {
    let p = Prefix2AsProcessor::new("./results");
    let arts: Vec<Option<Prefix2AsCollectorJson>> = vec![None, None];
    let summary = p.summarize_latest(&arts, vec![], true).unwrap();
    assert_eq!(summary.pfx2as.len(), 0);
}

#[test]
fn pfx2as_summarize_aborts_on_unreadable_when_strict() {
    let p = Prefix2AsProcessor::new("./results");
    let pfx = net(0xC6336400, 24);
    let arts = vec![
        Some(artifact(vec![Prefix2AsCount { prefix: pfx, asn: 65001, count: 2 }])),
        None,
    ];
    let err = p.summarize_latest(&arts, vec![], false).unwrap_err();
    assert_eq!(err.failed_index, 1);
}

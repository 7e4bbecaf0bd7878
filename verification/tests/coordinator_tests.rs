use ribeye::elem::{ElemType, IpAddress, Network, RoutingElement};
use ribeye::processors::meta::{RibMeta, RibTimestamp};
use ribeye::processors::pfx2as::{Prefix2AsCount, Prefix2AsProcessor};
use ribeye::processors::MessageProcessor;
use ribeye::RibEye;

fn meta() -> RibMeta {
    RibMeta {
        project: String::from("route-views"),
        collector: String::from("route-views2"),
        rib_dump_url: String::from("https://example.net/rib.bz2"),
        timestamp: RibTimestamp { year: 2023, month: 3, day: 5, epoch: 1677993600 },
    }
}

fn sample_elements() -> Vec<RoutingElement> {
    let net_a = Network::V4 { addr: 0xC6336400, prefix_len: 24 };
    let net_b = Network::V4 { addr: 0xCB007100, prefix_len: 24 };
    vec![
        RoutingElement {
            elem_type: ElemType::Announce,
            peer_ip: IpAddress::V4(1),
            peer_asn: 64500,
            prefix: net_a,
            as_path: Some(vec![6939, 701, 65001]),
        },
        RoutingElement {
            elem_type: ElemType::Announce,
            peer_ip: IpAddress::V4(2),
            peer_asn: 64501,
            prefix: net_b,
            as_path: Some(vec![3356, 64512, 65001]),
        },
        RoutingElement {
            elem_type: ElemType::Withdraw,
            peer_ip: IpAddress::V4(1),
            peer_asn: 64500,
            prefix: net_a,
            as_path: None,
        },
        RoutingElement {
            elem_type: ElemType::Announce,
            peer_ip: IpAddress::V4(1),
            peer_asn: 64500,
            prefix: net_a,
            as_path: Some(vec![6939, 701, 65001]),
        },
    ]
}

fn same_count_multiset(a: &[Prefix2AsCount], b: &[Prefix2AsCount]) -> bool {
    a.len() == b.len()
        && a.iter().all(|ea| {
            b.iter()
                .find(|eb| eb.prefix == ea.prefix && eb.asn == ea.asn)
                .map(|eb| eb.count == ea.count)
                .unwrap_or(false)
        })
}

fn run_once(elems: &[RoutingElement]) -> RibEye {
    let mut rib = RibEye::new().with_processors(RibEye::default_processors("./results"));
    rib.initialize_processors(&meta());
    rib.process_all(&elems.to_vec());
    rib
}

#[test]
fn rerunning_after_fresh_reset_reproduces_results() {
    let elems = sample_elements();
    let mut rib = run_once(&elems);
    let peers1 = match &rib.processors()[0] {
        MessageProcessor::PeerStats(p) => p.get_peer_entries(),
        _ => panic!("unexpected processor kind"),
    };
    let counts1 = match &rib.processors()[1] {
        MessageProcessor::Prefix2As(p) => p.get_count_vec(),
        _ => panic!("unexpected processor kind"),
    };
    let rels1 = match &rib.processors()[2] {
        MessageProcessor::As2rel(p) => p.get_count_vec(),
        _ => panic!("unexpected processor kind"),
    };
    rib.initialize_processors(&meta());
    rib.process_all(&elems);
    let peers2 = match &rib.processors()[0] {
        MessageProcessor::PeerStats(p) => p.get_peer_entries(),
        _ => panic!("unexpected processor kind"),
    };
    let counts2 = match &rib.processors()[1] {
        MessageProcessor::Prefix2As(p) => p.get_count_vec(),
        _ => panic!("unexpected processor kind"),
    };
    let rels2 = match &rib.processors()[2] {
        MessageProcessor::As2rel(p) => p.get_count_vec(),
        _ => panic!("unexpected processor kind"),
    };
    assert!(same_count_multiset(&counts1, &counts2));
    assert!(!counts1.is_empty());
    assert_eq!(rels1.len(), rels2.len());
    assert!(rels1.iter().all(|a| rels2.iter().any(|b| a == b)));
    assert!(!rels1.is_empty());
    assert_eq!(peers1.len(), peers2.len());
    assert!(peers1.iter().all(|a| {
        peers2.iter().any(|b| {
            a.ip == b.ip && a.asn == b.asn && a.num_v4_pfxs == b.num_v4_pfxs && a.num_v6_pfxs
                == b.num_v6_pfxs && a.num_connected_asns == b.num_connected_asns
                && a.has_v4_default == b.has_v4_default && a.has_v6_default == b.has_v6_default
        })
    }));
    assert!(!peers1.is_empty());
}

#[test]
fn skipped_processor_is_never_fed_an_element() {
    let elems = sample_elements();
    let mut skipped = MessageProcessor::Prefix2As(Prefix2AsProcessor::new("./results"));
    skipped.mark_latest_exists();
    let mut rib = RibEye::new();
    rib.add_processor(skipped);
    rib.add_processor(MessageProcessor::Prefix2As(Prefix2AsProcessor::new("./results")));
    assert!(!rib.is_active(0));
    assert!(rib.is_active(1));
    rib.process_all(&elems);
    match &rib.processors()[0] {
        MessageProcessor::Prefix2As(p) => assert!(p.get_count_vec().is_empty()),
        _ => panic!("unexpected processor kind"),
    }
    match &rib.processors()[1] {
        MessageProcessor::Prefix2As(p) => assert!(!p.get_count_vec().is_empty()),
        _ => panic!("unexpected processor kind"),
    }
}

#[test]
fn default_processor_set_has_three_members() {
    let ps = RibEye::default_processors("./results");
    assert_eq!(ps.len(), 3);
    assert!(matches!(ps[0], MessageProcessor::PeerStats(_)));
    assert!(matches!(ps[1], MessageProcessor::Prefix2As(_)));
    assert!(matches!(ps[2], MessageProcessor::As2rel(_)));
}

#[test]
fn processor_lookup_by_name() {
    assert!(matches!(
        RibEye::get_processor("peerstats", "./results"),
        Some(MessageProcessor::PeerStats(_))
    ));
    assert!(matches!(
        RibEye::get_processor("peer_stats", "./results"),
        Some(MessageProcessor::PeerStats(_))
    ));
    assert!(matches!(
        RibEye::get_processor("peer-stats", "./results"),
        Some(MessageProcessor::PeerStats(_))
    ));
    assert!(matches!(
        RibEye::get_processor("pfx2as", "./results"),
        Some(MessageProcessor::Prefix2As(_))
    ));
    assert!(matches!(
        RibEye::get_processor("as2rel", "./results"),
        Some(MessageProcessor::As2rel(_))
    ));
    assert!(matches!(
        RibEye::get_processor("pfx2dist", "./results"),
        Some(MessageProcessor::Prefix2Dist(_))
    ));
    assert!(RibEye::get_processor("nonsense", "./results").is_none());
}

#[test]
fn unknown_processor_name_reports_its_index() {
    let names = vec![String::from("pfx2as"), String::from("nonsense")];
    let err = RibEye::get_processors(&names, "./results").unwrap_err();
    assert_eq!(err.index, 1);
}

#[test]
fn empty_name_list_selects_default_processors() {
    let rib = RibEye::new()
        .with_processor_names(&Vec::new(), "./results")
        .unwrap();
    assert_eq!(rib.processors().len(), 3);
}

#[test]
fn processor_names_and_output_paths() {
    let mut p = MessageProcessor::Prefix2As(Prefix2AsProcessor::new("./results"));
    assert_eq!(p.name().as_str(), "pfx2as");
    p.reset_processor(&meta());
    let paths = p.output_paths().unwrap();
    assert_eq!(paths.len(), 2);
    assert_eq!(
        paths[0].as_str(),
        "./results/pfx2as/route-views2/2023/03/pfx2as_route-views2_2023-03-05_1677993600.json.bz2"
    );
    assert_eq!(paths[1].as_str(), "./results/pfx2as/route-views2/latest.json.bz2");
}

use ribeye::elem::{collapse_path, Network};

#[test]
fn collapse_keeps_single_run_heads() {
    let path: Vec<u32> = vec![65001, 65001, 6939, 65001];
    assert_eq!(collapse_path(&path), vec![65001, 6939, 65001]);
}

#[test]
fn collapse_empty_path_is_empty() {
    let path: Vec<u32> = Vec::new();
    assert_eq!(collapse_path(&path), Vec::<u32>::new());
}

#[test]
fn collapse_single_element_unchanged() {
    let path: Vec<u32> = vec![7018];
    assert_eq!(collapse_path(&path), vec![7018]);
}

#[test]
fn collapse_full_run_becomes_one() {
    let path: Vec<u32> = vec![701, 701, 701];
    assert_eq!(collapse_path(&path), vec![701]);
}

#[test]
fn network_default_route_detection() {
    let default4 = Network::V4 { addr: 0, prefix_len: 0 };
    let net4 = Network::V4 { addr: 0xC6336400, prefix_len: 24 };
    assert!(default4.is_default());
    assert!(!net4.is_default());
    assert!(net4.is_v4());
    let net6 = Network::V6 { addr: 0x2001_0db8 << 96, prefix_len: 32 };
    assert!(!net6.is_v4());
    assert!(!net6.is_default());
}

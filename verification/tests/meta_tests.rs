use ribeye::processors::meta::{
    get_latest_output_path, get_output_path, get_summary_output_path, ProcessorMeta, RibMeta,
    RibTimestamp,
};

fn meta() -> RibMeta {
    RibMeta {
        project: String::from("riperis"),
        collector: String::from("rrc00"),
        rib_dump_url: String::from("https://example.net/rib.bz2"),
        timestamp: RibTimestamp { year: 2023, month: 3, day: 5, epoch: 1677993600 },
    }
}

fn pmeta() -> ProcessorMeta {
    ProcessorMeta { name: String::from("pfx2as"), output_dir: String::from("./results") }
}

#[test]
fn archive_path_is_partitioned_and_timestamped() {
    let path = get_output_path(&meta(), &pmeta());
    assert_eq!(
        path.as_str(),
        "./results/pfx2as/rrc00/2023/03/pfx2as_rrc00_2023-03-05_1677993600.json.bz2"
    );
}

#[test]
fn latest_path_is_per_processor_and_collector() {
    let path = get_latest_output_path(&meta(), &pmeta());
    assert_eq!(path.as_str(), "./results/pfx2as/rrc00/latest.json.bz2");
}

#[test]
fn summary_path_is_per_processor() {
    assert_eq!(
        get_summary_output_path(&pmeta(), true).as_str(),
        "./results/pfx2as/latest.json.bz2"
    );
    assert_eq!(
        get_summary_output_path(&pmeta(), false).as_str(),
        "./results/pfx2as/latest.json"
    );
}

#[test]
fn archive_path_pads_wide_dates_without_truncation() {
    let m = RibMeta {
        project: String::from("route-views"),
        collector: String::from("route-views2"),
        rib_dump_url: String::from("u"),
        timestamp: RibTimestamp { year: 999, month: 12, day: 31, epoch: 0 },
    };
    let pm = ProcessorMeta { name: String::from("as2rel"), output_dir: String::from("d") };
    let path = get_output_path(&m, &pm);
    assert_eq!(
        path.as_str(),
        "d/as2rel/route-views2/0999/12/as2rel_route-views2_0999-12-31_0.json.bz2"
    );
}

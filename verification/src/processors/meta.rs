//! Snapshot and processor metadata, and the derivation of output targets.

use vstd::prelude::*;

verus! {

/// The timestamp of a snapshot, held as plain calendar and epoch values.
///
/// `year`, `month` and `day` are the calendar date of the dump in UTC;
/// `epoch` is the same instant as seconds since the Unix epoch.
#[derive(Clone, Copy, Debug, PartialEq, Eq, Structural)]
pub struct RibTimestamp {
    pub year: u32,
    pub month: u8,
    pub day: u8,
    pub epoch: u64,
}

/// Meta information of one snapshot file.
#[derive(Debug)]
pub struct RibMeta {
    /// Route collector project name (e.g., route-views, riperis).
    pub project: String,
    /// Route collector name (e.g., route-views2, rrc00).
    pub collector: String,
    /// Snapshot file URL.
    pub rib_dump_url: String,
    /// Snapshot file timestamp.
    pub timestamp: RibTimestamp,
}

/// The mathematical value of a `RibMeta`.
pub struct RibMetaView {
    pub project: Seq<char>,
    pub collector: Seq<char>,
    pub rib_dump_url: Seq<char>,
    pub timestamp: RibTimestamp,
}

impl View for RibMeta {
    type V = RibMetaView;

    open spec fn view(&self) -> RibMetaView {
        RibMetaView {
            project: self.project@,
            collector: self.collector@,
            rib_dump_url: self.rib_dump_url@,
            timestamp: self.timestamp,
        }
    }
}

impl Clone for RibMeta {
    fn clone(&self) -> (r: Self)
        ensures
            r@ == self@,
    {
        RibMeta {
            project: self.project.clone(),
            collector: self.collector.clone(),
            rib_dump_url: self.rib_dump_url.clone(),
            timestamp: self.timestamp,
        }
    }
}

/// Meta information of one processor: its stable name and the root
/// directory (or object-store prefix) under which it writes.
#[derive(Debug)]
pub struct ProcessorMeta {
    /// Processor name.
    pub name: String,
    /// Output root directory.
    pub output_dir: String,
}

/// The mathematical value of a `ProcessorMeta`.
pub struct ProcessorMetaView {
    pub name: Seq<char>,
    pub output_dir: Seq<char>,
}

impl View for ProcessorMeta {
    type V = ProcessorMetaView;

    open spec fn view(&self) -> ProcessorMetaView {
        ProcessorMetaView { name: self.name@, output_dir: self.output_dir@ }
    }
}

impl Clone for ProcessorMeta {
    fn clone(&self) -> (r: Self)
        ensures
            r@ == self@,
    {
        ProcessorMeta { name: self.name.clone(), output_dir: self.output_dir.clone() }
    }
}


/// The decimal digit character of a value below ten.
pub open spec fn digit_char(d: nat) -> char {
    if d == 0 {
        '0'
    } else if d == 1 {
        '1'
    } else if d == 2 {
        '2'
    } else if d == 3 {
        '3'
    } else if d == 4 {
        '4'
    } else if d == 5 {
        '5'
    } else if d == 6 {
        '6'
    } else if d == 7 {
        '7'
    } else if d == 8 {
        '8'
    } else {
        '9'
    }
}

/// The decimal numeral of a number, most significant digit first.
pub open spec fn dec_str(n: nat) -> Seq<char>
    decreases n,
{
    if n < 10 {
        seq![digit_char(n)]
    } else {
        dec_str(n / 10).push(digit_char(n % 10))
    }
}

/// A numeral left-padded with zeros to the given width.
pub open spec fn zero_pad(s: Seq<char>, w: nat) -> Seq<char> {
    if s.len() >= w {
        s
    } else {
        Seq::new((w - s.len()) as nat, |i: int| '0') + s
    }
}

/// The length of a decimal numeral by magnitude.
proof fn lemma_dec_str_len(n: nat)
    ensures
        n < 10 ==> dec_str(n).len() == 1,
        10 <= n < 100 ==> dec_str(n).len() == 2,
        100 <= n < 1000 ==> dec_str(n).len() == 3,
        n >= 1000 ==> dec_str(n).len() >= 4,
    decreases n,
{
    if n >= 10 {
        lemma_dec_str_len(n / 10);
    }
}

/// The decimal digit below ten, as a string.
fn digit_str(d: u64) -> (r: &'static str)
    requires
        d < 10,
    ensures
        r@ == seq![digit_char(d as nat)],
{
    if d == 0 {
        let r = "0";
        proof {
            reveal_strlit("0");
            assert(r@ =~= seq![digit_char(d as nat)]);
        }
        r
    } else if d == 1 {
        let r = "1";
        proof {
            reveal_strlit("1");
            assert(r@ =~= seq![digit_char(d as nat)]);
        }
        r
    } else if d == 2 {
        let r = "2";
        proof {
            reveal_strlit("2");
            assert(r@ =~= seq![digit_char(d as nat)]);
        }
        r
    } else if d == 3 {
        let r = "3";
        proof {
            reveal_strlit("3");
            assert(r@ =~= seq![digit_char(d as nat)]);
        }
        r
    } else if d == 4 {
        let r = "4";
        proof {
            reveal_strlit("4");
            assert(r@ =~= seq![digit_char(d as nat)]);
        }
        r
    } else if d == 5 {
        let r = "5";
        proof {
            reveal_strlit("5");
            assert(r@ =~= seq![digit_char(d as nat)]);
        }
        r
    } else if d == 6 {
        let r = "6";
        proof {
            reveal_strlit("6");
            assert(r@ =~= seq![digit_char(d as nat)]);
        }
        r
    } else if d == 7 {
        let r = "7";
        proof {
            reveal_strlit("7");
            assert(r@ =~= seq![digit_char(d as nat)]);
        }
        r
    } else if d == 8 {
        let r = "8";
        proof {
            reveal_strlit("8");
            assert(r@ =~= seq![digit_char(d as nat)]);
        }
        r
    } else {
        let r = "9";
        proof {
            reveal_strlit("9");
            assert(r@ =~= seq![digit_char(d as nat)]);
        }
        r
    }
}

/// The decimal numeral of a number.
pub fn u64_to_dec(n: u64) -> (r: String)
    ensures
        r@ == dec_str(n as nat),
    decreases n,
{
    if n < 10 {
        String::from_str(digit_str(n))
    } else {
        let mut s = u64_to_dec(n / 10);
        s.append(digit_str(n % 10));
        proof {
            assert(dec_str((n / 10) as nat).push(digit_char((n % 10) as nat)) =~= dec_str(
                (n / 10) as nat,
            ) + seq![digit_char((n % 10) as nat)]);
        }
        s
    }
}

/// The decimal numeral of a number, zero-padded to four characters.
pub fn u32_to_dec_pad4(n: u32) -> (r: String)
    ensures
        r@ == zero_pad(dec_str(n as nat), 4),
{
    proof {
        lemma_dec_str_len(n as nat);
    }
    let s = u64_to_dec(n as u64);
    if n < 10 {
        let r = String::from_str("000").concat(s.as_str());
        proof {
            reveal_strlit("000");
            assert(r@ =~= zero_pad(dec_str(n as nat), 4));
        }
        r
    } else if n < 100 {
        let r = String::from_str("00").concat(s.as_str());
        proof {
            reveal_strlit("00");
            assert(r@ =~= zero_pad(dec_str(n as nat), 4));
        }
        r
    } else if n < 1000 {
        let r = String::from_str("0").concat(s.as_str());
        proof {
            reveal_strlit("0");
            assert(r@ =~= zero_pad(dec_str(n as nat), 4));
        }
        r
    } else {
        s
    }
}

/// The decimal numeral of a number, zero-padded to two characters.
pub fn u8_to_dec_pad2(n: u8) -> (r: String)
    ensures
        r@ == zero_pad(dec_str(n as nat), 2),
{
    proof {
        lemma_dec_str_len(n as nat);
    }
    let s = u64_to_dec(n as u64);
    if n < 10 {
        let r = String::from_str("0").concat(s.as_str());
        proof {
            reveal_strlit("0");
            assert(r@ =~= zero_pad(dec_str(n as nat), 2));
        }
        r
    } else {
        s
    }
}

/// The archival output location of a (processor, snapshot) pair: a
/// directory partitioned by processor name, collector and calendar month,
/// and a file name carrying processor, collector, calendar date and the
/// exact snapshot timestamp, so that several same-day dumps stay
/// distinct.
pub open spec fn archive_path_spec(pm: ProcessorMetaView, rm: RibMetaView) -> Seq<char> {
    pm.output_dir + "/"@ + pm.name + "/"@ + rm.collector + "/"@ + zero_pad(
        dec_str(rm.timestamp.year as nat),
        4,
    ) + "/"@ + zero_pad(dec_str(rm.timestamp.month as nat), 2) + "/"@ + pm.name + "_"@
        + rm.collector + "_"@ + zero_pad(dec_str(rm.timestamp.year as nat), 4) + "-"@ + zero_pad(
        dec_str(rm.timestamp.month as nat),
        2,
    ) + "-"@ + zero_pad(dec_str(rm.timestamp.day as nat), 2) + "_"@ + dec_str(
        rm.timestamp.epoch as nat,
    ) + ".json.bz2"@
}

/// The "latest" output location of a (processor, snapshot) pair: one per
/// processor and collector, overwritten on every run.
pub open spec fn latest_path_spec(pm: ProcessorMetaView, rm: RibMetaView) -> Seq<char> {
    pm.output_dir + "/"@ + pm.name + "/"@ + rm.collector + "/latest.json.bz2"@
}

/// The cumulative summary location of a processor: one per processor,
/// overwritten by every summarize call.
pub open spec fn summary_path_spec(pm: ProcessorMetaView, compress: bool) -> Seq<char> {
    pm.output_dir + "/"@ + pm.name + if compress {
        "/latest.json.bz2"@
    } else {
        "/latest.json"@
    }
}

/// The archival output path of a processor for one snapshot.
pub fn get_output_path(rib_meta: &RibMeta, processor_meta: &ProcessorMeta) -> (r: String)
    ensures
        r@ == archive_path_spec(processor_meta@, rib_meta@),
{
    let mut r = processor_meta.output_dir.clone();
    r.append("/");
    r.append(processor_meta.name.as_str());
    r.append("/");
    r.append(rib_meta.collector.as_str());
    r.append("/");
    let year = u32_to_dec_pad4(rib_meta.timestamp.year);
    r.append(year.as_str());
    r.append("/");
    let month = u8_to_dec_pad2(rib_meta.timestamp.month);
    r.append(month.as_str());
    r.append("/");
    r.append(processor_meta.name.as_str());
    r.append("_");
    r.append(rib_meta.collector.as_str());
    r.append("_");
    r.append(year.as_str());
    r.append("-");
    r.append(month.as_str());
    r.append("-");
    let day = u8_to_dec_pad2(rib_meta.timestamp.day);
    r.append(day.as_str());
    r.append("_");
    let epoch = u64_to_dec(rib_meta.timestamp.epoch);
    r.append(epoch.as_str());
    r.append(".json.bz2");
    r
}

/// The "latest" output path of a processor for one snapshot.
pub fn get_latest_output_path(rib_meta: &RibMeta, processor_meta: &ProcessorMeta) -> (r: String)
    ensures
        r@ == latest_path_spec(processor_meta@, rib_meta@),
{
    let mut r = processor_meta.output_dir.clone();
    r.append("/");
    r.append(processor_meta.name.as_str());
    r.append("/");
    r.append(rib_meta.collector.as_str());
    r.append("/latest.json.bz2");
    r
}

/// The cumulative summary path of a processor.
pub fn get_summary_output_path(processor_meta: &ProcessorMeta, compress: bool) -> (r: String)
    ensures
        r@ == summary_path_spec(processor_meta@, compress),
{
    let mut r = processor_meta.output_dir.clone();
    r.append("/");
    r.append(processor_meta.name.as_str());
    if compress {
        r.append("/latest.json.bz2");
    } else {
        r.append("/latest.json");
    }
    r
}

} // verus!

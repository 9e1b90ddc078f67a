//! Reports: exports of the recorded readings.
use crate::chars;
use crate::order;
use crate::paths;
use crate::text;
use vstd::prelude::*;
use vstd::utf8::*;

verus! {

#[derive(Debug, Clone, Copy, PartialEq, Eq, Structural)]
pub enum ReportPeriod {
    Last24h,
    Last7d,
    Last30d,
}

pub open spec fn period_label(p: ReportPeriod) -> Seq<char> {
    match p {
        ReportPeriod::Last24h => "Last 24 hours"@,
        ReportPeriod::Last7d => "Last 7 days"@,
        ReportPeriod::Last30d => "Last 30 days"@,
    }
}

/// How a period is called in the name of a report, and in a request for one.
pub open spec fn period_name(p: ReportPeriod) -> Seq<char> {
    match p {
        ReportPeriod::Last24h => "24h"@,
        ReportPeriod::Last7d => "7d"@,
        ReportPeriod::Last30d => "30d"@,
    }
}

pub open spec fn period_seconds(p: ReportPeriod) -> i64 {
    match p {
        ReportPeriod::Last24h => 86400,
        ReportPeriod::Last7d => 604800,
        ReportPeriod::Last30d => 2592000,
    }
}

pub open spec fn period_bucket(p: ReportPeriod) -> i64 {
    match p {
        ReportPeriod::Last24h => 300,
        ReportPeriod::Last7d => 1800,
        ReportPeriod::Last30d => 7200,
    }
}

impl ReportPeriod {
    pub fn label(&self) -> (r: &'static str)
        ensures
            r@ == period_label(*self),
    {
        match self {
            ReportPeriod::Last24h => "Last 24 hours",
            ReportPeriod::Last7d => "Last 7 days",
            ReportPeriod::Last30d => "Last 30 days",
        }
    }

    /// How a period is called in the name of a report, and in a request for one.
    pub fn name(&self) -> (r: &'static str)
        ensures
            r@ == period_name(*self),
    {
        match self {
            ReportPeriod::Last24h => "24h",
            ReportPeriod::Last7d => "7d",
            ReportPeriod::Last30d => "30d",
        }
    }

    /// How many seconds the period is.
    pub fn seconds(&self) -> (r: i64)
        ensures
            r == period_seconds(*self),
    {
        match self {
            ReportPeriod::Last24h => 24 * 3600,
            ReportPeriod::Last7d => 7 * 24 * 3600,
            ReportPeriod::Last30d => 30 * 24 * 3600,
        }
    }

    /// Over how many seconds readings are averaged: over more in a longer period, so that no
    /// report has too many rows.
    pub fn bucket_seconds(&self) -> (r: i64)
        ensures
            r == period_bucket(*self),
    {
        match self {
            ReportPeriod::Last24h => 300,
            ReportPeriod::Last7d => 1800,
            ReportPeriod::Last30d => 7200,
        }
    }
}

/// A report has a row for each full bucket of its period, and no period has more than a few
/// hundred.
pub proof fn law_reports_are_small(p: ReportPeriod)
    ensures
        period_seconds(p) % period_bucket(p) == 0,
        period_seconds(p) / period_bucket(p) <= 360,
{
}

pub open spec fn period_of(name: Seq<char>) -> Option<ReportPeriod> {
    if name == "24h"@ {
        Some(ReportPeriod::Last24h)
    } else if name == "7d"@ {
        Some(ReportPeriod::Last7d)
    } else if name == "30d"@ {
        Some(ReportPeriod::Last30d)
    } else {
        None
    }
}

/// The period that a request names.
pub fn parse_period(name: &str) -> (r: Result<ReportPeriod, String>)
    ensures
        match r {
            Ok(p) => period_of(name@) == Some(p),
            Err(e) => period_of(name@) is None && e@ == "unknown report period: "@ + name@,
        },
{
    if text::same_str(name, "24h") {
        Ok(ReportPeriod::Last24h)
    } else if text::same_str(name, "7d") {
        Ok(ReportPeriod::Last7d)
    } else if text::same_str(name, "30d") {
        Ok(ReportPeriod::Last30d)
    } else {
        let mut out: Vec<char> = Vec::new();
        text::put_str(&mut out, "unknown report period: ");
        text::put_str(&mut out, name);
        assert(out@ =~= "unknown report period: "@ + name@);
        Err(text::string_of(out.as_slice()))
    }
}

/// Each period is found under its name.
pub proof fn law_period_is_found_by_name(p: ReportPeriod)
    ensures
        period_of(period_name(p)) == Some(p),
{
    reveal_strlit("24h");
    reveal_strlit("7d");
    reveal_strlit("30d");
    assert("24h"@[0] != "7d"@[0]);
    assert("24h"@[0] != "30d"@[0]);
    assert("7d"@[0] != "30d"@[0]);
}

/// Where reports are kept.
pub fn reports_dir(data_dir: &[u8]) -> (r: Vec<u8>)
    ensures
        r@ == paths::entry(data_dir@, "reports"@),
{
    paths::join(data_dir, "reports")
}

pub open spec fn file_name_of(p: ReportPeriod, stamp: Seq<char>) -> Seq<char> {
    "network-report-"@ + period_name(p) + seq!['-'] + stamp + ".csv"@
}

/// The name of a report made at a time, which is given as digits.
pub fn report_file_name(period: ReportPeriod, stamp: &str) -> (r: String)
    ensures
        r@ == file_name_of(period, stamp@),
{
    let mut out: Vec<char> = Vec::new();
    text::put_str(&mut out, "network-report-");
    text::put_str(&mut out, period.name());
    out.push('-');
    text::put_str(&mut out, stamp);
    text::put_str(&mut out, ".csv");
    assert(out@ =~= file_name_of(period, stamp@));
    text::string_of(out.as_slice())
}

/// A row of a report: its time, and the numbers that are known, as text.
#[derive(Debug, Clone)]
pub struct CsvRow {
    pub timestamp: String,
    pub download_rate: Option<String>,
    pub upload_rate: Option<String>,
    pub latency_ms: Option<String>,
}

#[verifier::ext_equal]
pub struct CsvView {
    pub timestamp: Seq<char>,
    pub download_rate: Option<Seq<char>>,
    pub upload_rate: Option<Seq<char>>,
    pub latency_ms: Option<Seq<char>>,
}

impl View for CsvRow {
    type V = CsvView;

    open spec fn view(&self) -> CsvView {
        CsvView {
            timestamp: self.timestamp@,
            download_rate: chars::opt_text(self.download_rate),
            upload_rate: chars::opt_text(self.upload_rate),
            latency_ms: chars::opt_text(self.latency_ms),
        }
    }
}

pub open spec fn csv_views(v: Seq<CsvRow>) -> Seq<CsvView> {
    v.map_values(|r: CsvRow| r@)
}

pub open spec fn or_empty(s: Option<Seq<char>>) -> Seq<char> {
    match s {
        Some(t) => t,
        None => seq![],
    }
}

/// A row as a line: four fields with commas between them, unknown ones empty.
pub open spec fn line_of(r: CsvView) -> Seq<char> {
    r.timestamp + seq![','] + or_empty(r.download_rate) + seq![','] + or_empty(r.upload_rate) + seq![','] + or_empty(
        r.latency_ms,
    ) + seq!['\n']
}

/// The first line of a report.
pub const CSV_HEADER: &'static str = "timestamp,download_bytes_per_sec,upload_bytes_per_sec,latency_ms\n";

/// A report: its header and a line for each row.
pub open spec fn csv_of(rows: Seq<CsvView>) -> Seq<char>
    decreases rows.len(),
{
    if rows.len() == 0 {
        CSV_HEADER@
    } else {
        csv_of(rows.drop_last()) + line_of(rows.last())
    }
}

fn put_opt(out: &mut Vec<char>, s: &Option<String>)
    ensures
        final(out)@ == old(out)@ + or_empty(chars::opt_text(*s)),
{
    match s {
        Some(t) => text::put_str(out, t.as_str()),
        None => {
            assert(out@ + Seq::<char>::empty() =~= out@);
        },
    }
}

/// The contents of a report.
pub fn csv_text(rows: &Vec<CsvRow>) -> (r: String)
    ensures
        r@ == csv_of(csv_views(rows@)),
{
    let ghost all = csv_views(rows@);
    let mut out: Vec<char> = Vec::new();
    text::put_str(&mut out, CSV_HEADER);
    assert(out@ =~= csv_of(all.take(0)));
    let mut i: usize = 0;
    while i < rows.len()
        invariant
            i <= rows@.len(),
            all == csv_views(rows@),
            out@ == csv_of(all.take(i as int)),
        decreases rows.len() - i,
    {
        let ghost before = out@;
        let row: &CsvRow = &rows[i];
        proof {
            assert(all[i as int] == row@);
            assert(all.take(i + 1).drop_last() =~= all.take(i as int));
        }
        text::put_str(&mut out, row.timestamp.as_str());
        out.push(',');
        put_opt(&mut out, &row.download_rate);
        out.push(',');
        put_opt(&mut out, &row.upload_rate);
        out.push(',');
        put_opt(&mut out, &row.latency_ms);
        out.push('\n');
        assert(out@ =~= before + line_of(row@));
        i += 1;
    }
    assert(all.take(all.len() as int) =~= all);
    text::string_of(out.as_slice())
}

/// A file among the reports. The time it was last written is in nanoseconds.
#[derive(Debug, Clone)]
pub struct ReportEntry {
    pub file_name: Vec<u8>,
    pub name: String,
    pub path: String,
    pub size_bytes: u64,
    pub modified: Option<i128>,
}

/// What follows the last dot of a file name; a dot at the front begins no ending.
pub open spec fn extension_of(name: Seq<u8>) -> Option<Seq<u8>> {
    match paths::last_of(name, DOT) {
        Some(k) => if k == 0 {
            None
        } else {
            Some(name.skip(k + 1))
        },
        None => None,
    }
}

pub const DOT: u8 = 46;

/// Whether a file is a report: its name ends in `.csv`.
pub open spec fn is_report(e: ReportEntry) -> bool {
    extension_of(e.file_name@) == Some(seq![99u8, 115, 118])
}

/// By what reports are put in order: one that tells no time comes last.
pub open spec fn age_key(e: ReportEntry) -> i128 {
    match e.modified {
        Some(t) => t,
        None => i128::MIN,
    }
}

/// The reports among the files, the newest first.
pub open spec fn reports_of(found: Seq<ReportEntry>) -> Seq<ReportEntry> {
    let kept = found.filter(|e: ReportEntry| is_report(e));
    order::arranged(kept, kept.map_values(|e: ReportEntry| age_key(e)))
}

/// Whether the name of a file ends in `.csv`.
pub fn has_csv_extension(name: &[u8]) -> (r: bool)
    ensures
        r == (extension_of(name@) == Some(seq![99u8, 115, 118])),
{
    match paths::find_last(name, DOT) {
        Some(k) => {
            if k == 0 {
                return false;
            }
            let csv: Vec<u8> = vec![99, 115, 118];
            assert(csv@ =~= seq![99u8, 115, 118]);
            assert(k < name.len());
            let ending: &[u8] = vstd::slice::slice_subrange(name, k + 1, name.len());
            assert(ending@ =~= name@.skip(k + 1));
            paths::same_bytes(ending, csv.as_slice())
        },
        None => false,
    }
}

/// The reports among the files that were found, the newest first.
pub fn list_reports(found: Vec<ReportEntry>) -> (r: Vec<ReportEntry>)
    ensures
        r@ == reports_of(found@),
{
    let ghost all = found@;
    let ghost keep = |e: ReportEntry| is_report(e);
    let mut kept: Vec<ReportEntry> = Vec::new();
    let mut keys: Vec<i128> = Vec::new();
    assert(all.take(0).filter(keep) =~= seq![]) by {
        reveal(Seq::filter);
    }
    for e in it: found
        invariant
            it.seq() == all,
            keep == (|e: ReportEntry| is_report(e)),
            kept@ == all.take(it.index() as int).filter(keep),
            keys@ == kept@.map_values(|e: ReportEntry| age_key(e)),
    {
        let ghost n = it.index() as int;
        let ghost before = kept@;
        proof {
            assert(all.take(n + 1).drop_last() =~= all.take(n));
            assert(all.take(n + 1).last() == e);
            reveal(Seq::filter);
        }
        if has_csv_extension(e.file_name.as_slice()) {
            let key: i128 = match e.modified {
                Some(t) => t,
                None => i128::MIN,
            };
            assert(all.take(n + 1).filter(keep) =~= before.push(e));
            keys.push(key);
            kept.push(e);
            assert(keys@ =~= kept@.map_values(|e: ReportEntry| age_key(e)));
        } else {
            assert(all.take(n + 1).filter(keep) =~= before);
        }
    }
    assert(all.take(all.len() as int) =~= all);
    order::arrange(kept, &keys)
}

/// No report comes before a newer one.
pub proof fn law_newest_report_first(found: Seq<ReportEntry>, i: int, j: int)
    requires
        0 <= i <= j < reports_of(found).len(),
    ensures
        age_key(reports_of(found)[i]) >= age_key(reports_of(found)[j]),
{
    let kept = found.filter(|e: ReportEntry| is_report(e));
    let keys = kept.map_values(|e: ReportEntry| age_key(e));
    order::law_arranged_descends(keys, i, j);
    order::law_arranged_keeps_rows(kept, keys, i);
    order::law_arranged_keeps_rows(kept, keys, j);
}

proof fn lemma_kept_was_found(found: Seq<ReportEntry>, i: int)
    requires
        0 <= i < found.filter(|e: ReportEntry| is_report(e)).len(),
    ensures
        found.contains(found.filter(|e: ReportEntry| is_report(e))[i]),
    decreases found.len(),
{
    reveal(Seq::filter);
    let keep = |e: ReportEntry| is_report(e);
    let rest = found.drop_last();
    let some = rest.filter(keep);
    let e = found.filter(keep)[i];
    if i < some.len() {
        assert(e == some[i]);
        lemma_kept_was_found(rest, i);
        let k = choose|k: int| 0 <= k < rest.len() && rest[k] == e;
        assert(found[k] == e);
    } else {
        assert(found[found.len() - 1] == e);
    }
}

/// What is listed was found, and is a report.
pub proof fn law_only_reports_are_listed(found: Seq<ReportEntry>, i: int)
    requires
        0 <= i < reports_of(found).len(),
    ensures
        is_report(reports_of(found)[i]),
        found.contains(reports_of(found)[i]),
{
    let keep = |e: ReportEntry| is_report(e);
    let kept = found.filter(keep);
    let keys = kept.map_values(|e: ReportEntry| age_key(e));
    order::law_arranged_keeps_rows(kept, keys, i);
    let k = order::rank(keys)[i];
    found.lemma_filter_pred(keep, k);
    lemma_kept_was_found(found, k);
}

/// Every report that was found is listed.
pub proof fn law_every_report_is_listed(found: Seq<ReportEntry>, i: int)
    requires
        0 <= i < found.len(),
        is_report(found[i]),
    ensures
        reports_of(found).contains(found[i]),
{
    let keep = |e: ReportEntry| is_report(e);
    let kept = found.filter(keep);
    let keys = kept.map_values(|e: ReportEntry| age_key(e));
    found.lemma_filter_contains(keep, i);
    let k = choose|k: int| 0 <= k < kept.len() && kept[k] == found[i];
    order::law_arranged_keeps_rows(kept, keys, k);
    let at = choose|at: int|
        0 <= at < kept.len() && #[trigger] order::rank(keys)[at] == k && order::arranged(kept, keys)[at] == kept[k];
    assert(reports_of(found)[at] == found[i]);
}

pub open spec fn refused() -> Seq<char> {
    "refusing to delete a path outside the reports directory"@
}

/// Whether a file may be deleted.
pub open spec fn may_be_deleted(dir: Seq<u8>, target: Seq<u8>) -> bool {
    paths::parent_of(target) == Some(dir)
}

/// What stands in the directory of the reports itself may be deleted; what stands in a directory
/// below it may not, and neither may the directory itself.
pub proof fn law_only_direct_entries_may_be_deleted(dir: Seq<u8>, sub: Seq<u8>, name: Seq<u8>)
    requires
        dir.len() > 0,
        dir.last() != 47u8,
        sub.len() > 0,
        !sub.contains(47u8),
        name.len() > 0,
        !name.contains(47u8),
    ensures
        may_be_deleted(dir, dir + seq![47u8] + name),
        !may_be_deleted(dir, dir + seq![47u8] + sub + seq![47u8] + name),
        !may_be_deleted(dir, dir),
{
    let inner = dir + seq![47u8] + sub;
    assert(inner.last() == sub[sub.len() - 1]);
    assert(sub.contains(sub[sub.len() - 1]));
    paths::law_parent_of_entry(dir, name);
    paths::law_parent_of_entry(inner, name);
    assert(inner.len() != dir.len());
    paths::lemma_last_of(dir, 47u8);
    if paths::parent_of(dir) == Some(dir) {
        let k = paths::last_of(dir, 47u8)->Some_0;
        assert(k < dir.len());
    }
}

/// Whether a file may be deleted: it must stand in the directory of the reports itself. Both
/// paths are absolute, with all links followed.
pub fn check_deletion(dir: &[u8], target: &[u8]) -> (r: Result<(), String>)
    ensures
        r is Ok == may_be_deleted(dir@, target@),
        match r {
            Ok(_) => paths::parent_of(target@) == Some(dir@),
            Err(e) => paths::parent_of(target@) != Some(dir@) && e@ == refused(),
        },
{
    match paths::parent(target) {
        Some(p) => if paths::same_bytes(p.as_slice(), dir) {
            Ok(())
        } else {
            Err("refusing to delete a path outside the reports directory".to_string())
        },
        None => Err("refusing to delete a path outside the reports directory".to_string()),
    }
}

/// What is shown as the period of a report, from its name.
pub open spec fn label_in(name: Seq<char>) -> Seq<char> {
    if chars::holds_text(name, "-24h-"@) {
        "Last 24 hours"@
    } else if chars::holds_text(name, "-7d-"@) {
        "Last 7 days"@
    } else if chars::holds_text(name, "-30d-"@) {
        "Last 30 days"@
    } else {
        crate::format::UNKNOWN@
    }
}

/// What is shown as the period of a report.
pub fn report_period_label(name: &str) -> (r: &'static str)
    ensures
        r@ == label_in(name@),
{
    let cs: Vec<char> = text::chars_of(name);
    let s: &[char] = cs.as_slice();
    if text::contains(s, "-24h-") {
        "Last 24 hours"
    } else if text::contains(s, "-7d-") {
        "Last 7 days"
    } else if text::contains(s, "-30d-") {
        "Last 30 days"
    } else {
        crate::format::UNKNOWN
    }
}

/// Whether a text is a time as it is put into the name of a report: digits, with hyphens.
pub open spec fn is_stamp(stamp: Seq<char>) -> bool {
    forall|i: int| 0 <= i < stamp.len() ==> chars::is_digit(#[trigger] stamp[i]) || stamp[i] == '-'
}

/// A character of the name of a report, by where it stands.
proof fn lemma_report_char(p: ReportPeriod, stamp: Seq<char>, i: int)
    requires
        is_stamp(stamp),
        0 <= i < file_name_of(p, stamp).len(),
    ensures
        ({
            let name = file_name_of(p, stamp);
            let c = name[i];
            let n = period_name(p).len();
            &&& name.len() == 20 + n + stamp.len()
            &&& '\0' <= c <= '\u{7f}'
            &&& c != '/'
            &&& c == 'd' ==> i == 14 + n && p != ReportPeriod::Last24h
            &&& c == 'h' ==> p == ReportPeriod::Last24h
            &&& i == 14 || i == 15 + n ==> c == '-'
            &&& 15 <= i < 15 + n ==> c == period_name(p)[i - 15]
            &&& i >= name.len() - 4 ==> c == ".csv"@[i - name.len() + 4]
        }),
{
    reveal_strlit("network-report-");
    reveal_strlit("24h");
    reveal_strlit("7d");
    reveal_strlit("30d");
    reveal_strlit(".csv");
    let name = file_name_of(p, stamp);
    let n = period_name(p).len();
    if i < 15 {
        assert(name[i] == "network-report-"@[i]);
    } else if i < 15 + n {
        assert(name[i] == period_name(p)[i - 15]);
    } else if 16 + n <= i < name.len() - 4 {
        assert(name[i] == stamp[i - 16 - n]);
    }
}

/// A name in ASCII that ends in `.csv`, and is more than that, has that ending.
proof fn lemma_csv_ending(name: Seq<char>)
    requires
        name.len() > 4,
        is_ascii_chars(name),
        forall|i: int| name.len() - 4 <= i < name.len() ==> #[trigger] name[i] == ".csv"@[i - name.len() + 4],
    ensures
        extension_of(encode_utf8(name)) == Some(seq![99u8, 115, 118]),
{
    let b = encode_utf8(name);
    let at = name.len() - 4;
    is_ascii_chars_encode_utf8(name);
    reveal_strlit(".csv");
    assert(name[at] == '.' && name[at + 1] == 'c' && name[at + 2] == 's' && name[at + 3] == 'v');
    assert(b[at] == DOT && b[at + 1] == 99u8 && b[at + 2] == 115u8 && b[at + 3] == 118u8);
    paths::lemma_last_of(b, DOT);
    assert(b.skip(at + 1) =~= seq![99u8, 115, 118]);
}

/// A report that was made is listed: its name ends as that of a report.
pub proof fn law_made_report_is_listed(p: ReportPeriod, stamp: Seq<char>)
    requires
        is_stamp(stamp),
    ensures
        extension_of(encode_utf8(file_name_of(p, stamp))) == Some(seq![99u8, 115, 118]),
{
    let name = file_name_of(p, stamp);
    reveal_strlit(".csv");
    assert forall|i: int| 0 <= i < name.len() implies '\0' <= #[trigger] name[i] <= '\u{7f}' && (i >= name.len() - 4
        ==> name[i] == ".csv"@[i - name.len() + 4]) by {
        lemma_report_char(p, stamp, i);
    }
    lemma_report_char(p, stamp, 0);
    lemma_csv_ending(name);
}

/// A report that was made may be deleted: it stands in the directory of the reports itself.
pub proof fn law_made_report_may_be_deleted(dir: Seq<u8>, p: ReportPeriod, stamp: Seq<char>)
    requires
        is_stamp(stamp),
        dir.len() > 0,
        dir.last() == paths::SEPARATOR ==> dir.len() == 1,
    ensures
        paths::parent_of(paths::entry(dir, file_name_of(p, stamp))) == Some(dir),
{
    let name = file_name_of(p, stamp);
    reveal_strlit(".csv");
    assert forall|i: int| 0 <= i < name.len() implies '\0' <= #[trigger] name[i] <= '\u{7f}' && name[i] != '/' by {
        lemma_report_char(p, stamp, i);
    }
    is_ascii_chars_encode_utf8(name);
    assert forall|i: int| 0 <= i < name.len() implies #[trigger] encode_utf8(name)[i] != paths::SEPARATOR by {
        assert(name[i] as u8 == encode_utf8(name)[i]);
    }
    paths::law_parent_of_entry(dir, encode_utf8(name));
}

/// Where a text stands at a place of a name, it is found in it.
proof fn lemma_held_at(name: Seq<char>, k: int, t: Seq<char>)
    requires
        0 <= k <= k + t.len() <= name.len(),
        forall|i: int| 0 <= i < t.len() ==> name[k + i] == #[trigger] t[i],
    ensures
        chars::holds_text(name, t),
{
    chars::lemma_find_at(name, t);
    assert(name.skip(k).take(t.len() as int) =~= t);
    assert(chars::starts(name.skip(k), t));
}

/// Where a text is found in a name, it stands at some place of it.
proof fn lemma_held_where(name: Seq<char>, t: Seq<char>) -> (k: int)
    requires
        chars::holds_text(name, t),
    ensures
        0 <= k <= k + t.len() <= name.len(),
        forall|i: int| 0 <= i < t.len() ==> name[k + i] == #[trigger] t[i],
{
    chars::lemma_find_at(name, t);
    let k = chars::find_at(name, t)->Some_0;
    assert forall|i: int| 0 <= i < t.len() implies name[k + i] == #[trigger] t[i] by {
        assert(name.skip(k).take(t.len() as int)[i] == name[k + i]);
    }
    k
}

/// A report that was made is shown with the period it was made for.
pub proof fn law_made_report_is_labelled(p: ReportPeriod, stamp: Seq<char>)
    requires
        is_stamp(stamp),
    ensures
        label_in(file_name_of(p, stamp)) == period_label(p),
{
    let name = file_name_of(p, stamp);
    let n = period_name(p).len() as int;
    reveal_strlit("24h");
    reveal_strlit("7d");
    reveal_strlit("30d");
    reveal_strlit("-24h-");
    reveal_strlit("-7d-");
    reveal_strlit("-30d-");
    reveal_strlit("network-report-");
    reveal_strlit(".csv");
    lemma_report_char(p, stamp, 14);
    lemma_report_char(p, stamp, 15);
    lemma_report_char(p, stamp, 16);
    lemma_report_char(p, stamp, 17);
    lemma_report_char(p, stamp, 15 + n);
    if p != ReportPeriod::Last24h && chars::holds_text(name, "-24h-"@) {
        let k = lemma_held_where(name, "-24h-"@);
        lemma_report_char(p, stamp, k + 3);
        assert(name[k + 3] == "-24h-"@[3]);
    }
    if p == ReportPeriod::Last30d && chars::holds_text(name, "-7d-"@) {
        let k = lemma_held_where(name, "-7d-"@);
        lemma_report_char(p, stamp, k + 2);
        assert(name[k + 2] == "-7d-"@[2]);
        assert(name[k + 1] == "-7d-"@[1]);
    }
    match p {
        ReportPeriod::Last24h => lemma_held_at(name, 14, "-24h-"@),
        ReportPeriod::Last7d => lemma_held_at(name, 14, "-7d-"@),
        ReportPeriod::Last30d => lemma_held_at(name, 14, "-30d-"@),
    }
}


/// The periods are of one, seven and thirty days, and are called by that.
pub proof fn law_periods_are_of_days(p: ReportPeriod)
    ensures
        p == ReportPeriod::Last24h ==> period_seconds(p) == 24 * 60 * 60 && period_label(p) == "Last 24 hours"@
            && period_name(p) == "24h"@ && period_bucket(p) == 5 * 60,
        p == ReportPeriod::Last7d ==> period_seconds(p) == 7 * 24 * 60 * 60 && period_label(p) == "Last 7 days"@
            && period_name(p) == "7d"@ && period_bucket(p) == 30 * 60,
        p == ReportPeriod::Last30d ==> period_seconds(p) == 30 * 24 * 60 * 60 && period_label(p) == "Last 30 days"@
            && period_name(p) == "30d"@ && period_bucket(p) == 2 * 60 * 60,
{
}

/// Only the names of the periods name one.
pub proof fn law_other_names_name_no_period(name: Seq<char>)
    ensures
        period_of(name) matches Some(p) ==> period_name(p) == name,
        period_of(name) is None <==> name != "24h"@ && name != "7d"@ && name != "30d"@,
{
}

/// A report has its header, and below it a line for each row, in order: the time and the three
/// numbers with commas between them, and nothing between the commas for one that is not known.
pub proof fn law_report_has_a_line_for_each_row(rows: Seq<CsvView>, r: CsvView, d: Seq<char>, u: Seq<char>, l: Seq<char>)
    requires
        r.download_rate == Some(d) || (r.download_rate is None && d.len() == 0),
        r.upload_rate == Some(u) || (r.upload_rate is None && u.len() == 0),
        r.latency_ms == Some(l) || (r.latency_ms is None && l.len() == 0),
    ensures
        csv_of(seq![]) == "timestamp,download_bytes_per_sec,upload_bytes_per_sec,latency_ms\n"@,
        csv_of(rows.push(r)) == csv_of(rows) + (r.timestamp + seq![','] + d + seq![','] + u + seq![','] + l + seq!['\n']),
{
    assert(rows.push(r).drop_last() =~= rows);
    assert(line_of(r) =~= r.timestamp + seq![','] + d + seq![','] + u + seq![','] + l + seq!['\n']);
}

/// The ending of a file name is what stands behind its last dot, unless that dot comes first; a
/// name without a dot has none.
pub proof fn law_ending_is_behind_the_last_dot(stem: Seq<u8>, ending: Seq<u8>)
    requires
        !ending.contains(46u8),
    ensures
        stem.len() > 0 ==> extension_of(stem + seq![46u8] + ending) == Some(ending),
        extension_of(seq![46u8] + ending) is None,
        extension_of(ending) is None,
{
    let name = stem + seq![46u8] + ending;
    let n = stem.len() as int;
    paths::lemma_last_of(name, DOT);
    assert(name[n] == 46u8);
    assert forall|i: int| n < i < name.len() implies #[trigger] name[i] != 46u8 by {
        assert(ending.contains(ending[i - n - 1]));
    }
    assert(name.skip(n + 1) =~= ending);
    let hidden = seq![46u8] + ending;
    paths::lemma_last_of(hidden, DOT);
    assert(hidden[0] == 46u8);
    assert forall|i: int| 0 < i < hidden.len() implies #[trigger] hidden[i] != 46u8 by {
        assert(ending.contains(ending[i - 1]));
    }
    paths::lemma_last_of(ending, DOT);
    if paths::last_of(ending, DOT) is Some {
        let k = paths::last_of(ending, DOT)->Some_0;
        assert(ending.contains(ending[k]));
    }
}

/// Of two listed reports the one listed first was not written before the other, and one that
/// tells no time comes behind every one that does.
pub proof fn law_listed_by_time(found: Seq<ReportEntry>, i: int, j: int)
    requires
        0 <= i < j < reports_of(found).len(),
    ensures
        match (reports_of(found)[i].modified, reports_of(found)[j].modified) {
            (Some(a), Some(b)) => a >= b,
            (None, Some(b)) => b == i128::MIN,
            _ => true,
        },
{
    law_newest_report_first(found, i, j);
}

/// There are as many reports as there were files that are reports.
pub proof fn law_no_report_is_listed_twice(found: Seq<ReportEntry>, e: ReportEntry)
    ensures
        reports_of(seq![]).len() == 0,
        is_report(e) ==> reports_of(found.push(e)).len() == reports_of(found).len() + 1,
        !is_report(e) ==> reports_of(found.push(e)).len() == reports_of(found).len(),
        is_report(e) <==> extension_of(e.file_name@) == Some(seq!['c' as u8, 's' as u8, 'v' as u8]),
{
    reveal(Seq::filter);
    assert(found.push(e).drop_last() =~= found);
    assert(seq!['c' as u8, 's' as u8, 'v' as u8] =~= seq![99u8, 115, 118]);
}

/// The period of a report is told by the first of the three that its name holds between hyphens;
/// a name that holds none tells none.
pub proof fn law_period_is_told_by_the_name(front: Seq<char>, back: Seq<char>, other: Seq<char>)
    requires
        !chars::holds_text(other, "-24h-"@),
        !chars::holds_text(other, "-7d-"@),
        !chars::holds_text(other, "-30d-"@),
    ensures
        label_in(front + "-24h-"@ + back) == "Last 24 hours"@,
        !chars::holds_text(front + "-7d-"@ + back, "-24h-"@) ==> label_in(front + "-7d-"@ + back) == "Last 7 days"@,
        !chars::holds_text(front + "-30d-"@ + back, "-24h-"@) && !chars::holds_text(front + "-30d-"@ + back, "-7d-"@)
            ==> label_in(front + "-30d-"@ + back) == "Last 30 days"@,
        label_in(other) == "—"@,
{
    chars::law_held_text_stands_somewhere(front + "-24h-"@ + back, "-24h-"@);
    chars::law_held_text_stands_somewhere(front + "-7d-"@ + back, "-7d-"@);
    chars::law_held_text_stands_somewhere(front + "-30d-"@ + back, "-30d-"@);
}


/// The name of a report tells its period and then its time.
pub proof fn law_name_tells_period_and_time(p: ReportPeriod, stamp: Seq<char>)
    ensures
        chars::starts(file_name_of(p, stamp), "network-report-"@ + period_name(p) + seq!['-']),
        chars::ends(file_name_of(p, stamp), seq!['-'] + stamp + ".csv"@),
        file_name_of(p, stamp).len() == "network-report-"@.len() + period_name(p).len() + 1 + stamp.len() + ".csv"@.len(),
{
    let name = file_name_of(p, stamp);
    let a = "network-report-"@ + period_name(p) + seq!['-'];
    let b = seq!['-'] + stamp + ".csv"@;
    assert(name.take(a.len() as int) =~= a);
    assert(name.skip(name.len() - b.len()) =~= b);
}

} // verus!

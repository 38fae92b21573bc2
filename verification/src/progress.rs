//! Saved download progress: the record of each segment, the text of the
//! progress file (one `offset size progress` line per segment, in ascending
//! offset order), reading that text back, and the manager that keeps it current.

use std::collections::HashMap;
use itertools::Itertools;
use vstd::prelude::*;
use crate::decimal::{decimal, is_digit, lemma_decimal_shape, lemma_parse_decimal, parse_u64, parse_u64_spec, render_u64};
use crate::text::{
    chars_of, is_whitespace, join_chars, join_with, lemma_lines_of_join, lemma_split_concat,
    lemma_split_single, lemma_trim_unchanged, lines_chars, lines_of, pieces_view, split_chars,
    split_on, string_of, trim, trim_chars,
};

verus! {

broadcast use vstd::std_specs::hash::group_hash_axioms;

/// How far the download of one segment of the file has come.
#[derive(Debug, Clone, Copy, PartialEq, Eq, Structural)]
pub struct SegmentDownloadProgress {
    /// Byte position of the segment in the file.
    pub offset: u64,
    /// Length of the segment in bytes.
    pub size: u64,
    /// Bytes of the segment received so far.
    pub progress: u64,
}

/// A message to the task that saves progress.
#[derive(Debug, Clone, Copy)]
pub enum ProgressManagerCommand {
    /// A segment has advanced.
    UpdateProgress(SegmentDownloadProgress),
    /// The download is over.
    Stop,
}

/// The progress table: segment records keyed by their offset.
pub type ProgressTable = HashMap<u64, SegmentDownloadProgress>;

/// Every record of `m` sits under its own offset.
pub open spec fn keyed_by_offset(m: Map<u64, SegmentDownloadProgress>) -> bool {
    forall|k: u64| m.contains_key(k) ==> (#[trigger] m[k]).offset == k
}

/// The line that stands for one record: `offset size progress`.
pub open spec fn record_line(p: SegmentDownloadProgress) -> Seq<char> {
    decimal(p.offset as nat) + seq![' '] + decimal(p.size as nat) + seq![' '] + decimal(
        p.progress as nat,
    )
}

/// The record a line of the progress file stands for, if it is well formed:
/// trimmed, split at single spaces, exactly three words, each a `u64` once trimmed.
pub open spec fn parse_line_spec(line: Seq<char>) -> Option<SegmentDownloadProgress> {
    let words = split_on(trim(line), ' ');
    if words.len() == 3 && parse_u64_spec(trim(words[0])) is Ok && parse_u64_spec(
        trim(words[1]),
    ) is Ok && parse_u64_spec(trim(words[2])) is Ok {
        Some(
            SegmentDownloadProgress {
                offset: parse_u64_spec(trim(words[0]))->Ok_0,
                size: parse_u64_spec(trim(words[1]))->Ok_0,
                progress: parse_u64_spec(trim(words[2]))->Ok_0,
            },
        )
    } else {
        None
    }
}

/// The table that reading `lines` in order builds: each well-formed line puts its
/// record under its offset, replacing an earlier one.
pub open spec fn table_from_lines(lines: Seq<Seq<char>>) -> Map<u64, SegmentDownloadProgress>
    decreases lines.len(),
{
    if lines.len() == 0 {
        Map::empty()
    } else {
        let before = table_from_lines(lines.drop_last());
        match parse_line_spec(lines.last()) {
            Some(p) => before.insert(p.offset, p),
            None => before,
        }
    }
}

/// The lines of `lines` that are not well formed, in order.
pub open spec fn rejected_lines(lines: Seq<Seq<char>>) -> Seq<Seq<char>>
    decreases lines.len(),
{
    if lines.len() == 0 {
        Seq::empty()
    } else {
        let before = rejected_lines(lines.drop_last());
        match parse_line_spec(lines.last()) {
            Some(_) => before,
            None => before.push(lines.last()),
        }
    }
}

/// The text of a progress file holding `records` in this order.
pub open spec fn render_records(records: Seq<SegmentDownloadProgress>) -> Seq<char> {
    join_with(records.map_values(|p: SegmentDownloadProgress| record_line(p)), seq!['\n'])
}

/// Strictly ascending offsets.
pub open spec fn ascending(ks: Seq<u64>) -> bool {
    forall|i: int, j: int| 0 <= i < j < ks.len() ==> ks[i] < ks[j]
}

/// `text` is the progress file of table `m`: its records, one per line,
/// in ascending order of offset.
pub open spec fn renders_table(text: Seq<char>, m: Map<u64, SegmentDownloadProgress>) -> bool {
    exists|ks: Seq<u64>|
        ascending(ks) && ks.to_set() == m.dom() && text == render_records(
            ks.map_values(|k: u64| m[k]),
        )
}

/// The views of a sequence of strings.
pub open spec fn strings_view(v: Seq<String>) -> Seq<Seq<char>> {
    Seq::new(v.len(), |i: int| v[i]@)
}

/// What reading a progress file gives: the table, and the lines that were skipped.
pub struct ParsedProgress {
    /// Records by offset.
    pub table: ProgressTable,
    /// Lines that are not of the form `offset size progress`.
    pub rejected: Vec<String>,
}

/// The record that `line` stands for, if it is well formed.
pub fn parse_line(line: &[char]) -> (r: Option<SegmentDownloadProgress>)
    ensures
        r == parse_line_spec(line@),
{
    let trimmed = trim_chars(line);
    let words = split_chars(&trimmed, ' ');
    if words.len() != 3 {
        return None;
    }
    let w0 = trim_chars(&words[0]);
    let w1 = trim_chars(&words[1]);
    let w2 = trim_chars(&words[2]);
    let r0 = parse_u64(&w0);
    let r1 = parse_u64(&w1);
    let r2 = parse_u64(&w2);
    match (r0, r1, r2) {
        (Ok(offset), Ok(size), Ok(progress)) => Some(SegmentDownloadProgress { offset, size, progress }),
        _ => None,
    }
}

/// Reads the text of a progress file.
pub fn parse_progress(text: &str) -> (r: ParsedProgress)
    ensures
        r.table@ == table_from_lines(lines_of(text@)),
        strings_view(r.rejected@) == rejected_lines(lines_of(text@)),
{
    let chars = chars_of(text);
    let lines = lines_chars(&chars);
    let ghost lv = pieces_view(lines@);
    let mut table: ProgressTable = HashMap::new();
    let mut rejected: Vec<String> = Vec::new();
    for i in 0..lines.len()
        invariant
            lv == pieces_view(lines@),
            lv == lines_of(text@),
            table@ == table_from_lines(lv.take(i as int)),
            strings_view(rejected@) == rejected_lines(lv.take(i as int)),
    {
        assert(lv.take(i + 1).drop_last() =~= lv.take(i as int));
        assert(lv.take(i + 1).last() == lines@[i as int]@);
        match parse_line(&lines[i]) {
            Some(p) => {
                table.insert(p.offset, p);
            },
            None => {
                let ghost before = strings_view(rejected@);
                rejected.push(string_of(&lines[i]));
                assert(strings_view(rejected@) =~= before.push(lines@[i as int]@));
            },
        }
    }
    assert(lv.take(lv.len() as int) =~= lv);
    ParsedProgress { table, rejected }
}

/// The offsets of `keys` in ascending order (`Itertools::sorted`, which collects
/// the items into a vector and sorts it): a sorted permutation of `keys`.
#[verifier::external_body]
fn sorted_offsets(keys: Vec<u64>) -> (r: Vec<u64>)
    ensures
        r@.to_multiset() == keys@.to_multiset(),
        forall|i: int, j: int| 0 <= i < j < r@.len() ==> r@[i] <= r@[j],
{
    keys.into_iter().sorted().collect()
}

/// The line that stands for `p`.
pub fn render_record(p: &SegmentDownloadProgress) -> (line: Vec<char>)
    ensures
        line@ == record_line(*p),
{
    let mut line = render_u64(p.offset);
    line.push(' ');
    let mut size = render_u64(p.size);
    line.append(&mut size);
    line.push(' ');
    let mut progress = render_u64(p.progress);
    line.append(&mut progress);
    line
}

proof fn lemma_sorted_distinct(ks: Seq<u64>, r: Seq<u64>)
    requires
        ks.no_duplicates(),
        r.to_multiset() == ks.to_multiset(),
        forall|i: int, j: int| 0 <= i < j < r.len() ==> r[i] <= r[j],
    ensures
        ascending(r),
        r.to_set() == ks.to_set(),
{
    broadcast use vstd::seq_lib::group_to_multiset_ensures;
    ks.lemma_multiset_has_no_duplicates();
    r.lemma_multiset_has_no_duplicates_conv();
    assert forall|x: u64| r.to_set().contains(x) <==> ks.to_set().contains(x) by {
        assert(r.contains(x) <==> r.to_multiset().count(x) > 0);
        assert(ks.contains(x) <==> ks.to_multiset().count(x) > 0);
    }
    assert(r.to_set() =~= ks.to_set());
}

/// The text of the progress file for `table`.
pub fn format_progress(table: &ProgressTable) -> (text: String)
    ensures
        renders_table(text@, table@),
{
    let mut keys: Vec<u64> = Vec::new();
    for k in it: table.keys()
        invariant
            keys@ == it.seq().unref().take(it.index()),
            it.seq().unref().to_set() == table@.dom(),
            it.seq().unref().no_duplicates(),
            it.index() == it.seq().len() ==> keys@ == it.seq().unref(),
    {
        let ghost before = keys@;
        keys.push(*k);
        assert(keys@ =~= it.seq().unref().take(it.index() + 1));
    }
    assert(keys@.no_duplicates());
    assert(keys@.to_set() == table@.dom());
    let sorted = sorted_offsets(keys);
    proof {
        lemma_sorted_distinct(keys@, sorted@);
    }
    let ghost m = table@;
    let ghost records = sorted@.map_values(|k: u64| m[k]);
    let mut lines: Vec<Vec<char>> = Vec::new();
    for i in 0..sorted.len()
        invariant
            m == table@,
            records == sorted@.map_values(|k: u64| m[k]),
            sorted@.to_set() == m.dom(),
            pieces_view(lines@) == records.take(i as int).map_values(
                |p: SegmentDownloadProgress| record_line(p),
            ),
    {
        let k = sorted[i];
        assert(sorted@.to_set().contains(k));
        let line = match table.get(&k) {
            Some(p) => render_record(p),
            None => {
                assert(false);
                Vec::new()
            },
        };
        let ghost before = pieces_view(lines@);
        lines.push(line);
        assert(pieces_view(lines@) =~= before.push(line@));
        assert(records.take(i + 1).map_values(|p: SegmentDownloadProgress| record_line(p))
            =~= records.take(i as int).map_values(|p: SegmentDownloadProgress| record_line(p)).push(
            record_line(records[i as int]),
        ));
    }
    assert(records.take(records.len() as int) =~= records);
    let sep = vec!['\n'];
    let joined = join_chars(&lines, sep.as_slice());
    assert(sep@ =~= seq!['\n']);
    let text = string_of(joined.as_slice());
    assert(text@ == render_records(records));
    assert(ascending(sorted@) && sorted@.to_set() == m.dom() && text@ == render_records(
        sorted@.map_values(|k: u64| m[k]),
    ));
    text
}

/// The table that a sequence of records builds when each is put under its offset in turn.
pub open spec fn table_of_records(rs: Seq<SegmentDownloadProgress>) -> Map<u64, SegmentDownloadProgress>
    decreases rs.len(),
{
    if rs.len() == 0 {
        Map::empty()
    } else {
        table_of_records(rs.drop_last()).insert(rs.last().offset, rs.last())
    }
}

proof fn lemma_decimal_plain(x: u64)
    ensures
        decimal(x as nat).len() > 0,
        !is_whitespace(decimal(x as nat)[0]),
        !is_whitespace(decimal(x as nat).last()),
        !decimal(x as nat).contains(' '),
        !decimal(x as nat).contains('\n'),
        trim(decimal(x as nat)) == decimal(x as nat),
        parse_u64_spec(trim(decimal(x as nat))) == Ok::<u64, crate::decimal::ParseU64Error>(x),
{
    let d = decimal(x as nat);
    lemma_decimal_shape(x as nat);
    assert(is_digit(d[0]));
    assert(is_digit(d[d.len() - 1]));
    assert(!d.contains(' ')) by {
        if d.contains(' ') {
            let i = choose|i: int| 0 <= i < d.len() && d[i] == ' ';
            assert(is_digit(d[i]));
        }
    }
    assert(!d.contains('\n')) by {
        if d.contains('\n') {
            let i = choose|i: int| 0 <= i < d.len() && d[i] == '\n';
            assert(is_digit(d[i]));
        }
    }
    lemma_trim_unchanged(d);
    lemma_parse_decimal(x);
}

/// A record's line reads back as that record.
pub proof fn lemma_parse_record_line(p: SegmentDownloadProgress)
    ensures
        parse_line_spec(record_line(p)) == Some(p),
        record_line(p).len() > 0,
        !record_line(p).contains('\n'),
        record_line(p).last() != '\r',
{
    let a = decimal(p.offset as nat);
    let b = decimal(p.size as nat);
    let c = decimal(p.progress as nat);
    lemma_decimal_plain(p.offset);
    lemma_decimal_plain(p.size);
    lemma_decimal_plain(p.progress);
    let line = record_line(p);
    assert(line[0] == a[0]);
    assert(line.last() == c.last());
    lemma_trim_unchanged(line);
    lemma_split_concat(a + seq![' '] + b, c, ' ');
    lemma_split_concat(a, b, ' ');
    lemma_split_single(a, ' ');
    lemma_split_single(b, ' ');
    lemma_split_single(c, ' ');
    let words = split_on(line, ' ');
    assert(words =~= seq![a, b, c]);
    assert(!line.contains('\n')) by {
        if line.contains('\n') {
            let i = choose|i: int| 0 <= i < line.len() && line[i] == '\n';
            if i < a.len() {
                assert(a[i] == '\n');
            } else if i == a.len() {
            } else if i < a.len() + 1 + b.len() {
                assert(b[i - a.len() - 1] == '\n');
            } else if i == a.len() + 1 + b.len() {
            } else {
                assert(c[i - a.len() - 2 - b.len()] == '\n');
            }
        }
    }
}

/// Reading the lines of a sequence of records builds the table those records make,
/// and skips no line.
pub proof fn lemma_read_record_lines(rs: Seq<SegmentDownloadProgress>)
    ensures
        table_from_lines(rs.map_values(|p: SegmentDownloadProgress| record_line(p)))
            == table_of_records(rs),
        rejected_lines(rs.map_values(|p: SegmentDownloadProgress| record_line(p))) == Seq::<
            Seq<char>,
        >::empty(),
    decreases rs.len(),
{
    let ls = rs.map_values(|p: SegmentDownloadProgress| record_line(p));
    if rs.len() > 0 {
        lemma_read_record_lines(rs.drop_last());
        assert(ls.drop_last() =~= rs.drop_last().map_values(
            |p: SegmentDownloadProgress| record_line(p),
        ));
        lemma_parse_record_line(rs.last());
        assert(ls.last() == record_line(rs.last()));
    } else {
        assert(ls =~= Seq::<Seq<char>>::empty());
    }
}

/// Putting the records of `m` under their offsets, for the offsets `ks`, gives `m`
/// restricted to `ks`.
proof fn lemma_table_of_keyed_records(m: Map<u64, SegmentDownloadProgress>, ks: Seq<u64>)
    requires
        keyed_by_offset(m),
        forall|i: int| 0 <= i < ks.len() ==> m.contains_key(#[trigger] ks[i]),
    ensures
        table_of_records(ks.map_values(|k: u64| m[k])) == m.restrict(ks.to_set()),
    decreases ks.len(),
{
    let rs = ks.map_values(|k: u64| m[k]);
    if ks.len() == 0 {
        assert(m.restrict(ks.to_set()) =~= Map::empty());
    } else {
        let k0 = ks.drop_last();
        lemma_table_of_keyed_records(m, k0);
        assert(rs.drop_last() =~= k0.map_values(|k: u64| m[k]));
        let last = ks.last();
        assert(m.contains_key(ks[ks.len() - 1]));
        assert(rs.last().offset == last);
        assert(ks.to_set() =~= k0.to_set().insert(last)) by {
            assert forall|x: u64| ks.to_set().contains(x) <==> k0.to_set().insert(last).contains(x) by {
                if ks.contains(x) {
                    let i = choose|i: int| 0 <= i < ks.len() && ks[i] == x;
                    if i < ks.len() - 1 {
                        assert(k0[i] == x);
                    }
                }
                if k0.contains(x) {
                    let i = choose|i: int| 0 <= i < k0.len() && k0[i] == x;
                    assert(ks[i] == x);
                }
                if x == last {
                    assert(ks[ks.len() - 1] == x);
                }
            }
        }
        assert(m.restrict(k0.to_set()).insert(last, m[last]) =~= m.restrict(ks.to_set()));
    }
}

/// Reading back the progress file written for a table gives that table, and no
/// line of it is skipped (for a table whose records sit under their own offsets).
pub proof fn lemma_progress_roundtrip(m: Map<u64, SegmentDownloadProgress>, text: Seq<char>)
    requires
        keyed_by_offset(m),
        renders_table(text, m),
    ensures
        table_from_lines(lines_of(text)) == m,
        rejected_lines(lines_of(text)) == Seq::<Seq<char>>::empty(),
{
    let ks = choose|ks: Seq<u64>|
        ascending(ks) && ks.to_set() == m.dom() && text == render_records(
            ks.map_values(|k: u64| m[k]),
        );
    let rs = ks.map_values(|k: u64| m[k]);
    let ls = rs.map_values(|p: SegmentDownloadProgress| record_line(p));
    assert forall|i: int| 0 <= i < ls.len() implies !(#[trigger] ls[i]).contains('\n') && ls[i].len()
        > 0 && ls[i].last() != '\r' by {
        lemma_parse_record_line(rs[i]);
    }
    lemma_lines_of_join(ls);
    lemma_read_record_lines(rs);
    assert forall|i: int| 0 <= i < ks.len() implies m.contains_key(#[trigger] ks[i]) by {
        assert(ks.to_set().contains(ks[i]));
    }
    lemma_table_of_keyed_records(m, ks);
    assert(m.restrict(ks.to_set()) =~= m);
}

proof fn lemma_ascending_unique(a: Seq<u64>, b: Seq<u64>)
    requires
        ascending(a),
        ascending(b),
        a.to_set() == b.to_set(),
    ensures
        a == b,
    decreases a.len(),
{
    if a.len() == 0 {
        if b.len() > 0 {
            assert(b.to_set().contains(b[0]));
        }
        assert(a =~= b);
    } else if b.len() == 0 {
        assert(a.to_set().contains(a[0]));
    } else {
        // the least elements agree
        assert(b.to_set().contains(a[0]));
        assert(a.to_set().contains(b[0]));
        let i = choose|i: int| 0 <= i < b.len() && b[i] == a[0];
        let j = choose|j: int| 0 <= j < a.len() && a[j] == b[0];
        if i > 0 {
            assert(b[0] < b[i]);
            if j > 0 {
                assert(a[0] < a[j]);
            }
        }
        assert(a[0] == b[0]);
        let a1 = a.drop_first();
        let b1 = b.drop_first();
        assert forall|x: u64| a1.to_set().contains(x) <==> b1.to_set().contains(x) by {
            if a1.contains(x) {
                let k = choose|k: int| 0 <= k < a1.len() && a1[k] == x;
                assert(a[k + 1] == x);
                assert(a.to_set().contains(x));
                let l = choose|l: int| 0 <= l < b.len() && b[l] == x;
                if l == 0 {
                    assert(a[0] < a[k + 1]);
                }
                assert(b1[l - 1] == x);
            }
            if b1.contains(x) {
                let k = choose|k: int| 0 <= k < b1.len() && b1[k] == x;
                assert(b[k + 1] == x);
                assert(b.to_set().contains(x));
                let l = choose|l: int| 0 <= l < a.len() && a[l] == x;
                if l == 0 {
                    assert(b[0] < b[k + 1]);
                }
                assert(a1[l - 1] == x);
            }
        }
        assert(a1.to_set() =~= b1.to_set());
        lemma_ascending_unique(a1, b1);
        assert(a =~= seq![a[0]] + a1);
        assert(b =~= seq![b[0]] + b1);
    }
}

/// A table has exactly one progress-file text.
pub proof fn lemma_render_determined(m: Map<u64, SegmentDownloadProgress>, t1: Seq<char>, t2: Seq<char>)
    requires
        renders_table(t1, m),
        renders_table(t2, m),
    ensures
        t1 == t2,
{
    let k1 = choose|ks: Seq<u64>|
        ascending(ks) && ks.to_set() == m.dom() && t1 == render_records(
            ks.map_values(|k: u64| m[k]),
        );
    let k2 = choose|ks: Seq<u64>|
        ascending(ks) && ks.to_set() == m.dom() && t2 == render_records(
            ks.map_values(|k: u64| m[k]),
        );
    lemma_ascending_unique(k1, k2);
}

/// The name of the file that holds the progress of the download of `filename`.
pub open spec fn progress_file_spec(filename: Seq<char>) -> Seq<char> {
    filename + seq!['.', 'd', 'l', 'p', 'r', 'o', 'g', 'r', 'e', 's', 's']
}

/// `filename` followed by `.dlprogress`.
pub fn progress_file_name(filename: &str) -> (name: String)
    ensures
        name@ == progress_file_spec(filename@),
{
    let mut v = chars_of(filename);
    let suffix = vec!['.', 'd', 'l', 'p', 'r', 'o', 'g', 'r', 'e', 's', 's'];
    let mut s2 = suffix;
    v.append(&mut s2);
    let name = string_of(v.as_slice());
    assert(name@ =~= progress_file_spec(filename@));
    name
}

/// What the progress task does after a command.
pub enum ProgressAction {
    /// Write this text to the progress file.
    Save(String),
    /// Stop listening.
    Stop,
}

/// The task that keeps the progress file current while segments download.
pub struct ProgressManager {
    /// The file being downloaded.
    pub filename: String,
    /// The latest record of each segment.
    pub table: ProgressTable,
}

impl ProgressManager {
    /// A manager for `filename` that starts from `initial`.
    pub fn new(filename: &str, initial: ProgressTable) -> (r: Self)
        ensures
            r.filename@ == filename@,
            r.table@ == initial@,
    {
        ProgressManager { filename: filename.to_owned(), table: initial }
    }

    /// The file the progress is saved to.
    pub fn progress_file(&self) -> (name: String)
        ensures
            name@ == progress_file_spec(self.filename@),
    {
        progress_file_name(self.filename.as_str())
    }

    /// Handles one command: an update replaces the record of its segment and asks
    /// for the whole table to be saved; `Stop` ends the task.
    pub fn handle(&mut self, command: ProgressManagerCommand) -> (action: ProgressAction)
        ensures
            final(self).filename == old(self).filename,
            match command {
                ProgressManagerCommand::UpdateProgress(p) => {
                    &&& final(self).table@ == old(self).table@.insert(p.offset, p)
                    &&& action matches ProgressAction::Save(text) && renders_table(
                        text@,
                        final(self).table@,
                    )
                },
                ProgressManagerCommand::Stop => {
                    &&& final(self).table@ == old(self).table@
                    &&& action is Stop
                },
            },
    {
        match command {
            ProgressManagerCommand::UpdateProgress(p) => {
                self.table.insert(p.offset, p);
                ProgressAction::Save(format_progress(&self.table))
            },
            ProgressManagerCommand::Stop => ProgressAction::Stop,
        }
    }
}

/// An update keeps every record under its own offset.
pub proof fn lemma_update_keeps_keying(m: Map<u64, SegmentDownloadProgress>, p: SegmentDownloadProgress)
    requires
        keyed_by_offset(m),
    ensures
        keyed_by_offset(m.insert(p.offset, p)),
{
}

/// The progress file sits beside the downloaded file: its name is the file's
/// whole name, path included, followed by the 11 characters `.dlprogress`.
pub proof fn lemma_progress_file_beside(filename: Seq<char>)
    ensures
        progress_file_spec(filename).len() == filename.len() + 11,
        progress_file_spec(filename).subrange(0, filename.len() as int) == filename,
        progress_file_spec(filename).subrange(filename.len() as int, filename.len() + 11int) == seq![
            '.',
            'd',
            'l',
            'p',
            'r',
            'o',
            'g',
            'r',
            'e',
            's',
            's',
        ],
{
    let p = progress_file_spec(filename);
    assert(p.subrange(0, filename.len() as int) =~= filename);
    assert(p.subrange(filename.len() as int, filename.len() + 11int) =~= seq![
        '.',
        'd',
        'l',
        'p',
        'r',
        'o',
        'g',
        'r',
        'e',
        's',
        's',
    ]);
}

} // verus!

//! The decisions of a whole download: whether the server can serve ranges, how
//! the file is cut into segments, whether an earlier attempt is resumed, the
//! downloaders for the segments, and whether the download completed.

use vstd::prelude::*;
use crate::decimal::{decimal, parse_u64, parse_u64_spec, render_u64, ParseU64Error};
use crate::progress::{table_of_records, ProgressTable, SegmentDownloadProgress};
use crate::segment::{DownloadOptions, FileSegmentDownloader};
use crate::text::{chars_of, string_of};

verus! {

broadcast use vstd::std_specs::hash::group_hash_axioms;

/// Whether the server accepts range requests: an `Accept-Ranges` header is
/// present and its value is not exactly `none`.
pub open spec fn supports_ranges_spec(accept_ranges: Option<Seq<u8>>) -> bool {
    match accept_ranges {
        Some(v) => v != seq![110u8, 111u8, 110u8, 101u8],
        None => false,
    }
}

/// Whether the server accepts range requests, given the bytes of its
/// `Accept-Ranges` header, if it sent one.
pub fn supports_ranges(accept_ranges: Option<&[u8]>) -> (b: bool)
    ensures
        b == supports_ranges_spec(
            match accept_ranges {
                Some(v) => Some(v@),
                None => None,
            },
        ),
{
    match accept_ranges {
        None => false,
        Some(v) => {
            if v.len() == 4 && v[0] == 110u8 && v[1] == 111u8 && v[2] == 110u8 && v[3] == 101u8 {
                assert(v@ =~= seq![110u8, 111u8, 110u8, 101u8]);
                false
            } else {
                assert(v@ != seq![110u8, 111u8, 110u8, 101u8]) by {
                    if v@ == seq![110u8, 111u8, 110u8, 101u8] {
                        assert(v@.len() == 4);
                        assert(v@[0] == 110u8 && v@[1] == 111u8 && v@[2] == 110u8 && v@[3] == 101u8);
                    }
                }
                true
            }
        },
    }
}

/// The file's length from the text of its `Content-Length` header.
pub fn parse_content_length(text: &str) -> (r: Result<u64, ParseU64Error>)
    ensures
        r == parse_u64_spec(text@),
{
    let chars = chars_of(text);
    parse_u64(chars.as_slice())
}

/// A segment of the file: `size` bytes from `start`.
#[derive(Debug, Clone, Copy, PartialEq, Eq, Structural)]
pub struct SegmentRange {
    /// First byte.
    pub start: u64,
    /// Number of bytes.
    pub size: u64,
}

/// Number of segments of `segment_size` bytes that a file of `len` bytes is cut into.
pub open spec fn segment_count(len: u64, segment_size: u64) -> int {
    (len - 1) / (segment_size as int) + 1
}

/// The `i`-th segment: it starts `i * segment_size` bytes in and stops at the
/// end of its length or of the file, whichever comes first.
pub open spec fn segment_at(len: u64, segment_size: u64, i: int) -> SegmentRange {
    let start = i * segment_size;
    let last = if start + segment_size - 1 <= len - 1 { start + segment_size - 1 } else { len - 1 };
    SegmentRange { start: start as u64, size: (last - start + 1) as u64 }
}

proof fn lemma_floor_multiple(n: int, d: int)
    requires
        n >= 0,
        d >= 1,
    ensures
        n / d >= 0,
        0 <= (n / d) * d <= n,
        n - (n / d) * d < d,
{
    vstd::arithmetic::div_mod::lemma_fundamental_div_mod(n, d);
    vstd::arithmetic::div_mod::lemma_div_pos_is_pos(n, d);
    assert((n / d) * d == d * (n / d)) by (nonlinear_arith);
    assert(0 <= (n / d) * d) by (nonlinear_arith)
        requires n / d >= 0, d >= 1;
}

/// The segment size for `connections` connections: the length divided by the
/// number of connections, rounded up, so that there is one segment per connection
/// at most.
pub fn segment_size(content_length: u64, connections: u64) -> (s: u64)
    requires
        content_length >= 1,
        connections >= 1,
    ensures
        s == (content_length + connections - 1) / (connections as int),
        1 <= s <= content_length,
        segment_count(content_length, s) <= connections,
{
    let q = content_length / connections;
    let r = content_length % connections;
    proof {
        let l = content_length as int;
        let c = connections as int;
        vstd::arithmetic::div_mod::lemma_fundamental_div_mod(l, c);
        if r >= 1 {
            assert(q + 1 <= l) by (nonlinear_arith)
                requires l == c * q + r, c >= 1, r >= 1, q >= 0;
        }
    }
    let s = if r == 0 { q } else { q + 1 };
    proof {
        let l = content_length as int;
        let c = connections as int;
        vstd::arithmetic::div_mod::lemma_fundamental_div_mod(l, c);
        assert(l == c * q + r);
        assert(0 <= r < c);
        assert(l + c - 1 == q * c + (c - 1) + r) by (nonlinear_arith)
            requires l == c * q + r;
        assert(l + c - 1 == (q + 1) * c + (r - 1)) by (nonlinear_arith)
            requires l == c * q + r;
        assert(q <= l) by (nonlinear_arith)
            requires l == c * q + r, c >= 1, r >= 0, q >= 0;
        if r == 0 {
            assert((l + c - 1) / c == q) by {
                vstd::arithmetic::div_mod::lemma_fundamental_div_mod_converse(l + c - 1, c, q as int, c - 1);
            }
            assert(q >= 1) by (nonlinear_arith)
                requires l == c * q, l >= 1, c >= 1;
        } else {
            assert((l + c - 1) / c == q + 1) by {
                vstd::arithmetic::div_mod::lemma_fundamental_div_mod_converse(l + c - 1, c, q + 1, r - 1);
            }
            assert(q + 1 <= l) by (nonlinear_arith)
                requires l == c * q + r, c >= 1, r >= 1, r < c, q >= 0;
        }
        // every segment start i * s lies below the length, so i < connections
        assert(c * s >= l) by (nonlinear_arith)
            requires l == c * q + r, 0 <= r < c, r == 0 ==> s == q, r != 0 ==> s == q + 1, q >= 0;
        let k = (l - 1) / (s as int);
        lemma_floor_multiple(l - 1, s as int);
        assert(k * s <= l - 1);
        assert(k < c) by (nonlinear_arith)
            requires k * s <= l - 1, c * s >= l, s >= 1, k >= 0;
    }
    s
}

/// Cuts a file of `content_length` bytes into segments of `segment_size` bytes,
/// the last one shorter when the length is not a multiple.
pub fn plan_segments(content_length: u64, segment_size: u64) -> (segs: Vec<SegmentRange>)
    requires
        content_length >= 1,
        segment_size >= 1,
        ((content_length - 1) / (segment_size as int)) * segment_size + segment_size <= u64::MAX,
    ensures
        segs@.len() == segment_count(content_length, segment_size),
        forall|i: int| 0 <= i < segs@.len() ==> #[trigger] segs@[i] == segment_at(content_length, segment_size, i),
{
    let last_byte = content_length - 1;
    let ghost q = (content_length - 1) / (segment_size as int);
    let ghost limit = q * segment_size;
    proof {
        lemma_floor_multiple(content_length - 1, segment_size as int);
        assert(0 * segment_size == 0) by (nonlinear_arith);
    }
    let mut segs: Vec<SegmentRange> = Vec::new();
    let mut start: u64 = 0;
    let mut done = false;
    while !done
        invariant
            last_byte == content_length - 1,
            segment_size >= 1,
            q == (content_length - 1) / (segment_size as int),
            q >= 0,
            limit == q * segment_size,
            0 <= limit <= last_byte,
            last_byte - limit < segment_size,
            limit + segment_size <= u64::MAX,
            !done ==> start == segs@.len() * segment_size && segs@.len() <= q,
            done ==> segs@.len() == q + 1,
            segs@.len() <= q + 1,
            forall|i: int| 0 <= i < segs@.len() ==> #[trigger] segs@[i] == segment_at(content_length, segment_size, i),
        decreases q + 1 - segs@.len(),
    {
        let ghost i = segs@.len() as int;
        proof {
            assert(start <= limit) by (nonlinear_arith)
                requires start == i * segment_size, i <= q, limit == q * segment_size, segment_size >= 1;
        }
        let end = if start + segment_size - 1 <= last_byte { start + segment_size - 1 } else { last_byte };
        let seg = SegmentRange { start, size: end - start + 1 };
        assert(seg == segment_at(content_length, segment_size, i));
        segs.push(seg);
        if last_byte - start < segment_size {
            proof {
                assert(i == q) by (nonlinear_arith)
                    requires start == i * segment_size, i <= q, limit == q * segment_size,
                        last_byte - start < segment_size, last_byte - limit >= 0, segment_size >= 1;
            }
            done = true;
        } else {
            proof {
                assert(i < q) by (nonlinear_arith)
                    requires start == i * segment_size, i <= q, limit == q * segment_size,
                        last_byte - start >= segment_size, last_byte - limit < segment_size, segment_size >= 1;
                assert((i + 1) * segment_size == i * segment_size + segment_size) by (nonlinear_arith);
            }
            start = start + segment_size;
        }
    }
    segs
}

/// The segments cut a file without gap or overlap: the first starts at byte 0,
/// each holds between 1 and `segment_size` bytes, each starts where the one
/// before it ends, and the last ends at the end of the file.
pub proof fn lemma_segments_tile(content_length: u64, segment_size: u64, i: int)
    requires
        content_length >= 1,
        segment_size >= 1,
        0 <= i < segment_count(content_length, segment_size),
    ensures
        segment_at(content_length, segment_size, 0).start == 0,
        1 <= segment_at(content_length, segment_size, i).size <= segment_size,
        i + 1 < segment_count(content_length, segment_size) ==> segment_at(content_length, segment_size, i + 1).start
            == segment_at(content_length, segment_size, i).start + segment_at(content_length, segment_size, i).size,
        i + 1 == segment_count(content_length, segment_size) ==> segment_at(content_length, segment_size, i).start
            + segment_at(content_length, segment_size, i).size == content_length,
{
    let q = (content_length - 1) / (segment_size as int);
    lemma_floor_multiple(content_length - 1, segment_size as int);
    assert(0 * segment_size == 0) by (nonlinear_arith);
    let start = i * segment_size;
    assert(0 <= start <= q * segment_size) by (nonlinear_arith)
        requires start == i * segment_size, 0 <= i <= q, segment_size >= 1;
    assert((i + 1) * segment_size == start + segment_size) by (nonlinear_arith)
        requires start == i * segment_size;
    if i + 1 < q + 1 {
        assert(start + segment_size <= q * segment_size) by (nonlinear_arith)
            requires start == i * segment_size, i + 1 <= q, segment_size >= 1;
    } else {
        assert(start == q * segment_size);
    }
}

/// An earlier attempt is resumed when the file is there and the saved progress
/// holds as many segments as the new plan.
pub fn resume_existing(file_exists: bool, saved: &ProgressTable, segment_count: usize) -> (b: bool)
    ensures
        b == (file_exists && saved@.len() == segment_count),
{
    file_exists && saved.len() == segment_count
}

/// The fresh record of a segment: nothing received yet.
pub open spec fn fresh_record(seg: SegmentRange) -> SegmentDownloadProgress {
    SegmentDownloadProgress { offset: seg.start, size: seg.size, progress: 0 }
}

/// The progress table of a download that starts afresh with segments `segs`.
pub open spec fn fresh_table(segs: Seq<SegmentRange>) -> Map<u64, SegmentDownloadProgress> {
    table_of_records(segs.map_values(|g: SegmentRange| fresh_record(g)))
}

/// Why the downloaders of a resumed download cannot be made.
#[derive(Debug, Clone, Copy, PartialEq, Eq, Structural)]
pub enum PrepareError {
    /// The saved progress has no record for the segment at this offset.
    MissingSegment(u64),
}

impl PrepareError {
    /// `Existing progress does not contain segment offset N`.
    pub fn message(&self) -> (m: String)
        ensures
            match self {
                PrepareError::MissingSegment(o) => m@ == seq![
                    'E', 'x', 'i', 's', 't', 'i', 'n', 'g', ' ', 'p', 'r', 'o', 'g', 'r', 'e', 's',
                    's', ' ', 'd', 'o', 'e', 's', ' ', 'n', 'o', 't', ' ', 'c', 'o', 'n', 't', 'a',
                    'i', 'n', ' ', 's', 'e', 'g', 'm', 'e', 'n', 't', ' ', 'o', 'f', 'f', 's', 'e',
                    't', ' '
                ] + decimal(*o as nat),
            },
    {
        match self {
            PrepareError::MissingSegment(o) => {
                let mut v = vec![
                    'E', 'x', 'i', 's', 't', 'i', 'n', 'g', ' ', 'p', 'r', 'o', 'g', 'r', 'e', 's',
                    's', ' ', 'd', 'o', 'e', 's', ' ', 'n', 'o', 't', ' ', 'c', 'o', 'n', 't', 'a',
                    'i', 'n', ' ', 's', 'e', 'g', 'm', 'e', 'n', 't', ' ', 'o', 'f', 'f', 's', 'e',
                    't', ' '
                ];
                let mut d = render_u64(*o);
                v.append(&mut d);
                string_of(v.as_slice())
            },
        }
    }
}

/// The downloaders for the segments `segs`.
///
/// A resumed download (`resumed`) keeps the saved table and gives each segment the
/// progress saved under its start; it fails on the first segment without a saved
/// record. A fresh download replaces the table by the fresh records of `segs` and
/// starts every segment from nothing.
pub fn prepare_downloaders(
    filename: &str,
    url: &str,
    segs: &Vec<SegmentRange>,
    options: &DownloadOptions,
    progress: &mut ProgressTable,
    resumed: bool,
) -> (r: Result<Vec<FileSegmentDownloader>, PrepareError>)
    ensures
        resumed ==> final(progress)@ == old(progress)@,
        !resumed ==> final(progress)@ == fresh_table(segs@),
        !resumed ==> r is Ok,
        resumed ==> (r is Ok <==> forall|i: int|
            0 <= i < segs@.len() ==> old(progress)@.contains_key(#[trigger] segs@[i].start)),
        r matches Err(PrepareError::MissingSegment(o)) ==> exists|i: int|
            0 <= i < segs@.len() && #[trigger] segs@[i].start == o && !old(progress)@.contains_key(o)
                && forall|j: int| 0 <= j < i ==> old(progress)@.contains_key(#[trigger] segs@[j].start),
        r matches Ok(ds) ==> {
            &&& ds@.len() == segs@.len()
            &&& forall|i: int|
                0 <= i < ds@.len() ==> {
                    &&& (#[trigger] ds@[i]).filename@ == filename@
                    &&& ds@[i].url@ == url@
                    &&& ds@[i].offset == segs@[i].start
                    &&& ds@[i].size == segs@[i].size
                    &&& ds@[i].progress == (if resumed {
                        old(progress)@[segs@[i].start].progress
                    } else {
                        0
                    })
                    &&& ds@[i].options@ == options@
                }
        },
{
    if !resumed {
        progress.clear();
    }
    let ghost saved = progress@;
    let mut ds: Vec<FileSegmentDownloader> = Vec::new();
    for i in 0..segs.len()
        invariant
            resumed ==> saved == old(progress)@,
            resumed ==> progress@ == saved,
            !resumed ==> progress@ == fresh_table(segs@.take(i as int)),
            ds@.len() == i,
            resumed ==> forall|j: int| 0 <= j < i ==> saved.contains_key(#[trigger] segs@[j].start),
            forall|j: int|
                0 <= j < i ==> {
                    &&& (#[trigger] ds@[j]).filename@ == filename@
                    &&& ds@[j].url@ == url@
                    &&& ds@[j].offset == segs@[j].start
                    &&& ds@[j].size == segs@[j].size
                    &&& ds@[j].progress == (if resumed {
                        saved[segs@[j].start].progress
                    } else {
                        0
                    })
                    &&& ds@[j].options@ == options@
                },
    {
        let seg = segs[i];
        if resumed {
            match progress.get(&seg.start) {
                Some(p) => {
                    ds.push(
                        FileSegmentDownloader::new_with_progress(
                            filename,
                            url,
                            seg.start,
                            seg.size,
                            p.progress,
                            options,
                        ),
                    );
                },
                None => {
                    return Err(PrepareError::MissingSegment(seg.start));
                },
            }
        } else {
            let ghost before = segs@.take(i as int);
            progress.insert(seg.start, SegmentDownloadProgress { offset: seg.start, size: seg.size, progress: 0 });
            proof {
                let rs = segs@.take(i + 1).map_values(|g: SegmentRange| fresh_record(g));
                assert(rs.drop_last() =~= before.map_values(|g: SegmentRange| fresh_record(g)));
                assert(segs@.take(i + 1).drop_last() =~= before);
            }
            ds.push(FileSegmentDownloader::new(filename, url, seg.start, seg.size, options));
        }
    }
    assert(segs@.take(segs@.len() as int) =~= segs@);
    Ok(ds)
}

/// Whether every segment has received all its bytes.
pub fn all_segments_complete(ds: &Vec<FileSegmentDownloader>) -> (b: bool)
    ensures
        b == forall|i: int| 0 <= i < ds@.len() ==> (#[trigger] ds@[i]).progress >= ds@[i].size,
{
    for i in 0..ds.len()
        invariant
            forall|j: int| 0 <= j < i ==> (#[trigger] ds@[j]).progress >= ds@[j].size,
    {
        if ds[i].progress < ds[i].size {
            return false;
        }
    }
    true
}

} // verus!

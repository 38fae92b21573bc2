//! One segment of the file: its settings, its downloader, and the decisions of
//! its transfer — which byte ranges to request, in what order, what to do when a
//! request fails, and how progress advances.

use vstd::prelude::*;
use crate::decimal::{decimal, is_digit, lemma_decimal_shape, lemma_parse_decimal, parse_u64_spec, render_u64, ParseU64Error};
use crate::progress::SegmentDownloadProgress;
use crate::text::string_of;

verus! {

/// The abstract value of the download settings.
pub struct OptionsView {
    /// Bytes asked for in one request.
    pub chunk_size: u64,
    /// The cookies.
    pub cookies: Seq<Seq<char>>,
    /// The extra headers, as name and value.
    pub headers: Seq<(Seq<char>, Seq<char>)>,
    /// Seconds before a request is given up.
    pub retry_timeout: u64,
    /// Seconds to wait before asking again.
    pub retry_delay: u64,
    /// Whether every request is made by a fresh client.
    pub new_client_per_request: bool,
}

/// Settings shared by the segment downloaders.
#[derive(Debug)]
pub struct DownloadOptions {
    /// Bytes asked for in one request.
    pub chunk_size: u64,
    /// Cookies sent with every request (`name=value; ...` strings).
    pub cookies: Vec<String>,
    /// Extra request headers (not sent yet).
    pub _headers: Vec<(String, String)>,
    /// Seconds before a request is given up.
    pub retry_timeout: u64,
    /// Seconds to wait before asking again after a failed request.
    pub retry_delay: u64,
    /// Whether every request is made by a fresh client.
    pub new_client_per_request: bool,
}

impl View for DownloadOptions {
    type V = OptionsView;

    open spec fn view(&self) -> OptionsView {
        OptionsView {
            chunk_size: self.chunk_size,
            cookies: Seq::new(self.cookies@.len(), |i: int| self.cookies@[i]@),
            headers: Seq::new(
                self._headers@.len(),
                |i: int| (self._headers@[i].0@, self._headers@[i].1@),
            ),
            retry_timeout: self.retry_timeout,
            retry_delay: self.retry_delay,
            new_client_per_request: self.new_client_per_request,
        }
    }
}

/// The chunk size used when none is given: one MiB.
pub const DEFAULT_CHUNK_SIZE: u64 = 1048576;

impl Default for DownloadOptions {
    fn default() -> (r: Self)
        ensures
            r.chunk_size == DEFAULT_CHUNK_SIZE,
            r.cookies@.len() == 0,
            r._headers@.len() == 0,
            r.retry_timeout == 0,
            r.retry_delay == 0,
            !r.new_client_per_request,
    {
        DownloadOptions {
            chunk_size: DEFAULT_CHUNK_SIZE,
            cookies: Vec::new(),
            _headers: Vec::new(),
            retry_timeout: 0,
            retry_delay: 0,
            new_client_per_request: false,
        }
    }
}

impl Clone for DownloadOptions {
    fn clone(&self) -> (r: Self)
        ensures
            r@ == self@,
    {
        let mut cookies: Vec<String> = Vec::new();
        for i in 0..self.cookies.len()
            invariant
                cookies@.len() == i,
                forall|j: int| 0 <= j < i ==> #[trigger] cookies@[j]@ == self.cookies@[j]@,
        {
            cookies.push(self.cookies[i].clone());
        }
        let mut headers: Vec<(String, String)> = Vec::new();
        for i in 0..self._headers.len()
            invariant
                headers@.len() == i,
                forall|j: int|
                    0 <= j < i ==> (#[trigger] headers@[j]).0@ == self._headers@[j].0@
                        && headers@[j].1@ == self._headers@[j].1@,
        {
            let h = &self._headers[i];
            headers.push((h.0.clone(), h.1.clone()));
        }
        let r = DownloadOptions {
            chunk_size: self.chunk_size,
            cookies,
            _headers: headers,
            retry_timeout: self.retry_timeout,
            retry_delay: self.retry_delay,
            new_client_per_request: self.new_client_per_request,
        };
        assert(r@.cookies =~= self@.cookies);
        assert(r@.headers =~= self@.headers);
        r
    }
}

/// Downloads one segment `[offset, offset + size)` of a file into place.
#[derive(Debug, Clone)]
pub struct FileSegmentDownloader {
    /// Path of the file being written.
    pub filename: String,
    /// Where the file is downloaded from.
    pub url: String,
    /// First byte of the segment.
    pub offset: u64,
    /// Length of the segment.
    pub size: u64,
    /// Bytes of the segment received so far.
    pub progress: u64,
    /// Shared settings.
    pub options: DownloadOptions,
}

impl FileSegmentDownloader {
    /// A downloader for a segment that has not started.
    pub fn new(filename: &str, url: &str, offset: u64, size: u64, options: &DownloadOptions) -> (r:
        Self)
        ensures
            r.filename@ == filename@,
            r.url@ == url@,
            r.offset == offset,
            r.size == size,
            r.progress == 0,
            r.options@ == options@,
    {
        Self::new_with_progress(filename, url, offset, size, 0, options)
    }

    /// A downloader for a segment of which `progress` bytes are already in place.
    pub fn new_with_progress(
        filename: &str,
        url: &str,
        offset: u64,
        size: u64,
        progress: u64,
        options: &DownloadOptions,
    ) -> (r: Self)
        ensures
            r.filename@ == filename@,
            r.url@ == url@,
            r.offset == offset,
            r.size == size,
            r.progress == progress,
            r.options@ == options@,
    {
        Self {
            filename: filename.to_owned(),
            url: url.to_owned(),
            offset,
            size,
            progress,
            options: options.clone(),
        }
    }
}

/// Start of the `j`-th chunk of a segment whose transfer starts at `base`.
pub open spec fn chunk_start(base: u64, step: u64, j: nat) -> int {
    base + j * step
}

/// Last byte of the `j`-th chunk: a chunk is `step` bytes long, except that none
/// reaches past `end`.
pub open spec fn chunk_end(base: u64, end: u64, step: u64, j: nat) -> int {
    let s = chunk_start(base, step, j);
    if s + step - 1 <= end {
        s + step - 1
    } else {
        end as int
    }
}

/// The `Range` header value `bytes=start-end`.
pub open spec fn range_header_spec(start: u64, end: u64) -> Seq<char> {
    seq!['b', 'y', 't', 'e', 's', '='] + decimal(start as nat) + seq!['-'] + decimal(end as nat)
}

/// `Segment first-last`, the label of a segment.
pub open spec fn segment_label_spec(offset: u64, size: u64) -> Seq<char> {
    seq!['S', 'e', 'g', 'm', 'e', 'n', 't', ' '] + decimal(offset as nat) + seq!['-'] + decimal(
        (offset + size - 1) as nat,
    )
}

/// Where a transfer stands among the chunks of its segment: chunk `index` starts
/// at `next`, unless every chunk has been passed (`done`).
pub struct ChunkCursor {
    /// Where the transfer started (the first chunk's start).
    pub base: u64,
    /// Last byte of the segment.
    pub end: u64,
    /// Chunk length.
    pub step: u64,
    /// Start of the current chunk.
    pub next: u64,
    /// Number of the current chunk.
    pub index: Ghost<nat>,
    /// Whether no chunk is left.
    pub done: bool,
}

impl ChunkCursor {
    /// The cursor is consistent: chunk `index` starts at `next` and lies within
    /// the segment, or, when done, starts past its end.
    pub open spec fn wf(&self) -> bool {
        &&& self.step >= 1
        &&& !self.done ==> self.next == chunk_start(self.base, self.step, self.index@)
            && self.next <= self.end
        &&& self.done ==> chunk_start(self.base, self.step, self.index@) > self.end
    }

    /// Moves to the following chunk.
    fn advance(&mut self)
        requires
            old(self).wf(),
            !old(self).done,
        ensures
            final(self).wf(),
            final(self).base == old(self).base,
            final(self).end == old(self).end,
            final(self).step == old(self).step,
            final(self).index@ == old(self).index@ + 1,
            !final(self).done ==> final(self).next == old(self).next + old(self).step,
    {
        let ghost j = self.index@;
        assert(chunk_start(self.base, self.step, j + 1) == chunk_start(self.base, self.step, j)
            + self.step) by (nonlinear_arith);
        if self.end - self.next < self.step {
            self.done = true;
        } else {
            self.next = self.next + self.step;
        }
        self.index = Ghost(j + 1);
    }

    /// Passes over every chunk whose start is below `progress`. The start is an
    /// absolute byte position in the file while `progress` counts the segment's
    /// bytes received from its offset; the two are compared as they are, so a chunk
    /// is only requested when its absolute start is not below that count.
    pub fn settle(&mut self, progress: u64)
        requires
            old(self).wf(),
        ensures
            final(self).wf(),
            final(self).base == old(self).base,
            final(self).end == old(self).end,
            final(self).step == old(self).step,
            final(self).index@ >= old(self).index@,
            old(self).done ==> *final(self) == *old(self),
            forall|j: nat|
                old(self).index@ <= j < final(self).index@ ==> chunk_start(
                    old(self).base,
                    old(self).step,
                    j,
                ) < progress,
            !final(self).done ==> final(self).next >= progress,
    {
        let ghost start = self.index@;
        while !self.done && self.next < progress
            invariant
                self.wf(),
                self.base == old(self).base,
                self.end == old(self).end,
                self.step == old(self).step,
                self.index@ >= start,
                start == old(self).index@,
                old(self).done ==> *self == *old(self),
                forall|j: nat| start <= j < self.index@ ==> chunk_start(self.base, self.step, j)
                    < progress,
            decreases (if self.done { 0 } else { self.end - self.next + 1 }),
        {
            let ghost j = self.index@;
            self.advance();
            assert forall|k: nat| start <= k < self.index@ implies chunk_start(
                self.base,
                self.step,
                k,
            ) < progress by {
                if k == j {
                }
            }
        }
    }
}

/// One request for a chunk of a segment.
pub struct ChunkRequest {
    /// First byte asked for.
    pub start: u64,
    /// Last byte asked for.
    pub end: u64,
    /// The value of the `Range` header.
    pub range_header: String,
    /// Seconds before the request is given up.
    pub timeout_secs: u64,
}

/// How a request for a chunk went wrong.
#[derive(Debug, Clone, Copy, PartialEq, Eq, Structural)]
pub enum TransferFailure {
    /// No response came.
    RequestFailed,
    /// A response came, but its body could not be read.
    BodyFailed,
}

/// What to do after a failed request.
#[derive(Debug, Clone, Copy, PartialEq, Eq, Structural)]
pub enum RetryAction {
    /// Wait this many seconds, then ask for the same chunk again.
    RetryAfter(u64),
    /// Ask for the same chunk again at once.
    RetryNow,
}

/// Why a segment cannot be downloaded.
#[derive(Debug, Clone, Copy, PartialEq, Eq, Structural)]
pub enum SegmentError {
    /// The segment holds no byte.
    ZeroLength,
}

impl SegmentError {
    /// The error's message.
    pub fn message(&self) -> (m: &'static str)
        ensures
            m@ == "Cannot download zero-length segment"@,
    {
        match self {
            SegmentError::ZeroLength => "Cannot download zero-length segment",
        }
    }
}

/// The value of a `Range` header for the bytes `start..=end`.
pub fn range_header(start: u64, end: u64) -> (h: String)
    ensures
        h@ == range_header_spec(start, end),
{
    let mut v = vec!['b', 'y', 't', 'e', 's', '='];
    let mut a = render_u64(start);
    v.append(&mut a);
    v.push('-');
    let mut b = render_u64(end);
    v.append(&mut b);
    let h = string_of(v.as_slice());
    assert(h@ =~= range_header_spec(start, end));
    h
}

/// `Segment first-last` for the segment of `size` bytes at `offset`.
pub fn segment_label(offset: u64, size: u64) -> (l: String)
    requires
        offset + size >= 1,
        offset + size <= u64::MAX,
    ensures
        l@ == segment_label_spec(offset, size),
{
    let mut v = vec!['S', 'e', 'g', 'm', 'e', 'n', 't', ' '];
    let mut a = render_u64(offset);
    v.append(&mut a);
    v.push('-');
    let mut b = render_u64(offset + size - 1);
    v.append(&mut b);
    let l = string_of(v.as_slice());
    assert(l@ =~= segment_label_spec(offset, size));
    l
}

impl FileSegmentDownloader {
    /// Refuses a segment of no byte: it cannot be downloaded.
    pub fn check_length(&self) -> (r: Result<(), SegmentError>)
        ensures
            r is Err <==> self.size == 0,
            r matches Err(e) ==> e == SegmentError::ZeroLength,
    {
        if self.size == 0 {
            Err(SegmentError::ZeroLength)
        } else {
            Ok(())
        }
    }

    /// Starts the transfer of a segment that holds bytes: the chunks run from the
    /// absolute position `offset + progress` to the segment's last byte,
    /// `chunk_size` apart.
    pub fn start_transfer(&self) -> (c: ChunkCursor)
        requires
            self.size > 0,
            self.options.chunk_size >= 1,
            self.offset + self.size <= u64::MAX,
            self.offset + self.progress <= u64::MAX,
        ensures
            c.wf(),
            c.base == self.offset + self.progress,
            c.end == self.offset + self.size - 1,
            c.step == self.options.chunk_size,
            c.index@ == 0,
            c.done <==> c.base > c.end,
    {
        let start_pos = self.offset + self.progress;
        let end_pos = self.offset + self.size - 1;
        let mut cursor = ChunkCursor {
            base: start_pos,
            end: end_pos,
            step: self.options.chunk_size,
            next: start_pos,
            index: Ghost(0),
            done: start_pos > end_pos,
        };
        assert(chunk_start(start_pos, self.options.chunk_size, 0) == start_pos) by (nonlinear_arith);
        // the first chunk starts at `offset + progress`, which is not below the
        // count `progress`, so none is passed over here
        cursor.settle(self.progress);
        assert(cursor.index@ == 0) by {
            if cursor.index@ > 0 {
                assert(chunk_start(start_pos, self.options.chunk_size, 0) < self.progress);
            }
        }
        cursor
    }

    /// The request for the current chunk, or `None` when every chunk is passed.
    pub fn current_request(&self, cursor: &ChunkCursor) -> (r: Option<ChunkRequest>)
        requires
            cursor.wf(),
        ensures
            cursor.done <==> r is None,
            r matches Some(req) ==> {
                &&& req.start == cursor.next
                &&& req.end == chunk_end(cursor.base, cursor.end, cursor.step, cursor.index@)
                &&& req.range_header@ == range_header_spec(req.start, req.end)
                &&& req.timeout_secs == self.options.retry_timeout
            },
    {
        if cursor.done {
            return None;
        }
        let start = cursor.next;
        let end = if cursor.end - start < cursor.step - 1 {
            cursor.end
        } else {
            start + (cursor.step - 1)
        };
        Some(ChunkRequest {
            start,
            end,
            range_header: range_header(start, end),
            timeout_secs: self.options.retry_timeout,
        })
    }

    /// What to do after a failed request for the current chunk: wait the retry
    /// delay when no response came, ask again at once when the body was lost.
    pub fn on_failure(&self, failure: TransferFailure) -> (a: RetryAction)
        ensures
            failure == TransferFailure::RequestFailed ==> a == RetryAction::RetryAfter(
                self.options.retry_delay,
            ),
            failure == TransferFailure::BodyFailed ==> a == RetryAction::RetryNow,
    {
        match failure {
            TransferFailure::RequestFailed => RetryAction::RetryAfter(self.options.retry_delay),
            TransferFailure::BodyFailed => RetryAction::RetryNow,
        }
    }

    /// Records that the current chunk's response carried `received` bytes: the
    /// progress grows by that much, and the transfer moves to the next chunk that
    /// does not start below the new progress (its absolute start position
    /// compared with the segment's received-byte count). Returns the update to report.
    pub fn record_chunk(&mut self, cursor: &mut ChunkCursor, received: u64) -> (report:
        SegmentDownloadProgress)
        requires
            old(cursor).wf(),
            !old(cursor).done,
            old(self).progress + received <= u64::MAX,
        ensures
            final(self).progress == old(self).progress + received,
            final(self).offset == old(self).offset,
            final(self).size == old(self).size,
            final(self).filename == old(self).filename,
            final(self).url == old(self).url,
            final(self).options == old(self).options,
            report == (SegmentDownloadProgress {
                offset: final(self).offset,
                size: final(self).size,
                progress: final(self).progress,
            }),
            final(cursor).wf(),
            final(cursor).base == old(cursor).base,
            final(cursor).end == old(cursor).end,
            final(cursor).step == old(cursor).step,
            final(cursor).index@ > old(cursor).index@,
            forall|j: nat|
                old(cursor).index@ < j < final(cursor).index@ ==> chunk_start(
                    old(cursor).base,
                    old(cursor).step,
                    j,
                ) < final(self).progress,
            !final(cursor).done ==> final(cursor).next >= final(self).progress,
    {
        self.progress = self.progress + received;
        cursor.advance();
        cursor.settle(self.progress);
        SegmentDownloadProgress { offset: self.offset, size: self.size, progress: self.progress }
    }

    /// `Segment first-last complete`, shown when the segment is done.
    pub fn completion_message(&self) -> (m: String)
        requires
            self.offset + self.size >= 1,
            self.offset + self.size <= u64::MAX,
        ensures
            m@ == segment_label_spec(self.offset, self.size) + seq![
                ' ',
                'c',
                'o',
                'm',
                'p',
                'l',
                'e',
                't',
                'e',
            ],
    {
        let label = segment_label(self.offset, self.size);
        let mut v = crate::text::chars_of(label.as_str());
        let mut suffix = vec![' ', 'c', 'o', 'm', 'p', 'l', 'e', 't', 'e'];
        v.append(&mut suffix);
        let m = string_of(v.as_slice());
        assert(m@ =~= segment_label_spec(self.offset, self.size) + seq![
            ' ',
            'c',
            'o',
            'm',
            'p',
            'l',
            'e',
            't',
            'e',
        ]);
        m
    }

    /// The label of this segment's progress bar.
    pub fn label(&self) -> (l: String)
        requires
            self.offset + self.size >= 1,
            self.offset + self.size <= u64::MAX,
        ensures
            l@ == segment_label_spec(self.offset, self.size),
    {
        segment_label(self.offset, self.size)
    }

    /// The record of this segment's progress.
    pub fn report(&self) -> (p: SegmentDownloadProgress)
        ensures
            p == (SegmentDownloadProgress {
                offset: self.offset,
                size: self.size,
                progress: self.progress,
            }),
    {
        SegmentDownloadProgress { offset: self.offset, size: self.size, progress: self.progress }
    }
}

/// Consecutive chunks meet: each chunk lies within the segment, is at most `step`
/// bytes long, and the next chunk starts right after it; the last one ends at the
/// segment's end.
pub proof fn lemma_chunks_tile(base: u64, end: u64, step: u64, j: nat)
    requires
        step >= 1,
        chunk_start(base, step, j) <= end,
    ensures
        chunk_start(base, step, j) <= chunk_end(base, end, step, j) <= end,
        chunk_end(base, end, step, j) - chunk_start(base, step, j) + 1 <= step,
        chunk_start(base, step, j + 1) <= end ==> chunk_end(base, end, step, j) + 1 == chunk_start(
            base,
            step,
            j + 1,
        ),
        chunk_start(base, step, j + 1) > end ==> chunk_end(base, end, step, j) == end,
{
    assert(chunk_start(base, step, j + 1) == chunk_start(base, step, j) + step) by (nonlinear_arith);
}

/// When a chunk's response carries exactly the bytes asked for, the progress
/// keeps pace with the chunks: before chunk `j` it is the chunk's distance from
/// the segment's offset, after it the next chunk's distance (so that no chunk is
/// passed over), and after the last chunk it is the segment's size.
pub proof fn lemma_exact_chunk_keeps_pace(
    offset: u64,
    size: u64,
    base: u64,
    step: u64,
    j: nat,
    progress: int,
)
    requires
        step >= 1,
        size >= 1,
        offset + size <= u64::MAX,
        offset <= base,
        chunk_start(base, step, j) <= offset + size - 1,
        progress == chunk_start(base, step, j) - offset,
    ensures
        ({
            let end = (offset + size - 1) as u64;
            let after = progress + (chunk_end(base, end, step, j) - chunk_start(base, step, j) + 1);
            &&& chunk_start(base, step, j + 1) <= end ==> after == chunk_start(base, step, j + 1)
                - offset && chunk_start(base, step, j + 1) >= after
            &&& chunk_start(base, step, j + 1) > end ==> after == size
        }),
{
    let end = (offset + size - 1) as u64;
    lemma_chunks_tile(base, end, step, j);
}

/// The `Range` header of a request reads back as the bounds requested: it is
/// `bytes=`, then a run of digits that parses as `start`, a `-`, and a run of
/// digits that parses as `end`.
pub proof fn lemma_range_header_reads_back(start: u64, end: u64)
    ensures
        ({
            let h = range_header_spec(start, end);
            exists|i: int|
                #![trigger h[i]]
                6 < i < h.len() - 1 && h[i] == '-' && h.subrange(0, 6) == seq![
                    'b',
                    'y',
                    't',
                    'e',
                    's',
                    '=',
                ] && (forall|k: int| 6 <= k < i ==> is_digit(#[trigger] h[k]))
                    && parse_u64_spec(h.subrange(6, i)) == Ok::<u64, ParseU64Error>(start)
                    && parse_u64_spec(h.subrange(i + 1, h.len() as int)) == Ok::<
                    u64,
                    ParseU64Error,
                >(end)
        }),
{
    let h = range_header_spec(start, end);
    let a = decimal(start as nat);
    let b = decimal(end as nat);
    lemma_decimal_shape(start as nat);
    lemma_decimal_shape(end as nat);
    lemma_parse_decimal(start);
    lemma_parse_decimal(end);
    let i: int = 6 + a.len() as int;
    assert(h.subrange(0, 6) =~= seq!['b', 'y', 't', 'e', 's', '=']);
    assert(h.subrange(6, i) =~= a);
    assert(h.subrange(i + 1, h.len() as int) =~= b);
    assert(h[i] == '-');
    assert forall|k: int| 6 <= k < i implies is_digit(#[trigger] h[k]) by {
        assert(h[k] == a[k - 6]);
    }
}

} // verus!

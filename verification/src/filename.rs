//! Naming the downloaded file: from the server's `Content-Disposition` header
//! when it names one, otherwise from the last path piece of the URL.

use vstd::prelude::*;
use crate::text::{
    chars_of, lemma_split_concat, lemma_split_nonempty, lemma_split_single, split_chars, split_on,
    string_of,
};

verus! {

/// The pattern that finds the file name in a `Content-Disposition` value: the
/// first run of non-quote characters after `filename=` and an optional quote.
pub const DISPOSITION_PATTERN: &'static str = "filename=['\"]?([^'\"]+)['\"]?";

/// What group `group` of the leftmost match of the regular expression `pattern`
/// in `text` holds (`None` when the pattern is not valid, nothing matches, or the
/// group takes no part in the match).
pub uninterp spec fn regex_capture(pattern: Seq<char>, text: Seq<char>, group: nat) -> Option<Seq<char>>;

/// A quote character: `'` or `"`.
pub open spec fn is_quote(c: char) -> bool {
    c == '\'' || c == '"'
}

/// `filename=` stands in `text` at position `p`.
pub open spec fn keyword_at(text: Seq<char>, p: int) -> bool {
    &&& 0 <= p
    &&& p + 9 <= text.len()
    &&& text.subrange(p, p + 9) == seq!['f', 'i', 'l', 'e', 'n', 'a', 'm', 'e', '=']
}

/// Where the name begins after a `filename=` at `p`: past one quote, if one follows.
pub open spec fn name_start(text: Seq<char>, p: int) -> int {
    if p + 9 < text.len() && is_quote(text[p + 9]) {
        p + 10
    } else {
        p + 9
    }
}

/// `DISPOSITION_PATTERN` matches `text` at `p`: `filename=`, an optional quote,
/// then at least one character that is not a quote.
pub open spec fn pattern_matches_at(text: Seq<char>, p: int) -> bool {
    &&& keyword_at(text, p)
    &&& name_start(text, p) < text.len()
    &&& !is_quote(text[name_start(text, p)])
}

/// The first position at or after `p` where `DISPOSITION_PATTERN` matches.
pub open spec fn first_match_from(text: Seq<char>, p: int) -> Option<int>
    decreases text.len() + 1 - p,
{
    if p < 0 || p > text.len() {
        None
    } else if pattern_matches_at(text, p) {
        Some(p)
    } else {
        first_match_from(text, p + 1)
    }
}

/// Where the run of non-quote characters of `text` that begins at `g` ends.
pub open spec fn run_end(text: Seq<char>, g: int) -> int
    decreases text.len() - g,
{
    if 0 <= g < text.len() && !is_quote(text[g]) {
        run_end(text, g + 1)
    } else {
        g
    }
}

/// Group 1 of `DISPOSITION_PATTERN` in `text`: at the first `filename=` where
/// the pattern matches, the longest run of non-quote characters after it and
/// one optional quote.
pub open spec fn disposition_group(text: Seq<char>) -> Option<Seq<char>> {
    match first_match_from(text, 0) {
        Some(p) => Some(text.subrange(name_start(text, p), run_end(text, name_start(text, p)))),
        None => None,
    }
}

/// Compiles `pattern` with `regex::Regex::new` and returns the text of capture
/// group `group` of its leftmost match in `text` (`Regex::captures`, then
/// `Captures::get`). The contract ties the result to the name `regex_capture` of
/// pattern, text and group, and, for `DISPOSITION_PATTERN` and group 1, states
/// what the regex crate's leftmost-first matching gives: `disposition_group`.
/// What the crate matches for other patterns is not stated.
#[verifier::external_body]
fn regex_capture_group(pattern: &str, text: &str, group: usize) -> (r: Option<String>)
    ensures
        match r {
            Some(s) => regex_capture(pattern@, text@, group as nat) == Some(s@),
            None => regex_capture(pattern@, text@, group as nat) is None,
        },
        pattern@ == DISPOSITION_PATTERN@ && group == 1 ==> match r {
            Some(s) => disposition_group(text@) == Some(s@),
            None => disposition_group(text@) is None,
        },
{
    let re = match regex::Regex::new(pattern) {
        Ok(re) => re,
        Err(_) => return None,
    };
    let caps = match re.captures(text) {
        Some(caps) => caps,
        None => return None,
    };
    match caps.get(group) {
        Some(m) => Some(m.as_str().to_string()),
        None => None,
    }
}

/// `c`, unless it is a slash or a backslash, which become `_`.
pub open spec fn safe_char(c: char) -> char {
    if c == '/' || c == '\\' {
        '_'
    } else {
        c
    }
}

/// `name` with every slash and backslash replaced by `_`, so that it names a file
/// in the current directory.
pub open spec fn sanitize_spec(name: Seq<char>) -> Seq<char> {
    name.map_values(|c: char| safe_char(c))
}

/// Replaces every slash and backslash of `name` by `_`.
pub fn sanitize_filename(name: &str) -> (r: String)
    ensures
        r@ == sanitize_spec(name@),
{
    let chars = chars_of(name);
    let mut out: Vec<char> = Vec::new();
    for i in 0..chars.len()
        invariant
            chars@ == name@,
            out@ == chars@.take(i as int).map_values(|c: char| safe_char(c)),
    {
        let c = chars[i];
        let d = if c == '/' || c == '\\' { '_' } else { c };
        out.push(d);
        assert(chars@.take(i + 1).map_values(|c: char| safe_char(c)) =~= chars@.take(
            i as int,
        ).map_values(|c: char| safe_char(c)).push(d));
    }
    assert(chars@.take(chars@.len() as int) =~= chars@);
    string_of(out.as_slice())
}

/// The file name that the `Content-Disposition` value `header` gives, made safe.
pub open spec fn disposition_name_spec(header: Seq<char>) -> Option<Seq<char>> {
    match disposition_group(header) {
        Some(n) => Some(sanitize_spec(n)),
        None => None,
    }
}

/// The file name a `Content-Disposition` value names, with slashes and
/// backslashes replaced by `_`.
pub fn filename_from_disposition(header: &str) -> (r: Option<String>)
    ensures
        match r {
            Some(s) => disposition_name_spec(header@) == Some(s@),
            None => disposition_name_spec(header@) is None,
        },
{
    match regex_capture_group(DISPOSITION_PATTERN, header, 1) {
        Some(name) => Some(sanitize_filename(name.as_str())),
        None => None,
    }
}

/// The file name a URL gives: what follows its last `/`, up to its first `?`.
pub open spec fn url_name_spec(url: Seq<char>) -> Seq<char> {
    split_on(split_on(url, '/').last(), '?')[0]
}

/// What follows the last `/` of `url`, up to the first `?` after it.
pub fn filename_from_url(url: &str) -> (r: String)
    ensures
        r@ == url_name_spec(url@),
{
    let chars = chars_of(url);
    let parts = split_chars(chars.as_slice(), '/');
    proof {
        lemma_split_nonempty(chars@, '/');
    }
    let last = &parts[parts.len() - 1];
    let pieces = split_chars(last.as_slice(), '?');
    proof {
        lemma_split_nonempty(last@, '?');
    }
    string_of(pieces[0].as_slice())
}

/// The name chosen for the downloaded file, and whether the server gave it.
pub struct DetectedFilename {
    /// The file name.
    pub name: String,
    /// Whether it came from the `Content-Disposition` header.
    pub from_disposition: bool,
}

/// Chooses the file name: the one `Content-Disposition` gives when the header is
/// there and names one, otherwise the one the URL gives.
pub fn choose_filename(disposition: Option<&str>, url: &str) -> (r: DetectedFilename)
    ensures
        r.from_disposition <==> (disposition matches Some(h) && disposition_name_spec(h@) is Some),
        r.from_disposition ==> (disposition matches Some(h) && disposition_name_spec(h@) == Some(
            r.name@,
        )),
        !r.from_disposition ==> r.name@ == url_name_spec(url@),
{
    if let Some(h) = disposition {
        if let Some(name) = filename_from_disposition(h) {
            return DetectedFilename { name, from_disposition: true };
        }
    }
    DetectedFilename { name: filename_from_url(url), from_disposition: false }
}

/// A name made safe holds no slash and no backslash, and keeps its length.
pub proof fn lemma_sanitized_has_no_separators(name: Seq<char>)
    ensures
        !sanitize_spec(name).contains('/'),
        !sanitize_spec(name).contains('\\'),
        sanitize_spec(name).len() == name.len(),
{
    let t = sanitize_spec(name);
    if t.contains('/') {
        let i = choose|i: int| 0 <= i < t.len() && t[i] == '/';
        assert(t[i] == safe_char(name[i]));
    }
    if t.contains('\\') {
        let i = choose|i: int| 0 <= i < t.len() && t[i] == '\\';
        assert(t[i] == safe_char(name[i]));
    }
}

/// The nine characters `filename=`.
pub open spec fn keyword() -> Seq<char> {
    seq!['f', 'i', 'l', 'e', 'n', 'a', 'm', 'e', '=']
}

/// `filename=` occurs nowhere in `p`.
pub open spec fn lacks_keyword(p: Seq<char>) -> bool {
    forall|i: int| !#[trigger] keyword_at(p, i)
}

/// No quote character in `n`.
pub open spec fn quote_free(n: Seq<char>) -> bool {
    forall|i: int| 0 <= i < n.len() ==> !is_quote(#[trigger] n[i])
}

/// Whether `r` is `n` with each slash and backslash written as `_`, every other
/// character kept in its place.
pub open spec fn is_safe_copy(r: Seq<char>, n: Seq<char>) -> bool {
    &&& r.len() == n.len()
    &&& forall|i: int|
        0 <= i < n.len() ==> #[trigger] r[i] == (if n[i] == '/' || n[i] == '\\' {
            '_'
        } else {
            n[i]
        })
}

proof fn lemma_no_match_before(h: Seq<char>, p: Seq<char>, q: int)
    requires
        lacks_keyword(p),
        h.len() >= p.len() + 9,
        h.subrange(0, p.len() as int) == p,
        h.subrange(p.len() as int, p.len() + 9int) == keyword(),
        0 <= q < p.len(),
    ensures
        !keyword_at(h, q),
{
    if keyword_at(h, q) {
        let w = h.subrange(q, q + 9);
        if q + 9 <= p.len() {
            assert(p.subrange(q, q + 9) =~= w);
            assert(keyword_at(p, q));
        } else {
            let j = p.len() - q;
            assert(w[j] == h[p.len() as int]);
            assert(h[p.len() as int] == h.subrange(p.len() as int, p.len() + 9int)[0]);
            assert(keyword()[j] != 'f');
        }
    }
}

proof fn lemma_first_match(h: Seq<char>, p: Seq<char>, q: int)
    requires
        lacks_keyword(p),
        h.len() >= p.len() + 9,
        h.subrange(0, p.len() as int) == p,
        h.subrange(p.len() as int, p.len() + 9int) == keyword(),
        pattern_matches_at(h, p.len() as int),
        0 <= q <= p.len(),
    ensures
        first_match_from(h, q) == Some(p.len() as int),
    decreases p.len() - q,
{
    if q < p.len() {
        lemma_no_match_before(h, p, q);
        lemma_first_match(h, p, q + 1);
    }
}

proof fn lemma_run_end(h: Seq<char>, g: int, k: int, stop: int)
    requires
        0 <= g <= k <= stop <= h.len(),
        forall|i: int| g <= i < stop ==> !is_quote(#[trigger] h[i]),
        stop == h.len() || is_quote(h[stop]),
    ensures
        run_end(h, k) == stop,
    decreases stop - k,
{
    if k < stop {
        lemma_run_end(h, g, k + 1, stop);
    }
}

proof fn lemma_name_after_keyword(h: Seq<char>, p: Seq<char>, g: int, n: Seq<char>)
    requires
        lacks_keyword(p),
        quote_free(n),
        n.len() > 0,
        h.subrange(0, p.len() as int) == p,
        h.subrange(p.len() as int, p.len() + 9int) == keyword(),
        g == name_start(h, p.len() as int),
        g + n.len() <= h.len(),
        h.subrange(g, g + n.len()) == n,
        g + n.len() == h.len() || is_quote(h[g + n.len()]),
    ensures
        disposition_name_spec(h) matches Some(r) && is_safe_copy(r, n),
{
    assert(h[g] == n[0]);
    assert(pattern_matches_at(h, p.len() as int));
    lemma_first_match(h, p, 0);
    assert forall|i: int| g <= i < g + n.len() implies !is_quote(#[trigger] h[i]) by {
        assert(h[i] == n[i - g]);
    }
    lemma_run_end(h, g, g, g + n.len());
    assert(disposition_group(h) == Some(n));
}

/// The name given in quotes after the first `filename=` of a header is the file
/// name, with slashes and backslashes written as `_`, whatever precedes it.
pub proof fn lemma_quoted_name(p: Seq<char>, n: Seq<char>, q: char, rest: Seq<char>)
    requires
        lacks_keyword(p),
        quote_free(n),
        n.len() > 0,
        is_quote(q),
    ensures
        disposition_name_spec(p + keyword() + seq![q] + n + seq![q] + rest) matches Some(r)
            && is_safe_copy(r, n),
{
    let h = p + keyword() + seq![q] + n + seq![q] + rest;
    let k = p.len() as int;
    assert(h.subrange(0, k) =~= p);
    assert(h.subrange(k, k + 9) =~= keyword());
    assert(h[k + 9] == q);
    let g = k + 10;
    assert(h.subrange(g, g + n.len()) =~= n);
    assert(h[g + n.len()] == q);
    lemma_name_after_keyword(h, p, g, n);
}

/// Without quotes, the name is everything after the first `filename=` up to the
/// first quote or the end, with slashes and backslashes written as `_`.
pub proof fn lemma_unquoted_name(p: Seq<char>, n: Seq<char>)
    requires
        lacks_keyword(p),
        quote_free(n),
        n.len() > 0,
    ensures
        disposition_name_spec(p + keyword() + n) matches Some(r) && is_safe_copy(r, n),
{
    let h = p + keyword() + n;
    let k = p.len() as int;
    assert(h.subrange(0, k) =~= p);
    assert(h.subrange(k, k + 9) =~= keyword());
    assert(h[k + 9] == n[0]);
    let g = k + 9;
    assert(h.subrange(g, g + n.len()) =~= n);
    lemma_name_after_keyword(h, p, g, n);
}

proof fn lemma_no_match_anywhere(h: Seq<char>, q: int)
    requires
        lacks_keyword(h),
        0 <= q,
    ensures
        first_match_from(h, q) is None,
    decreases h.len() + 1 - q,
{
    if q <= h.len() {
        assert(!keyword_at(h, q));
        lemma_no_match_anywhere(h, q + 1);
    }
}

/// A header without `filename=` names no file.
pub proof fn lemma_no_keyword_no_name(h: Seq<char>)
    requires
        lacks_keyword(h),
    ensures
        disposition_name_spec(h) is None,
{
    lemma_no_match_anywhere(h, 0);
}

/// The name from a URL is its last path piece, unchanged, without the query:
/// for `a + "/" + n + b` with no `/` or `?` in `n`, and `b` empty or a query
/// (starting with `?`, holding no `/`), it is `n`.
pub proof fn lemma_url_name(a: Seq<char>, n: Seq<char>, b: Seq<char>)
    requires
        !n.contains('/'),
        !n.contains('?'),
        !b.contains('/'),
        b.len() == 0 || b[0] == '?',
    ensures
        url_name_spec(a + seq!['/'] + n + b) == n,
{
    let tail = n + b;
    assert(a + seq!['/'] + n + b =~= a + seq!['/'] + tail);
    assert(!tail.contains('/')) by {
        if tail.contains('/') {
            let i = choose|i: int| 0 <= i < tail.len() && tail[i] == '/';
            if i < n.len() {
                assert(n[i] == '/');
            } else {
                assert(b[i - n.len()] == '/');
            }
        }
    }
    lemma_split_concat(a, tail, '/');
    lemma_split_single(tail, '/');
    lemma_split_nonempty(a, '/');
    assert(split_on(a + seq!['/'] + tail, '/').last() == tail);
    lemma_split_single(n, '?');
    if b.len() == 0 {
        assert(tail =~= n);
    } else {
        let b1 = b.drop_first();
        assert(tail =~= n + seq!['?'] + b1);
        lemma_split_concat(n, b1, '?');
    }
}

/// A URL without `/` names a file by itself, up to its query.
pub proof fn lemma_url_name_without_slash(n: Seq<char>, b: Seq<char>)
    requires
        !n.contains('/'),
        !n.contains('?'),
        !b.contains('/'),
        b.len() == 0 || b[0] == '?',
    ensures
        url_name_spec(n + b) == n,
{
    let tail = n + b;
    assert(!tail.contains('/')) by {
        if tail.contains('/') {
            let i = choose|i: int| 0 <= i < tail.len() && tail[i] == '/';
            if i < n.len() {
                assert(n[i] == '/');
            } else {
                assert(b[i - n.len()] == '/');
            }
        }
    }
    lemma_split_single(tail, '/');
    lemma_split_single(n, '?');
    if b.len() == 0 {
        assert(tail =~= n);
    } else {
        let b1 = b.drop_first();
        assert(tail =~= n + seq!['?'] + b1);
        lemma_split_concat(n, b1, '?');
    }
}

} // verus!

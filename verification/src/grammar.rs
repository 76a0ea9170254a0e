//! The grammar engine: the lexical and syntactic rules of the file format.
//!
//! The format is line-oriented. A document is optional blank space and
//! `###` title delimiters, then requests separated by delimiters. A request
//! is a request line (`METHOD uri HTTP/d.d`), a run of `name: value` header
//! lines, and, after a blank line, a free-text body that runs to the next
//! delimiter line or the end of the input.
//!
//! Every rule has a specification-level definition over `Seq<char>`
//! (`req_line_at`, `headers_at`, `request_at`, `requests_at`, `file_at`);
//! the executable engine is verified to return exactly what those
//! definitions say.

use vstd::prelude::*;

use crate::parser::{ParseError, SpecError};
use crate::scan::{cls_test, in_cls, lemma_scan, scan, scan_from, Cls};

verus! {

/// The rules of the grammar, one variant per syntactic shape.
#[derive(Clone, Copy, Debug, PartialEq, Eq, Structural)]
pub enum Rule {
    /// A whole document.
    HttpFile,
    /// One request block.
    Request,
    /// A `###` title line.
    Delimiter,
    /// The free text of a delimiter line after the `###` marker.
    Title,
    /// The `METHOD uri HTTP/d.d` line that opens a request.
    RequestLine,
    /// A method token: one or more letters.
    Method,
    /// A URI token: one or more non-whitespace characters.
    Uri,
    /// A version token: digits, `.`, digits.
    Version,
    /// A run of header lines.
    Headers,
    /// One `name: value` line.
    Header,
    /// A header name: the text of a line up to and excluding `:`.
    HeaderName,
    /// A header value: the remainder of a header line, trimmed.
    HeaderValue,
    /// Free body text up to the next delimiter line or end of input.
    Body,
    /// A run of spaces and tabs.
    Whitespace,
}

/// Shorthand for a syntax error value.
pub open spec fn syn(rule: Rule, pos: int) -> SpecError {
    SpecError::Syntax { rule, pos }
}

/// A `###` delimiter marker starts at position `i`.
pub open spec fn starts_delim(s: Seq<char>, i: int) -> bool {
    &&& 0 <= i
    &&& i + 3 <= s.len()
    &&& s[i] == '#'
    &&& s[i + 1] == '#'
    &&& s[i + 2] == '#'
}

/// The literal `HTTP/` starts at position `i`.
pub open spec fn has_http_at(s: Seq<char>, i: int) -> bool {
    &&& 0 <= i
    &&& i + 5 <= s.len()
    &&& s[i] == 'H'
    &&& s[i + 1] == 'T'
    &&& s[i + 2] == 'T'
    &&& s[i + 3] == 'P'
    &&& s[i + 4] == '/'
}

/// Drop characters of `cls` from the front of the range `[b, e)`.
pub open spec fn ltrim(s: Seq<char>, b: int, e: int, cls: Cls) -> int
    decreases e - b,
{
    if 0 <= b && b < e && e <= s.len() && in_cls(cls, s[b]) {
        ltrim(s, b + 1, e, cls)
    } else {
        b
    }
}

/// Drop characters of `cls` from the back of the range `[b, e)`.
pub open spec fn rtrim(s: Seq<char>, b: int, e: int, cls: Cls) -> int
    decreases e - b,
{
    if 0 <= b && b < e && e <= s.len() && in_cls(cls, s[e - 1]) {
        rtrim(s, b, e - 1, cls)
    } else {
        e
    }
}

pub proof fn lemma_rtrim(s: Seq<char>, b: int, e: int, cls: Cls)
    requires
        0 <= b <= e <= s.len(),
    ensures
        b <= rtrim(s, b, e, cls) <= e,
        forall|j: int| rtrim(s, b, e, cls) <= j < e ==> in_cls(cls, s[j]),
        rtrim(s, b, e, cls) > b ==> !in_cls(cls, s[rtrim(s, b, e, cls) - 1]),
    decreases e - b,
{
    if b < e && in_cls(cls, s[e - 1]) {
        lemma_rtrim(s, b, e - 1, cls);
    }
}

/// The result of matching a request line: the three tokens and the
/// position just past the line terminator.
pub ghost struct GReqLine {
    pub method: Seq<char>,
    pub url: Seq<char>,
    pub version: Seq<char>,
    pub end: int,
}

/// Match a version token (`digits '.' digits`) at `i`; the end position on
/// success.
pub open spec fn version_end_at(s: Seq<char>, i: int) -> Result<int, SpecError> {
    let d1 = scan(s, i, Cls::Digit);
    if d1 == i {
        Err(syn(Rule::Version, i))
    } else if !(d1 < s.len() && s[d1] == '.') {
        Err(syn(Rule::Version, d1))
    } else {
        let d2 = scan(s, d1 + 1, Cls::Digit);
        if d2 == d1 + 1 {
            Err(syn(Rule::Version, d1 + 1))
        } else {
            Ok(d2)
        }
    }
}

/// Match a request line at `i`: a method token, whitespace, a URI token,
/// whitespace, the literal `HTTP/`, a version token, optional trailing
/// spaces, and a newline or the end of the input.
pub open spec fn req_line_at(s: Seq<char>, i: int) -> Result<GReqLine, SpecError> {
    let m_end = scan(s, i, Cls::Letter);
    if m_end == i {
        Err(syn(Rule::Method, i))
    } else {
        let u_start = scan(s, m_end, Cls::LineWs);
        if u_start == m_end {
            Err(syn(Rule::Whitespace, m_end))
        } else {
            let u_end = scan(s, u_start, Cls::NonWs);
            if u_end == u_start {
                Err(syn(Rule::Uri, u_start))
            } else {
                let h_start = scan(s, u_end, Cls::LineWs);
                if h_start == u_end {
                    Err(syn(Rule::Whitespace, u_end))
                } else if !has_http_at(s, h_start) {
                    Err(syn(Rule::Version, h_start))
                } else {
                    match version_end_at(s, h_start + 5) {
                        Err(e) => Err(e),
                        Ok(v_end) => {
                            let t = scan(s, v_end, Cls::LineWs);
                            if t == s.len() || s[t] == '\n' {
                                Ok(GReqLine {
                                    method: s.subrange(i, m_end),
                                    url: s.subrange(u_start, u_end),
                                    version: s.subrange(h_start + 5, v_end),
                                    end: if t == s.len() { t } else { t + 1 },
                                })
                            } else {
                                Err(syn(Rule::RequestLine, t))
                            }
                        },
                    }
                }
            }
        }
    }
}

/// A successfully matched request line lies inside the text and consumes
/// at least one character.
pub proof fn lemma_req_line_bounds(s: Seq<char>, i: int)
    requires
        0 <= i <= s.len(),
        req_line_at(s, i) matches Ok(_),
    ensures
        req_line_at(s, i) matches Ok(rl) && i < rl.end <= s.len(),
{
    lemma_scan(s, i, Cls::Letter);
    let m_end = scan(s, i, Cls::Letter);
    lemma_scan(s, m_end, Cls::LineWs);
    let u_start = scan(s, m_end, Cls::LineWs);
    lemma_scan(s, u_start, Cls::NonWs);
    let u_end = scan(s, u_start, Cls::NonWs);
    lemma_scan(s, u_end, Cls::LineWs);
    let h_start = scan(s, u_end, Cls::LineWs);
    lemma_scan(s, h_start + 5, Cls::Digit);
    let d1 = scan(s, h_start + 5, Cls::Digit);
    lemma_scan(s, d1 + 1, Cls::Digit);
    let d2 = scan(s, d1 + 1, Cls::Digit);
    lemma_scan(s, d2, Cls::LineWs);
}

/// A line at `i` has the shape of a header: a non-empty run of name
/// characters followed by `:`.
pub open spec fn header_shaped(s: Seq<char>, i: int) -> bool {
    let n_end = scan(s, i, Cls::NameChar);
    n_end > i && n_end < s.len() && s[n_end] == ':'
}

/// The result of matching one header line: name, trimmed value, and the
/// position just past the line terminator.
pub ghost struct GHeader {
    pub name: Seq<char>,
    pub value: Seq<char>,
    pub end: int,
}

/// Match one header line at `i` (which must be header-shaped): the name is
/// the text before `:`, the value is the remainder of the line with
/// surrounding spaces and tabs trimmed.
pub open spec fn header_at(s: Seq<char>, i: int) -> GHeader {
    let n_end = scan(s, i, Cls::NameChar);
    let v_start = scan(s, n_end + 1, Cls::LineWs);
    let v_stop = scan(s, v_start, Cls::NotNl);
    let v_end = rtrim(s, v_start, v_stop, Cls::LineWs);
    GHeader {
        name: s.subrange(i, n_end),
        value: s.subrange(v_start, v_end),
        end: if v_stop == s.len() {
            v_stop
        } else {
            v_stop + 1
        },
    }
}

/// A header-shaped line lies inside the text and consumes at least one
/// character.
pub proof fn lemma_header_end(s: Seq<char>, i: int)
    requires
        0 <= i <= s.len(),
        header_shaped(s, i),
    ensures
        i < header_at(s, i).end <= s.len(),
        header_at(s, i).end > scan(s, i, Cls::NameChar),
{
    lemma_scan(s, i, Cls::NameChar);
    let n_end = scan(s, i, Cls::NameChar);
    lemma_scan(s, n_end + 1, Cls::LineWs);
    let v_start = scan(s, n_end + 1, Cls::LineWs);
    lemma_scan(s, v_start, Cls::NotNl);
    let v_stop = scan(s, v_start, Cls::NotNl);
    lemma_rtrim(s, v_start, v_stop, Cls::LineWs);
}

/// Match a run of header lines starting at `i`: the `(name, value)` pairs
/// in document order and the position of the first line that is blank or
/// not header-shaped.
pub open spec fn headers_at(s: Seq<char>, i: int) -> (Seq<(Seq<char>, Seq<char>)>, int)
    decreases s.len() - i,
        via headers_at_dec
{
    if 0 <= i <= s.len() && header_shaped(s, i) {
        let h = header_at(s, i);
        let rest = headers_at(s, h.end);
        (seq![(h.name, h.value)] + rest.0, rest.1)
    } else {
        (Seq::empty(), i)
    }
}

#[via_fn]
proof fn headers_at_dec(s: Seq<char>, i: int) {
    if 0 <= i <= s.len() && header_shaped(s, i) {
        lemma_header_end(s, i);
    }
}

/// A header run ends inside the text, at or after its start.
pub proof fn lemma_headers_bounds(s: Seq<char>, i: int)
    requires
        0 <= i <= s.len(),
    ensures
        i <= headers_at(s, i).1 <= s.len(),
    decreases s.len() - i,
{
    if header_shaped(s, i) {
        lemma_header_end(s, i);
        lemma_headers_bounds(s, header_at(s, i).end);
    }
}

/// The end of body text that starts at `i`: the first delimiter marker
/// that stands at the start of a line, or the end of the input.
/// `at_line_start` says whether `i` is the first position of a line.
pub open spec fn body_end(s: Seq<char>, i: int, at_line_start: bool) -> int
    decreases s.len() - i,
{
    if !(0 <= i < s.len()) {
        s.len() as int
    } else if at_line_start && starts_delim(s, i) {
        i
    } else {
        body_end(s, i + 1, s[i] == '\n')
    }
}

pub proof fn lemma_body_end_bounds(s: Seq<char>, i: int, at_line_start: bool)
    requires
        0 <= i <= s.len(),
    ensures
        i <= body_end(s, i, at_line_start) <= s.len(),
    decreases s.len() - i,
{
    if i < s.len() && !(at_line_start && starts_delim(s, i)) {
        lemma_body_end_bounds(s, i + 1, s[i] == '\n');
    }
}

/// One raw request block as the grammar sees it: the method token is not
/// yet validated and the headers are still an ordered list of pairs.
pub ghost struct GRequest {
    pub method: Seq<char>,
    pub url: Seq<char>,
    pub version: Seq<char>,
    pub headers: Seq<(Seq<char>, Seq<char>)>,
    pub body: Seq<char>,
}

/// Match one request block at `i`: a request line, a header run, and then
/// either the end of the input or a delimiter (no body), or a blank line
/// followed by body text trimmed of surrounding whitespace. The returned
/// position is where the block ends: the end of the input or the start of
/// the next delimiter line.
pub open spec fn request_at(s: Seq<char>, i: int) -> Result<(GRequest, int), SpecError> {
    match req_line_at(s, i) {
        Err(e) => Err(e),
        Ok(rl) => {
            let (hs, j) = headers_at(s, rl.end);
            let w = scan(s, j, Cls::LineWs);
            if w == s.len() || starts_delim(s, w) {
                Ok(
                    (
                        GRequest {
                            method: rl.method,
                            url: rl.url,
                            version: rl.version,
                            headers: hs,
                            body: Seq::empty(),
                        },
                        w,
                    ),
                )
            } else if s[w] == '\n' {
                let b = w + 1;
                let e = body_end(s, b, true);
                let lo = ltrim(s, b, e, Cls::AnyWs);
                let hi = rtrim(s, lo, e, Cls::AnyWs);
                Ok(
                    (
                        GRequest {
                            method: rl.method,
                            url: rl.url,
                            version: rl.version,
                            headers: hs,
                            body: s.subrange(lo, hi),
                        },
                        e,
                    ),
                )
            } else {
                Err(syn(Rule::Request, w))
            }
        },
    }
}

/// A successfully matched request block lies inside the text and consumes
/// at least one character.
pub proof fn lemma_request_bounds(s: Seq<char>, i: int)
    requires
        0 <= i <= s.len(),
        request_at(s, i) matches Ok(_),
    ensures
        request_at(s, i) matches Ok((g, j)) && i < j <= s.len(),
{
    lemma_req_line_bounds(s, i);
    let rl = req_line_at(s, i)->Ok_0;
    lemma_headers_bounds(s, rl.end);
    let j = headers_at(s, rl.end).1;
    lemma_scan(s, j, Cls::LineWs);
    let w = scan(s, j, Cls::LineWs);
    if !(w == s.len() || starts_delim(s, w)) && s[w] == '\n' {
        lemma_body_end_bounds(s, w + 1, true);
    }
}

/// The position just past a delimiter line that starts at `i`: the rest of
/// the line is its title, and the line terminator is consumed.
pub open spec fn delim_end(s: Seq<char>, i: int) -> int {
    let t = scan(s, i + 3, Cls::NotNl);
    if t == s.len() {
        t
    } else {
        t + 1
    }
}

/// Skip the blank space and delimiter lines that may stand before a
/// request: the position of the first character that belongs to neither.
pub open spec fn skip_preamble(s: Seq<char>, i: int) -> int
    decreases s.len() - i,
        via skip_preamble_dec
{
    if !(0 <= i <= s.len()) {
        i
    } else {
        let w = scan(s, i, Cls::AnyWs);
        if starts_delim(s, w) {
            skip_preamble(s, delim_end(s, w))
        } else {
            w
        }
    }
}

#[via_fn]
proof fn skip_preamble_dec(s: Seq<char>, i: int) {
    if 0 <= i <= s.len() {
        lemma_scan(s, i, Cls::AnyWs);
        let w = scan(s, i, Cls::AnyWs);
        if starts_delim(s, w) {
            lemma_scan(s, w + 3, Cls::NotNl);
        }
    }
}

pub proof fn lemma_skip_preamble_bounds(s: Seq<char>, i: int)
    requires
        0 <= i <= s.len(),
    ensures
        i <= skip_preamble(s, i) <= s.len(),
    decreases s.len() - i,
{
    lemma_scan(s, i, Cls::AnyWs);
    let w = scan(s, i, Cls::AnyWs);
    if starts_delim(s, w) {
        lemma_scan(s, w + 3, Cls::NotNl);
        lemma_skip_preamble_bounds(s, delim_end(s, w));
    }
}

/// Match the requests of a document from position `i` (which must not lie
/// inside blank space or a delimiter): each request, then any delimiters
/// and blank space, until the end of the input.
pub open spec fn requests_at(s: Seq<char>, i: int) -> Result<Seq<GRequest>, SpecError>
    decreases s.len() - i,
        via requests_at_dec
{
    if !(0 <= i < s.len()) {
        Ok(Seq::empty())
    } else {
        match request_at(s, i) {
            Err(e) => Err(e),
            Ok((g, j)) => {
                let k = skip_preamble(s, j);
                match requests_at(s, k) {
                    Err(e) => Err(e),
                    Ok(rest) => Ok(seq![g] + rest),
                }
            },
        }
    }
}

#[via_fn]
proof fn requests_at_dec(s: Seq<char>, i: int) {
    if 0 <= i < s.len() {
        match request_at(s, i) {
            Ok((g, j)) => {
                lemma_request_bounds(s, i);
                lemma_skip_preamble_bounds(s, j);
            },
            Err(_) => {},
        }
    }
}

/// Match a whole document: leading blank space and delimiters, then the
/// requests in document order.
pub open spec fn file_at(s: Seq<char>) -> Result<Seq<GRequest>, SpecError> {
    requests_at(s, skip_preamble(s, 0))
}

/// One `name: value` line as matched by the engine.
#[derive(Debug)]
pub struct HeaderLine {
    pub name: String,
    pub value: String,
}

/// One request block as matched by the engine, before semantic validation.
pub struct RawRequest {
    pub method_text: String,
    pub url: String,
    pub version: String,
    pub headers: Vec<HeaderLine>,
    pub body: String,
}

/// The `(name, value)` pairs of a run of header lines.
pub open spec fn hls_view(hs: Seq<HeaderLine>) -> Seq<(Seq<char>, Seq<char>)> {
    hs.map_values(|h: HeaderLine| (h.name@, h.value@))
}

/// The raw request block a `RawRequest` stands for.
pub open spec fn raw_view(r: RawRequest) -> GRequest {
    GRequest {
        method: r.method_text@,
        url: r.url@,
        version: r.version@,
        headers: hls_view(r.headers@),
        body: r.body@,
    }
}

/// The raw request blocks a sequence of `RawRequest` stands for.
pub open spec fn raws_view(v: Seq<RawRequest>) -> Seq<GRequest> {
    v.map_values(|r: RawRequest| raw_view(r))
}

/// Whether a `###` delimiter marker starts at position `i`.
fn is_delim_at(s: &str, n: usize, i: usize) -> (b: bool)
    requires
        n == s@.len(),
        i <= n,
    ensures
        b == starts_delim(s@, i as int),
{
    if n - i >= 3 {
        s.get_char(i) == '#' && s.get_char(i + 1) == '#' && s.get_char(i + 2) == '#'
    } else {
        false
    }
}

/// Whether the literal `HTTP/` starts at position `i`.
fn is_http_at(s: &str, n: usize, i: usize) -> (b: bool)
    requires
        n == s@.len(),
        i <= n,
    ensures
        b == has_http_at(s@, i as int),
{
    if n - i >= 5 {
        s.get_char(i) == 'H' && s.get_char(i + 1) == 'T' && s.get_char(i + 2) == 'T' && s.get_char(
            i + 3,
        ) == 'P' && s.get_char(i + 4) == '/'
    } else {
        false
    }
}

/// Executable left trim over the range `[b, e)`.
fn ltrim_from(s: &str, n: usize, b: usize, e: usize, cls: Cls) -> (r: usize)
    requires
        n == s@.len(),
        b <= e <= n,
    ensures
        r == ltrim(s@, b as int, e as int, cls),
        b <= r <= e,
{
    let mut k: usize = b;
    while k < e && cls_test(cls, s.get_char(k))
        invariant
            n == s@.len(),
            b <= k <= e <= n,
            ltrim(s@, b as int, e as int, cls) == ltrim(s@, k as int, e as int, cls),
        decreases e - k,
    {
        k = k + 1;
    }
    k
}

/// Executable right trim over the range `[b, e)`.
fn rtrim_from(s: &str, n: usize, b: usize, e: usize, cls: Cls) -> (r: usize)
    requires
        n == s@.len(),
        b <= e <= n,
    ensures
        r == rtrim(s@, b as int, e as int, cls),
        b <= r <= e,
{
    let mut k: usize = e;
    while k > b && cls_test(cls, s.get_char(k - 1))
        invariant
            n == s@.len(),
            b <= k <= e <= n,
            rtrim(s@, b as int, e as int, cls) == rtrim(s@, b as int, k as int, cls),
        decreases k,
    {
        k = k - 1;
    }
    k
}

/// Match a request line at `i`, returning the three tokens and the
/// position just past the line terminator.
pub(crate) fn request_line(s: &str, n: usize, i: usize) -> (r: Result<
    (String, String, String, usize),
    ParseError,
>)
    requires
        n == s@.len(),
        i <= n,
    ensures
        match r {
            Ok((m, u, v, j)) => req_line_at(s@, i as int) == Ok::<GReqLine, SpecError>(
                GReqLine { method: m@, url: u@, version: v@, end: j as int },
            ) && i < j <= n,
            Err(e) => req_line_at(s@, i as int) == Err::<GReqLine, SpecError>(e@),
        },
{
    let m_end = scan_from(s, n, i, Cls::Letter);
    if m_end == i {
        return Err(ParseError::SyntaxError { rule: Rule::Method, pos: i });
    }
    let u_start = scan_from(s, n, m_end, Cls::LineWs);
    if u_start == m_end {
        return Err(ParseError::SyntaxError { rule: Rule::Whitespace, pos: m_end });
    }
    let u_end = scan_from(s, n, u_start, Cls::NonWs);
    if u_end == u_start {
        return Err(ParseError::SyntaxError { rule: Rule::Uri, pos: u_start });
    }
    let h_start = scan_from(s, n, u_end, Cls::LineWs);
    if h_start == u_end {
        return Err(ParseError::SyntaxError { rule: Rule::Whitespace, pos: u_end });
    }
    if !is_http_at(s, n, h_start) {
        return Err(ParseError::SyntaxError { rule: Rule::Version, pos: h_start });
    }
    let v_start = h_start + 5;
    let d1 = scan_from(s, n, v_start, Cls::Digit);
    if d1 == v_start {
        return Err(ParseError::SyntaxError { rule: Rule::Version, pos: v_start });
    }
    if !(d1 < n && s.get_char(d1) == '.') {
        return Err(ParseError::SyntaxError { rule: Rule::Version, pos: d1 });
    }
    let d2 = scan_from(s, n, d1 + 1, Cls::Digit);
    if d2 == d1 + 1 {
        return Err(ParseError::SyntaxError { rule: Rule::Version, pos: d1 + 1 });
    }
    let t = scan_from(s, n, d2, Cls::LineWs);
    if t == n {
        let m = s.substring_char(i, m_end).to_owned();
        let u = s.substring_char(u_start, u_end).to_owned();
        let v = s.substring_char(v_start, d2).to_owned();
        Ok((m, u, v, t))
    } else if s.get_char(t) == '\n' {
        let m = s.substring_char(i, m_end).to_owned();
        let u = s.substring_char(u_start, u_end).to_owned();
        let v = s.substring_char(v_start, d2).to_owned();
        Ok((m, u, v, t + 1))
    } else {
        Err(ParseError::SyntaxError { rule: Rule::RequestLine, pos: t })
    }
}

/// Whether the line at `i` is header-shaped.
fn is_header_at(s: &str, n: usize, i: usize) -> (b: bool)
    requires
        n == s@.len(),
        i <= n,
    ensures
        b == header_shaped(s@, i as int),
{
    let n_end = scan_from(s, n, i, Cls::NameChar);
    n_end > i && n_end < n && s.get_char(n_end) == ':'
}

/// Match the header-shaped line at `i`.
fn header_line(s: &str, n: usize, i: usize) -> (r: (HeaderLine, usize))
    requires
        n == s@.len(),
        i <= n,
        header_shaped(s@, i as int),
    ensures
        ({
            let h = header_at(s@, i as int);
            r.0.name@ == h.name && r.0.value@ == h.value && r.1 == h.end && i < r.1 <= n
        }),
{
    let n_end = scan_from(s, n, i, Cls::NameChar);
    let name = s.substring_char(i, n_end).to_owned();
    let v_start = scan_from(s, n, n_end + 1, Cls::LineWs);
    let v_stop = scan_from(s, n, v_start, Cls::NotNl);
    let v_end = rtrim_from(s, n, v_start, v_stop, Cls::LineWs);
    let value = s.substring_char(v_start, v_end).to_owned();
    let end = if v_stop == n {
        v_stop
    } else {
        v_stop + 1
    };
    (HeaderLine { name, value }, end)
}

/// Match the run of header lines starting at `i`.
pub(crate) fn header_run(s: &str, n: usize, i: usize) -> (r: (Vec<HeaderLine>, usize))
    requires
        n == s@.len(),
        i <= n,
    ensures
        hls_view(r.0@) == headers_at(s@, i as int).0,
        r.1 == headers_at(s@, i as int).1,
        i <= r.1 <= n,
{
    let mut acc: Vec<HeaderLine> = Vec::new();
    let mut k: usize = i;
    while is_header_at(s, n, k)
        invariant
            n == s@.len(),
            i <= k <= n,
            headers_at(s@, i as int).0 == hls_view(acc@) + headers_at(s@, k as int).0,
            headers_at(s@, i as int).1 == headers_at(s@, k as int).1,
        decreases n - k,
    {
        let (h, k2) = header_line(s, n, k);
        proof {
            let hv = (h.name@, h.value@);
            let rest = headers_at(s@, k2 as int);
            assert(headers_at(s@, k as int).0 == seq![hv] + rest.0);
            assert(hls_view(acc@.push(h)) =~= hls_view(acc@).push(hv));
            assert(hls_view(acc@) + (seq![hv] + rest.0) =~= hls_view(acc@.push(h)) + rest.0);
        }
        acc.push(h);
        k = k2;
    }
    proof {
        assert(headers_at(s@, k as int).0 == Seq::<(Seq<char>, Seq<char>)>::empty());
        assert(hls_view(acc@) + Seq::<(Seq<char>, Seq<char>)>::empty() =~= hls_view(acc@));
    }
    (acc, k)
}

/// The end of body text that starts at line start `i`.
fn body_stop(s: &str, n: usize, i: usize) -> (r: usize)
    requires
        n == s@.len(),
        i <= n,
    ensures
        r == body_end(s@, i as int, true),
        i <= r <= n,
{
    let mut k: usize = i;
    let mut ls: bool = true;
    while k < n && !(ls && is_delim_at(s, n, k))
        invariant
            n == s@.len(),
            i <= k <= n,
            body_end(s@, i as int, true) == body_end(s@, k as int, ls),
        decreases n - k,
    {
        let c = s.get_char(k);
        ls = c == '\n';
        k = k + 1;
    }
    k
}

/// Match one request block at `i`.
pub(crate) fn request(s: &str, n: usize, i: usize) -> (r: Result<(RawRequest, usize), ParseError>)
    requires
        n == s@.len(),
        i <= n,
    ensures
        match r {
            Ok((raw, j)) => request_at(s@, i as int) == Ok::<(GRequest, int), SpecError>(
                (raw_view(raw), j as int),
            ) && i < j <= n,
            Err(e) => request_at(s@, i as int) == Err::<(GRequest, int), SpecError>(e@),
        },
{
    let (m, u, v, rl_end) = match request_line(s, n, i) {
        Ok(d) => d,
        Err(e) => {
            return Err(e);
        },
    };
    let (hs, j) = header_run(s, n, rl_end);
    let w = scan_from(s, n, j, Cls::LineWs);
    if w == n || is_delim_at(s, n, w) {
        let raw = RawRequest {
            method_text: m,
            url: u,
            version: v,
            headers: hs,
            body: String::new(),
        };
        Ok((raw, w))
    } else if s.get_char(w) == '\n' {
        let b = w + 1;
        let e = body_stop(s, n, b);
        let lo = ltrim_from(s, n, b, e, Cls::AnyWs);
        let hi = rtrim_from(s, n, lo, e, Cls::AnyWs);
        let body = s.substring_char(lo, hi).to_owned();
        let raw = RawRequest { method_text: m, url: u, version: v, headers: hs, body };
        Ok((raw, e))
    } else {
        Err(ParseError::SyntaxError { rule: Rule::Request, pos: w })
    }
}

/// Skip blank space and delimiter lines starting at `i`.
pub(crate) fn preamble(s: &str, n: usize, i: usize) -> (r: usize)
    requires
        n == s@.len(),
        i <= n,
    ensures
        r == skip_preamble(s@, i as int),
        i <= r <= n,
{
    let mut k: usize = i;
    loop
        invariant
            n == s@.len(),
            i <= k <= n,
            skip_preamble(s@, i as int) == skip_preamble(s@, k as int),
        decreases n - k,
    {
        let w = scan_from(s, n, k, Cls::AnyWs);
        if is_delim_at(s, n, w) {
            let t = scan_from(s, n, w + 3, Cls::NotNl);
            let k2 = if t == n {
                t
            } else {
                t + 1
            };
            k = k2;
        } else {
            return w;
        }
    }
}

/// Match a whole document: the grammar stage of a parse. Returns the raw
/// request blocks in document order, or the syntax error the text contains.
pub fn document(s: &str) -> (r: Result<Vec<RawRequest>, ParseError>)
    ensures
        match r {
            Ok(v) => file_at(s@) == Ok::<Seq<GRequest>, SpecError>(raws_view(v@)),
            Err(e) => file_at(s@) == Err::<Seq<GRequest>, SpecError>(e@),
        },
{
    let n = s.unicode_len();
    let mut k = preamble(s, n, 0);
    let mut acc: Vec<RawRequest> = Vec::new();
    proof {
        assert(Seq::<GRequest>::empty() + requests_at(s@, k as int)->Ok_0 =~= requests_at(
            s@,
            k as int,
        )->Ok_0);
        assert(raws_view(acc@) =~= Seq::<GRequest>::empty());
    }
    while k < n
        invariant
            n == s@.len(),
            k <= n,
            match requests_at(s@, k as int) {
                Ok(rest) => file_at(s@) == Ok::<Seq<GRequest>, SpecError>(raws_view(acc@) + rest),
                Err(e) => file_at(s@) == Err::<Seq<GRequest>, SpecError>(e),
            },
        decreases n - k,
    {
        match request(s, n, k) {
            Err(e) => {
                return Err(e);
            },
            Ok((raw, j)) => {
                let k2 = preamble(s, n, j);
                proof {
                    let g = raw_view(raw);
                    let rest2 = requests_at(s@, k2 as int);
                    assert(requests_at(s@, k as int) == match rest2 {
                        Err(e) => Err::<Seq<GRequest>, SpecError>(e),
                        Ok(rest) => Ok::<Seq<GRequest>, SpecError>(seq![g] + rest),
                    });
                    assert(raws_view(acc@.push(raw)) =~= raws_view(acc@).push(g));
                    match rest2 {
                        Ok(rest) => {
                            assert(raws_view(acc@) + (seq![g] + rest) =~= raws_view(acc@.push(raw))
                                + rest);
                        },
                        Err(_) => {},
                    }
                }
                acc.push(raw);
                k = k2;
            },
        }
    }
    proof {
        assert(requests_at(s@, k as int) == Ok::<Seq<GRequest>, SpecError>(Seq::empty()));
        assert(raws_view(acc@) + Seq::<GRequest>::empty() =~= raws_view(acc@));
    }
    Ok(acc)
}

/// What matching one rule against the start of a text yields: the position
/// just past the matched span, or the syntax error. Rules that match a
/// possibly empty run (`Title`, `Headers`, `HeaderValue`, `Body`) always
/// succeed.
pub open spec fn rule_match(rule: Rule, s: Seq<char>) -> Result<int, SpecError> {
    match rule {
        Rule::HttpFile => match file_at(s) {
            Ok(_) => Ok(s.len() as int),
            Err(e) => Err(e),
        },
        Rule::Request => match request_at(s, 0) {
            Ok((_, j)) => Ok(j),
            Err(e) => Err(e),
        },
        Rule::Delimiter => if starts_delim(s, 0) {
            Ok(delim_end(s, 0))
        } else {
            Err(syn(Rule::Delimiter, 0))
        },
        Rule::Title => Ok(scan(s, 0, Cls::NotNl)),
        Rule::RequestLine => match req_line_at(s, 0) {
            Ok(rl) => Ok(rl.end),
            Err(e) => Err(e),
        },
        Rule::Method => if scan(s, 0, Cls::Letter) > 0 {
            Ok(scan(s, 0, Cls::Letter))
        } else {
            Err(syn(Rule::Method, 0))
        },
        Rule::Uri => if scan(s, 0, Cls::NonWs) > 0 {
            Ok(scan(s, 0, Cls::NonWs))
        } else {
            Err(syn(Rule::Uri, 0))
        },
        Rule::Version => version_end_at(s, 0),
        Rule::Headers => Ok(headers_at(s, 0).1),
        Rule::Header => if header_shaped(s, 0) {
            Ok(header_at(s, 0).end)
        } else {
            Err(syn(Rule::Header, 0))
        },
        Rule::HeaderName => if scan(s, 0, Cls::NameChar) > 0 {
            Ok(scan(s, 0, Cls::NameChar))
        } else {
            Err(syn(Rule::HeaderName, 0))
        },
        Rule::HeaderValue => Ok(scan(s, 0, Cls::NotNl)),
        Rule::Body => Ok(body_end(s, 0, true)),
        Rule::Whitespace => if scan(s, 0, Cls::LineWs) > 0 {
            Ok(scan(s, 0, Cls::LineWs))
        } else {
            Err(syn(Rule::Whitespace, 0))
        },
    }
}

/// A matched span of one rule: the rule and the end of the span, which
/// starts at the first character of the text.
pub struct ParseNode {
    pub rule: Rule,
    pub end: usize,
}

/// The grammar engine: matches single rules against a text.
pub struct HttpParser;

impl HttpParser {
    /// Match `rule` against the start of `input`: the matched span on
    /// success, the syntax error otherwise.
    pub fn parse(rule: Rule, input: &str) -> (r: Result<ParseNode, ParseError>)
        ensures
            match r {
                Ok(node) => node.rule == rule && rule_match(rule, input@) == Ok::<int, SpecError>(
                    node.end as int,
                ),
                Err(e) => rule_match(rule, input@) == Err::<int, SpecError>(e@),
            },
    {
        let n = input.unicode_len();
        match rule {
            Rule::HttpFile => match document(input) {
                Ok(_) => Ok(ParseNode { rule, end: n }),
                Err(e) => Err(e),
            },
            Rule::Request => match request(input, n, 0) {
                Ok((_, j)) => Ok(ParseNode { rule, end: j }),
                Err(e) => Err(e),
            },
            Rule::Delimiter => if is_delim_at(input, n, 0) {
                let t = scan_from(input, n, 3, Cls::NotNl);
                let end = if t == n {
                    t
                } else {
                    t + 1
                };
                Ok(ParseNode { rule, end })
            } else {
                Err(ParseError::SyntaxError { rule: Rule::Delimiter, pos: 0 })
            },
            Rule::Title => Ok(ParseNode { rule, end: scan_from(input, n, 0, Cls::NotNl) }),
            Rule::RequestLine => match request_line(input, n, 0) {
                Ok((_, _, _, j)) => Ok(ParseNode { rule, end: j }),
                Err(e) => Err(e),
            },
            Rule::Method => {
                let e = scan_from(input, n, 0, Cls::Letter);
                if e > 0 {
                    Ok(ParseNode { rule, end: e })
                } else {
                    Err(ParseError::SyntaxError { rule: Rule::Method, pos: 0 })
                }
            },
            Rule::Uri => {
                let e = scan_from(input, n, 0, Cls::NonWs);
                if e > 0 {
                    Ok(ParseNode { rule, end: e })
                } else {
                    Err(ParseError::SyntaxError { rule: Rule::Uri, pos: 0 })
                }
            },
            Rule::Version => {
                let d1 = scan_from(input, n, 0, Cls::Digit);
                if d1 == 0 {
                    Err(ParseError::SyntaxError { rule: Rule::Version, pos: 0 })
                } else if !(d1 < n && input.get_char(d1) == '.') {
                    Err(ParseError::SyntaxError { rule: Rule::Version, pos: d1 })
                } else {
                    let d2 = scan_from(input, n, d1 + 1, Cls::Digit);
                    if d2 == d1 + 1 {
                        Err(ParseError::SyntaxError { rule: Rule::Version, pos: d1 + 1 })
                    } else {
                        Ok(ParseNode { rule, end: d2 })
                    }
                }
            },
            Rule::Headers => {
                let (_, j) = header_run(input, n, 0);
                Ok(ParseNode { rule, end: j })
            },
            Rule::Header => if is_header_at(input, n, 0) {
                let (_, j) = header_line(input, n, 0);
                Ok(ParseNode { rule, end: j })
            } else {
                Err(ParseError::SyntaxError { rule: Rule::Header, pos: 0 })
            },
            Rule::HeaderName => {
                let e = scan_from(input, n, 0, Cls::NameChar);
                if e > 0 {
                    Ok(ParseNode { rule, end: e })
                } else {
                    Err(ParseError::SyntaxError { rule: Rule::HeaderName, pos: 0 })
                }
            },
            Rule::HeaderValue => Ok(ParseNode { rule, end: scan_from(input, n, 0, Cls::NotNl) }),
            Rule::Body => Ok(ParseNode { rule, end: body_stop(input, n, 0) }),
            Rule::Whitespace => {
                let e = scan_from(input, n, 0, Cls::LineWs);
                if e > 0 {
                    Ok(ParseNode { rule, end: e })
                } else {
                    Err(ParseError::SyntaxError { rule: Rule::Whitespace, pos: 0 })
                }
            },
        }
    }
}

} // verus!

//! General properties of parsing, stated and proved over the
//! specification-level definitions that the executable functions are
//! verified against.

use vstd::prelude::*;

use crate::grammar::{
    body_end, file_at, header_at, header_shaped, headers_at, req_line_at, request_at, requests_at,
    rtrim, starts_delim, GRequest,
};
use crate::parser::{
    fold_headers, method_name, method_of, spec_parse, transform_file, transform_request, HttpMethod,
    SpecError, SpecRequest,
};
use crate::scan::{in_cls, scan, Cls};

verus! {

/// Parsing is a function of the text alone: parsing the same text twice
/// yields equal results.
pub proof fn lemma_parse_deterministic(s1: Seq<char>, s2: Seq<char>)
    requires
        s1 == s2,
    ensures
        spec_parse(s1) == spec_parse(s2),
{
}

/// A successful parse returns one request per raw block of the document,
/// in document order.
pub proof fn lemma_transform_order_and_length(gs: Seq<GRequest>)
    requires
        transform_file(gs) matches Ok(_),
    ensures
        transform_file(gs) matches Ok(qs) && qs.len() == gs.len() && (forall|j: int|
            0 <= j < gs.len() ==> transform_request(#[trigger] gs[j]) == Ok::<
                SpecRequest,
                SpecError,
            >(qs[j])),
    decreases gs.len(),
{
    if gs.len() > 0 {
        lemma_transform_order_and_length(gs.drop_first());
        let qs = transform_file(gs)->Ok_0;
        let q0 = transform_request(gs[0])->Ok_0;
        let rest = transform_file(gs.drop_first())->Ok_0;
        assert(qs == seq![q0] + rest);
        assert forall|j: int| 0 <= j < gs.len() implies transform_request(#[trigger] gs[j]) == Ok::<
            SpecRequest,
            SpecError,
        >(qs[j]) by {
            if j > 0 {
                assert(gs.drop_first()[j - 1] == gs[j]);
                assert(qs[j] == rest[j - 1]);
                assert(transform_request(gs.drop_first()[j - 1]) == Ok::<SpecRequest, SpecError>(
                    rest[j - 1],
                ));
            }
        }
    }
}

/// A document of blank space and delimiter lines alone holds zero requests
/// and parses to the empty request list.
pub proof fn lemma_empty_document(s: Seq<char>)
    requires
        crate::grammar::skip_preamble(s, 0) == s.len(),
    ensures
        spec_parse(s) == Ok::<Seq<SpecRequest>, SpecError>(Seq::empty()),
{
}

/// A request whose header section is followed directly by the end of the
/// input or by the next delimiter has the empty body.
pub proof fn lemma_request_without_body(s: Seq<char>, i: int)
    requires
        0 <= i <= s.len(),
        req_line_at(s, i) matches Ok(_),
        ({
            let rl = req_line_at(s, i)->Ok_0;
            let w = scan(s, headers_at(s, rl.end).1, Cls::LineWs);
            w == s.len() || starts_delim(s, w)
        }),
    ensures
        request_at(s, i) matches Ok(gj) && gj.0.body == Seq::<char>::empty(),
{
}

/// A request line followed directly by a blank line or the end of the
/// input has the empty header list, and so the empty header mapping.
pub proof fn lemma_no_headers(s: Seq<char>, i: int)
    requires
        0 <= i <= s.len(),
        req_line_at(s, i) matches Ok(_),
        ({
            let rl = req_line_at(s, i)->Ok_0;
            rl.end == s.len() || s[rl.end] == '\n'
        }),
    ensures
        headers_at(s, req_line_at(s, i)->Ok_0.end).0 == Seq::<(Seq<char>, Seq<char>)>::empty(),
        fold_headers(headers_at(s, req_line_at(s, i)->Ok_0.end).0) == Map::<
            Seq<char>,
            Seq<char>,
        >::empty(),
{
    let rl = req_line_at(s, i)->Ok_0;
    assert(!header_shaped(s, rl.end));
}

/// Among duplicate header names in one request, the value of the last
/// occurrence wins in the folded mapping.
pub proof fn lemma_duplicate_header_last_wins(ps: Seq<(Seq<char>, Seq<char>)>, i: int)
    requires
        0 <= i < ps.len(),
        forall|j: int| i < j < ps.len() ==> (#[trigger] ps[j]).0 != ps[i].0,
    ensures
        fold_headers(ps).contains_key(ps[i].0),
        fold_headers(ps)[ps[i].0] == ps[i].1,
    decreases ps.len(),
{
    if i < ps.len() - 1 {
        assert(ps.drop_last()[i] == ps[i]);
        assert(forall|j: int| i < j < ps.len() - 1 ==> (#[trigger] ps.drop_last()[j]) == ps[j]);
        lemma_duplicate_header_last_wins(ps.drop_last(), i);
        assert(ps.last().0 != ps[i].0);
    }
}

/// If every block before position `k` carries a known method and block `k`
/// does not, the transformer fails with exactly that token.
proof fn lemma_transform_file_unknown(gs: Seq<GRequest>, k: int)
    requires
        0 <= k < gs.len(),
        method_of(gs[k].method) is None,
        forall|j: int| 0 <= j < k ==> method_of(#[trigger] gs[j].method) is Some,
    ensures
        transform_file(gs) == Err::<Seq<SpecRequest>, SpecError>(
            SpecError::UnknownMethod(gs[k].method),
        ),
    decreases k,
{
    if k > 0 {
        assert(forall|j: int| 0 <= j < gs.len() - 1 ==> gs.drop_first()[j] == gs[j + 1]);
        lemma_transform_file_unknown(gs.drop_first(), k - 1);
    }
}

/// A document that matches the grammar but whose first offending request
/// names a method outside the closed set fails as a whole with
/// `UnknownMethod` carrying that token: no partial result.
pub proof fn lemma_unknown_method_fails(s: Seq<char>, k: int)
    requires
        file_at(s) matches Ok(_),
        ({
            let gs = file_at(s)->Ok_0;
            &&& 0 <= k < gs.len()
            &&& method_of(gs[k].method) is None
            &&& forall|j: int| 0 <= j < k ==> method_of(#[trigger] gs[j].method) is Some
        }),
    ensures
        spec_parse(s) == Err::<Seq<SpecRequest>, SpecError>(
            SpecError::UnknownMethod(file_at(s)->Ok_0[k].method),
        ),
{
    lemma_transform_file_unknown(file_at(s)->Ok_0, k);
}

/// A non-empty token whose characters all belong to one class.
pub open spec fn wf_token(t: Seq<char>, cls: Cls) -> bool {
    t.len() > 0 && forall|p: int| 0 <= p < t.len() ==> in_cls(cls, #[trigger] t[p])
}

/// A header value as the grammar would hand it back: one line, no
/// surrounding spaces or tabs.
pub open spec fn wf_header_value(v: Seq<char>) -> bool {
    &&& forall|p: int| 0 <= p < v.len() ==> in_cls(Cls::NotNl, #[trigger] v[p])
    &&& v.len() > 0 ==> !in_cls(Cls::LineWs, v[0]) && !in_cls(Cls::LineWs, v[v.len() - 1])
}

/// A list of headers whose names and values are well formed.
pub open spec fn wf_headers(hs: Seq<(Seq<char>, Seq<char>)>) -> bool {
    forall|j: int|
        0 <= j < hs.len() ==> wf_token((#[trigger] hs[j]).0, Cls::NameChar) && wf_header_value(
            hs[j].1,
        )
}

/// A body as the grammar would hand it back: no surrounding whitespace and
/// no delimiter marker at the start of a line.
pub open spec fn wf_body(b: Seq<char>) -> bool {
    &&& b.len() > 0 ==> !in_cls(Cls::AnyWs, b[0]) && !in_cls(Cls::AnyWs, b[b.len() - 1])
    &&& forall|p: int| 0 <= p < b.len() && (p == 0 || b[p - 1] == '\n') ==> !starts_delim(b, p)
}

/// The text of a run of header lines: `name: value` each on its own line.
pub open spec fn render_headers(hs: Seq<(Seq<char>, Seq<char>)>) -> Seq<char>
    decreases hs.len(),
{
    if hs.len() == 0 {
        Seq::empty()
    } else {
        hs[0].0 + seq![':', ' '] + hs[0].1 + seq!['\n'] + render_headers(hs.drop_first())
    }
}

/// The text of a request line: method, URI and version, one line.
pub open spec fn render_req_line(m: HttpMethod, url: Seq<char>, version: Seq<char>) -> Seq<char> {
    method_name(m) + seq![' '] + url + seq![' '] + "HTTP/"@ + version + seq!['\n']
}

/// The text of one whole request: the request line, the header lines, a
/// blank line, and the body.
pub open spec fn render_request(
    m: HttpMethod,
    url: Seq<char>,
    version: Seq<char>,
    hs: Seq<(Seq<char>, Seq<char>)>,
    body: Seq<char>,
) -> Seq<char> {
    render_req_line(m, url, version) + render_headers(hs) + seq!['\n'] + body
}

/// Validating the token that names a method gives that method back.
pub proof fn lemma_method_name_roundtrip(m: HttpMethod)
    ensures
        method_of(method_name(m)) == Some(m),
        wf_token(method_name(m), Cls::Letter),
{
    reveal_strlit("GET");
    reveal_strlit("POST");
    reveal_strlit("PUT");
    reveal_strlit("DELETE");
    assert("GET"@.len() == 3 && "POST"@.len() == 4 && "PUT"@.len() == 3 && "DELETE"@.len() == 6);
    match m {
        HttpMethod::Get => {
            assert(method_of(method_name(m)) == Some(HttpMethod::Get));
        },
        HttpMethod::Post => {
            assert("POST"@ != "GET"@);
        },
        HttpMethod::Put => {
            assert("PUT"@[0] != "GET"@[0]);
            assert("PUT"@ != "GET"@ && "PUT"@ != "POST"@);
        },
        HttpMethod::Delete => {
            assert("DELETE"@ != "GET"@ && "DELETE"@ != "POST"@ && "DELETE"@ != "PUT"@);
        },
    }
}

/// Body text with no delimiter at any of its line starts runs to the end
/// of the input.
proof fn lemma_body_end_all(s: Seq<char>, i: int, at_ls: bool)
    requires
        0 <= i <= s.len(),
        at_ls ==> !starts_delim(s, i),
        forall|p: int| i < p < s.len() && s[p - 1] == '\n' ==> !starts_delim(s, p),
    ensures
        body_end(s, i, at_ls) == s.len(),
    decreases s.len() - i,
{
    if i < s.len() {
        lemma_body_end_all(s, i + 1, s[i] == '\n');
    }
}

/// Body text runs to a delimiter that stands at the start of a line, when
/// no earlier line start carries one.
proof fn lemma_body_end_stops(s: Seq<char>, i: int, at_ls: bool, t: int)
    requires
        0 <= i <= t < s.len(),
        t == i ==> at_ls,
        t > i ==> s[t - 1] == '\n',
        starts_delim(s, t),
        at_ls && t > i ==> !starts_delim(s, i),
        forall|p: int| i < p < t && s[p - 1] == '\n' ==> !starts_delim(s, p),
    ensures
        body_end(s, i, at_ls) == t,
    decreases t - i,
{
    if i < t {
        lemma_body_end_stops(s, i + 1, s[i] == '\n', t);
    }
}

/// Parsing the rendered text of a run of well-formed headers gives back
/// exactly those headers and stops at the line that follows them.
proof fn lemma_headers_render(s: Seq<char>, i: int, hs: Seq<(Seq<char>, Seq<char>)>)
    requires
        0 <= i,
        i + render_headers(hs).len() <= s.len(),
        s.subrange(i, i + render_headers(hs).len()) == render_headers(hs),
        wf_headers(hs),
        ({
            let e = i + render_headers(hs).len();
            e == s.len() || s[e] == '\n'
        }),
    ensures
        headers_at(s, i) == (hs, i + render_headers(hs).len()),
    decreases hs.len(),
{
    let rh = render_headers(hs);
    let e = i + rh.len();
    if hs.len() == 0 {
        assert(scan(s, i, Cls::NameChar) == i) by {
            crate::scan::lemma_scan_unique(s, i, Cls::NameChar, i);
        }
        assert(!header_shaped(s, i));
        assert(headers_at(s, i).0 =~= Seq::<(Seq<char>, Seq<char>)>::empty());
    } else {
        let n0 = hs[0].0;
        let v0 = hs[0].1;
        let c = seq![':', ' '];
        let nlq = seq!['\n'];
        let r0 = n0 + c + v0 + nlq;
        let rr = render_headers(hs.drop_first());
        assert(rh == r0 + rr);
        assert forall|q: int| 0 <= q < rh.len() implies s[i + q] == (r0 + rr)[q] by {
            assert(s.subrange(i, i + rh.len() as int)[q] == rh[q]);
        }
        let nl = n0.len() as int;
        let vl = v0.len() as int;
        // the name runs to the colon
        assert forall|p: int| 0 <= p < nl implies s[i + p] == n0[p] by {
            assert((r0 + rr)[p] == r0[p]);
            assert(r0[p] == ((n0 + c) + v0)[p]);
            assert(((n0 + c) + v0)[p] == (n0 + c)[p]);
            assert((n0 + c)[p] == n0[p]);
        }
        assert(s[i + nl] == ':') by {
            assert((r0 + rr)[nl] == r0[nl]);
            assert(r0[nl] == ((n0 + c) + v0)[nl]);
            assert(((n0 + c) + v0)[nl] == (n0 + c)[nl]);
            assert((n0 + c)[nl] == c[0]);
        }
        assert(wf_token(n0, Cls::NameChar));
        assert forall|j: int| i <= j < i + nl implies in_cls(Cls::NameChar, s[j]) by {
            assert(s[j] == n0[j - i]);
        }
        assert(scan(s, i, Cls::NameChar) == i + nl) by {
            crate::scan::lemma_scan_unique(s, i, Cls::NameChar, i + nl);
        }
        assert(header_shaped(s, i));
        // the single space after the colon is skipped, the value is not
        assert(s[i + nl + 1] == ' ') by {
            assert((r0 + rr)[nl + 1] == r0[nl + 1]);
            assert(r0[nl + 1] == ((n0 + c) + v0)[nl + 1]);
            assert(((n0 + c) + v0)[nl + 1] == (n0 + c)[nl + 1]);
            assert((n0 + c)[nl + 1] == c[1]);
        }
        assert forall|p: int| 0 <= p < vl implies s[i + nl + 2 + p] == v0[p] by {
            assert((r0 + rr)[nl + 2 + p] == r0[nl + 2 + p]);
            assert(r0[nl + 2 + p] == ((n0 + c) + v0)[nl + 2 + p]);
            assert(((n0 + c) + v0)[nl + 2 + p] == v0[p]);
        }
        assert(s[i + nl + 2 + vl] == '\n') by {
            assert((r0 + rr)[nl + 2 + vl] == r0[nl + 2 + vl]);
            assert(r0[nl + 2 + vl] == nlq[0]);
        }
        if vl > 0 {
            assert(s[i + nl + 2] == v0[0]);
        } else {
            assert(s[i + nl + 2] == '\n');
        }
        assert(scan(s, i + nl + 1, Cls::LineWs) == i + nl + 2) by {
            crate::scan::lemma_scan_unique(s, i + nl + 1, Cls::LineWs, i + nl + 2);
        }
        let v_start = i + nl + 2;
        assert(forall|p: int| 0 <= p < vl ==> s[v_start + p] == v0[p]);
        assert forall|j: int| v_start <= j < v_start + vl implies in_cls(Cls::NotNl, s[j]) by {
            assert(s[j] == v0[j - v_start]);
        }
        assert(scan(s, v_start, Cls::NotNl) == v_start + vl) by {
            crate::scan::lemma_scan_unique(s, v_start, Cls::NotNl, v_start + vl);
        }
        let v_stop = v_start + vl;
        assert(rtrim(s, v_start, v_stop, Cls::LineWs) == v_stop);
        let h = header_at(s, i);
        assert(h.name =~= n0);
        assert(h.value =~= v0);
        assert(h.end == v_stop + 1);
        // the rest of the run renders at the next line
        let i2 = v_stop + 1;
        assert(i2 == i + r0.len());
        assert forall|q: int| 0 <= q < rr.len() implies s.subrange(i2, i2 + rr.len() as int)[q]
            == rr[q] by {
            assert(s[i2 + q] == (r0 + rr)[r0.len() + q]);
            assert((r0 + rr)[r0.len() + q] == rr[q]);
        }
        assert(s.subrange(i2, i2 + rr.len() as int) =~= rr);
        assert(wf_headers(hs.drop_first())) by {
            assert(forall|j: int| 0 <= j < hs.len() - 1 ==> hs.drop_first()[j] == hs[j + 1]);
        }
        lemma_headers_render(s, i2, hs.drop_first());
        assert(headers_at(s, i).0 =~= hs);
    }
}

/// Parsing the rendered text of a well-formed request line at `i` gives
/// back exactly its tokens and ends just past its line terminator.
#[verifier::rlimit(100)]
proof fn lemma_req_line_render_at(
    s: Seq<char>,
    i: int,
    m: HttpMethod,
    url: Seq<char>,
    v1: Seq<char>,
    v2: Seq<char>,
)
    requires
        wf_token(url, Cls::NonWs),
        wf_token(v1, Cls::Digit),
        wf_token(v2, Cls::Digit),
        0 <= i,
        i + render_req_line(m, url, v1 + seq!['.'] + v2).len() <= s.len(),
        s.subrange(i, i + render_req_line(m, url, v1 + seq!['.'] + v2).len() as int)
            == render_req_line(m, url, v1 + seq!['.'] + v2),
    ensures
        ({
            let ver = v1 + seq!['.'] + v2;
            req_line_at(s, i) == Ok::<crate::grammar::GReqLine, SpecError>(
                crate::grammar::GReqLine {
                    method: method_name(m),
                    url: url,
                    version: ver,
                    end: i + render_req_line(m, url, ver).len(),
                },
            )
        }),
{
    lemma_method_name_roundtrip(m);
    reveal_strlit("HTTP/");
    let p1 = method_name(m);
    let http = "HTTP/"@;
    let ver = v1 + seq!['.'] + v2;
    let rr = render_req_line(m, url, ver);
    assert(http.len() == 5 && http[0] == 'H' && http[1] == 'T' && http[2] == 'T' && http[3] == 'P'
        && http[4] == '/');
    let ml = p1.len() as int;
    let ul = url.len() as int;
    let v1l = v1.len() as int;
    let v2l = v2.len() as int;
    let rl = rr.len() as int;
    let u_start = i + ml + 1;
    let u_end = u_start + ul;
    let h_start = u_end + 1;
    let v_start = h_start + 5;
    let d1 = v_start + v1l;
    let v_end = d1 + 1 + v2l;
    assert(rl == ml + ul + v1l + v2l + 9);
    // where each character of the rendered line comes from
    assert forall|q: int| 0 <= q < rl implies s[i + q] == rr[q] by {
        assert(s.subrange(i, i + rl)[q] == rr[q]);
    }
    assert(forall|p: int| 0 <= p < ml ==> rr[p] == p1[p]);
    assert(rr[ml] == ' ');
    assert(forall|p: int| 0 <= p < ul ==> rr[ml + 1 + p] == url[p]);
    assert(rr[ml + 1 + ul] == ' ');
    assert(forall|p: int| 0 <= p < 5 ==> rr[ml + 2 + ul + p] == http[p]);
    assert forall|p: int| 0 <= p < v1l + 1 + v2l implies rr[ml + 7 + ul + p] == ver[p] by {
        assert(rr[(ml + 7 + ul) + p] == ver[p]);
    }
    assert(rr[rl - 1] == '\n');
    // the scans of the request line
    assert forall|j: int| i <= j < i + ml implies in_cls(Cls::Letter, s[j]) by {
        assert(s[j] == rr[j - i]);
        assert(rr[j - i] == p1[j - i]);
    }
    assert(s[i + ml] == ' ');
    assert(scan(s, i, Cls::Letter) == i + ml) by {
        crate::scan::lemma_scan_unique(s, i, Cls::Letter, i + ml);
    }
    assert(s[u_start] == url[0]) by {
        assert(s[u_start] == rr[ml + 1]);
    }
    assert(scan(s, i + ml, Cls::LineWs) == u_start) by {
        assert(in_cls(Cls::NonWs, url[0]));
        crate::scan::lemma_scan_unique(s, i + ml, Cls::LineWs, u_start);
    }
    assert forall|j: int| u_start <= j < u_end implies in_cls(Cls::NonWs, s[j]) by {
        assert(s[j] == rr[j - i]);
        assert(rr[j - i] == url[j - u_start]);
    }
    assert(scan(s, u_start, Cls::NonWs) == u_end) by {
        assert(s[u_end] == rr[ml + 1 + ul]);
        crate::scan::lemma_scan_unique(s, u_start, Cls::NonWs, u_end);
    }
    assert(s[h_start] == 'H') by {
        assert(s[h_start] == rr[ml + 2 + ul]);
        assert(rr[ml + 2 + ul] == http[0]);
    }
    assert(scan(s, u_end, Cls::LineWs) == h_start) by {
        assert(s[u_end] == rr[ml + 1 + ul]);
        crate::scan::lemma_scan_unique(s, u_end, Cls::LineWs, h_start);
    }
    assert(crate::grammar::has_http_at(s, h_start)) by {
        assert(s[h_start + 1] == rr[ml + 3 + ul] && s[h_start + 2] == rr[ml + 4 + ul] && s[h_start
            + 3] == rr[ml + 5 + ul] && s[h_start + 4] == rr[ml + 6 + ul]);
    }
    assert forall|j: int| v_start <= j < d1 implies in_cls(Cls::Digit, s[j]) by {
        assert(s[j] == rr[j - i]);
        assert(rr[j - i] == ver[j - v_start]);
        assert(ver[j - v_start] == v1[j - v_start]);
    }
    assert(s[d1] == '.') by {
        assert(s[d1] == rr[d1 - i]);
        assert(rr[d1 - i] == ver[v1l]);
        assert(ver[v1l] == '.');
    }
    assert(scan(s, v_start, Cls::Digit) == d1) by {
        crate::scan::lemma_scan_unique(s, v_start, Cls::Digit, d1);
    }
    assert forall|j: int| d1 + 1 <= j < v_end implies in_cls(Cls::Digit, s[j]) by {
        assert(s[j] == rr[j - i]);
        assert(rr[j - i] == ver[j - v_start]);
        assert(ver[j - v_start] == v2[j - (d1 + 1)]);
    }
    assert(s[v_end] == '\n') by {
        assert(s[v_end] == rr[v_end - i]);
    }
    assert(scan(s, d1 + 1, Cls::Digit) == v_end) by {
        crate::scan::lemma_scan_unique(s, d1 + 1, Cls::Digit, v_end);
    }
    assert(scan(s, v_end, Cls::LineWs) == v_end) by {
        crate::scan::lemma_scan_unique(s, v_end, Cls::LineWs, v_end);
    }
    // the tokens
    assert forall|q: int| 0 <= q < ml implies s.subrange(i, i + ml)[q] == p1[q] by {
        assert(s[i + q] == rr[q]);
    }
    assert(s.subrange(i, i + ml) =~= p1);
    assert forall|q: int| 0 <= q < ul implies s.subrange(u_start, u_end)[q] == url[q] by {
        assert(s[u_start + q] == rr[ml + 1 + q]);
    }
    assert(s.subrange(u_start, u_end) =~= url);
    assert forall|q: int| 0 <= q < ver.len() implies s.subrange(v_start, v_end)[q] == ver[q] by {
        assert(s[v_start + q] == rr[(ml + 7 + ul) + q]);
    }
    assert(s.subrange(v_start, v_end) =~= ver);
}

/// Round trip at an offset: a well-formed request rendered at position `i`
/// and followed by the end of the input, or by a newline and a delimiter
/// marker, is matched by the grammar as one block carrying exactly the
/// rendered fields.
#[verifier::rlimit(100)]
proof fn lemma_request_render_at(
    s: Seq<char>,
    i: int,
    m: HttpMethod,
    url: Seq<char>,
    v1: Seq<char>,
    v2: Seq<char>,
    hs: Seq<(Seq<char>, Seq<char>)>,
    body: Seq<char>,
)
    requires
        wf_token(url, Cls::NonWs),
        wf_token(v1, Cls::Digit),
        wf_token(v2, Cls::Digit),
        wf_headers(hs),
        wf_body(body),
        0 <= i,
        i + render_request(m, url, v1 + seq!['.'] + v2, hs, body).len() <= s.len(),
        s.subrange(i, i + render_request(m, url, v1 + seq!['.'] + v2, hs, body).len() as int)
            == render_request(m, url, v1 + seq!['.'] + v2, hs, body),
        ({
            let e = i + render_request(m, url, v1 + seq!['.'] + v2, hs, body).len();
            e == s.len() || (s[e] == '\n' && starts_delim(s, e + 1))
        }),
    ensures
        ({
            let ver = v1 + seq!['.'] + v2;
            let e = i + render_request(m, url, ver, hs, body).len();
            let g = GRequest {
                method: method_name(m),
                url: url,
                version: ver,
                headers: hs,
                body: body,
            };
            let j: int = if e == s.len() {
                e
            } else {
                e + 1
            };
            request_at(s, i) == Ok::<(GRequest, int), SpecError>((g, j))
        }),
{
    let ver = v1 + seq!['.'] + v2;
    let rline = render_req_line(m, url, ver);
    let rhs = render_headers(hs);
    let rr = render_request(m, url, ver, hs, body);
    let ll = rline.len() as int;
    let hl = rhs.len() as int;
    let bl = body.len() as int;
    let rl = rr.len() as int;
    let rl_end = i + ll;
    let hdr_end = rl_end + hl;
    let b = hdr_end + 1;
    let e = i + rl;
    assert(e == b + bl);
    assert forall|q: int| 0 <= q < rl implies s[i + q] == rr[q] by {
        assert(s.subrange(i, i + rl)[q] == rr[q]);
    }
    assert(forall|p: int| 0 <= p < ll ==> rr[p] == rline[p]);
    assert(forall|p: int| 0 <= p < hl ==> rr[ll + p] == rhs[p]);
    assert(rr[ll + hl] == '\n');
    assert(forall|p: int| 0 <= p < bl ==> rr[ll + hl + 1 + p] == body[p]);
    // the request line
    assert forall|q: int| 0 <= q < ll implies s.subrange(i, rl_end)[q] == rline[q] by {
        assert(s[i + q] == rr[q]);
    }
    assert(s.subrange(i, rl_end) =~= rline);
    lemma_req_line_render_at(s, i, m, url, v1, v2);
    // the header run
    assert forall|q: int| 0 <= q < hl implies s.subrange(rl_end, hdr_end)[q] == rhs[q] by {
        assert(s[rl_end + q] == rr[ll + q]);
    }
    assert(s.subrange(rl_end, hdr_end) =~= rhs);
    assert(s[hdr_end] == '\n') by {
        assert(s[hdr_end] == rr[ll + hl]);
    }
    lemma_headers_render(s, rl_end, hs);
    assert(headers_at(s, rl_end) == (hs, hdr_end));
    // the blank separator and the body
    assert(scan(s, hdr_end, Cls::LineWs) == hdr_end) by {
        crate::scan::lemma_scan_unique(s, hdr_end, Cls::LineWs, hdr_end);
    }
    assert(!starts_delim(s, hdr_end));
    assert forall|p: int| 0 <= p < bl implies s[b + p] == body[p] by {
        assert(s[b + p] == rr[ll + hl + 1 + p]);
    }
    let j: int = if e == s.len() {
        e
    } else {
        e + 1
    };
    assert(body_end(s, b, true) == j) by {
        if bl > 0 && starts_delim(s, b) {
            assert(body[0] == '#' && body[1] == '#' && body[2] == '#');
            assert(starts_delim(body, 0));
        }
        assert forall|p: int| b < p < j && s[p - 1] == '\n' implies !starts_delim(s, p) by {
            if starts_delim(s, p) {
                assert(s[p] == '#' && s[p + 1] == '#' && s[p + 2] == '#');
                if p + 3 <= e {
                    assert(body[p - b] == '#' && body[p - b + 1] == '#' && body[p - b + 2] == '#');
                    assert(s[p - 1] == body[p - 1 - b]);
                    assert(starts_delim(body, p - b));
                    assert(!starts_delim(body, p - b));
                } else {
                    // one of the three marker characters is the newline at `e`
                    assert(p <= e < p + 3);
                    assert(s[e] == '\n');
                }
            }
        }
        if e == s.len() {
            lemma_body_end_all(s, b, true);
        } else {
            assert(s[e] == '\n' && starts_delim(s, e + 1));
            lemma_body_end_stops(s, b, true, e + 1);
        }
    }
    let lo = crate::grammar::ltrim(s, b, j, Cls::AnyWs);
    let hi = rtrim(s, lo, j, Cls::AnyWs);
    if bl > 0 {
        assert(lo == b) by {
            assert(s[b] == body[0]);
        }
        assert(hi == e) by {
            assert(s[e - 1] == body[bl - 1]);
            if j == e + 1 {
                assert(s[e] == '\n');
                assert(rtrim(s, b, e + 1, Cls::AnyWs) == rtrim(s, b, e, Cls::AnyWs));
            }
        }
        assert(s.subrange(lo, hi) =~= body);
    } else {
        if j == e {
            assert(lo == b && hi == b);
        } else {
            assert(s[b] == '\n');
            assert(crate::grammar::ltrim(s, b, j, Cls::AnyWs) == crate::grammar::ltrim(
                s,
                b + 1,
                j,
                Cls::AnyWs,
            ));
            assert(lo == b + 1 && hi == b + 1);
        }
        assert(s.subrange(lo, hi) =~= body);
    }
    let g = GRequest { method: method_name(m), url: url, version: ver, headers: hs, body: body };
    assert(request_at(s, i) == Ok::<(GRequest, int), SpecError>((g, j)));
}

/// Round trip: the rendered text of one well-formed request parses to
/// exactly one request whose method, URL, version, headers and body are
/// the rendered fields.
pub proof fn lemma_parse_render_request(
    m: HttpMethod,
    url: Seq<char>,
    v1: Seq<char>,
    v2: Seq<char>,
    hs: Seq<(Seq<char>, Seq<char>)>,
    body: Seq<char>,
)
    requires
        wf_token(url, Cls::NonWs),
        wf_token(v1, Cls::Digit),
        wf_token(v2, Cls::Digit),
        wf_headers(hs),
        wf_body(body),
    ensures
        ({
            let version = v1 + seq!['.'] + v2;
            spec_parse(render_request(m, url, version, hs, body)) == Ok::<
                Seq<SpecRequest>,
                SpecError,
            >(
                seq![
                    SpecRequest {
                        method: m,
                        url: url,
                        version: version,
                        headers: fold_headers(hs),
                        body: body,
                    },
                ],
            )
        }),
{
    lemma_method_name_roundtrip(m);
    let ver = v1 + seq!['.'] + v2;
    let doc = render_request(m, url, ver, hs, body);
    let n = doc.len() as int;
    assert(doc.subrange(0, n) =~= doc);
    lemma_request_render_at(doc, 0, m, url, v1, v2, hs, body);
    let p1 = method_name(m);
    let g = GRequest { method: p1, url: url, version: ver, headers: hs, body: body };
    assert(request_at(doc, 0) == Ok::<(GRequest, int), SpecError>((g, n)));
    // the document starts at its request: a letter opens it
    assert(doc[0] == p1[0]);
    assert(in_cls(Cls::Letter, doc[0]));
    assert(scan(doc, 0, Cls::AnyWs) == 0);
    assert(!starts_delim(doc, 0));
    assert(crate::grammar::skip_preamble(doc, 0) == 0);
    // nothing follows it
    assert(crate::grammar::skip_preamble(doc, n) == n);
    assert(crate::grammar::requests_at(doc, n) == Ok::<Seq<GRequest>, SpecError>(Seq::empty()));
    assert(crate::grammar::requests_at(doc, 0) == Ok::<Seq<GRequest>, SpecError>(
        seq![g] + Seq::empty(),
    ));
    assert(seq![g] + Seq::<GRequest>::empty() =~= seq![g]);
    assert(file_at(doc) == Ok::<Seq<GRequest>, SpecError>(seq![g]));
    // the transformer gives the fields back
    let q = SpecRequest { method: m, url: url, version: ver, headers: fold_headers(hs), body: body };
    assert(transform_request(g) == Ok::<SpecRequest, SpecError>(q));
    assert(seq![g].drop_first() =~= Seq::<GRequest>::empty());
    assert(seq![g][0] == g);
    assert(transform_file(Seq::<GRequest>::empty()) == Ok::<Seq<SpecRequest>, SpecError>(
        Seq::empty(),
    ));
    assert(transform_file(seq![g]) == Ok::<Seq<SpecRequest>, SpecError>(seq![q] + Seq::empty()));
    assert(seq![q] + Seq::<SpecRequest>::empty() =~= seq![q]);
}

/// One request of a rendered document, by its fields.
pub ghost struct RenderedRequest {
    pub method: HttpMethod,
    pub url: Seq<char>,
    pub v1: Seq<char>,
    pub v2: Seq<char>,
    pub headers: Seq<(Seq<char>, Seq<char>)>,
    pub body: Seq<char>,
}

/// The fields are well formed: the grammar could have produced them.
pub open spec fn wf_rendered(it: RenderedRequest) -> bool {
    &&& wf_token(it.url, Cls::NonWs)
    &&& wf_token(it.v1, Cls::Digit)
    &&& wf_token(it.v2, Cls::Digit)
    &&& wf_headers(it.headers)
    &&& wf_body(it.body)
}

/// The version token of a rendered request.
pub open spec fn item_version(it: RenderedRequest) -> Seq<char> {
    it.v1 + seq!['.'] + it.v2
}

/// The text of one rendered request.
pub open spec fn render_item(it: RenderedRequest) -> Seq<char> {
    render_request(it.method, it.url, item_version(it), it.headers, it.body)
}

/// The raw block the grammar matches for a rendered request.
pub open spec fn item_block(it: RenderedRequest) -> GRequest {
    GRequest {
        method: method_name(it.method),
        url: it.url,
        version: item_version(it),
        headers: it.headers,
        body: it.body,
    }
}

/// The parsed request a rendered request comes back as.
pub open spec fn item_request(it: RenderedRequest) -> SpecRequest {
    SpecRequest {
        method: it.method,
        url: it.url,
        version: item_version(it),
        headers: fold_headers(it.headers),
        body: it.body,
    }
}

/// The raw blocks of a list of rendered requests.
pub open spec fn blocks_of(items: Seq<RenderedRequest>) -> Seq<GRequest> {
    items.map_values(|it: RenderedRequest| item_block(it))
}

/// The parsed requests of a list of rendered requests.
pub open spec fn requests_of(items: Seq<RenderedRequest>) -> Seq<SpecRequest> {
    items.map_values(|it: RenderedRequest| item_request(it))
}

/// The text of a whole document of delimiter-separated requests.
pub open spec fn render_file(items: Seq<RenderedRequest>) -> Seq<char>
    decreases items.len(),
{
    if items.len() == 0 {
        Seq::empty()
    } else if items.len() == 1 {
        render_item(items[0])
    } else {
        render_item(items[0]) + seq!['\n', '#', '#', '#', '\n'] + render_file(items.drop_first())
    }
}

/// The rendered text of a request opens with a letter of its method token.
proof fn lemma_render_item_head(it: RenderedRequest)
    ensures
        render_item(it).len() > method_name(it.method).len(),
        render_item(it)[0] == method_name(it.method)[0],
        wf_token(method_name(it.method), Cls::Letter),
{
    lemma_method_name_roundtrip(it.method);
}

/// The grammar matches the tail of a rendered document, request by
/// request, into exactly the rendered blocks in order.
#[verifier::rlimit(100)]
proof fn lemma_requests_render_at(s: Seq<char>, i: int, items: Seq<RenderedRequest>)
    requires
        0 <= i,
        i + render_file(items).len() == s.len(),
        s.subrange(i, s.len() as int) == render_file(items),
        forall|j: int| 0 <= j < items.len() ==> wf_rendered(#[trigger] items[j]),
    ensures
        requests_at(s, i) == Ok::<Seq<GRequest>, SpecError>(blocks_of(items)),
    decreases items.len(),
{
    let rf = render_file(items);
    assert forall|q: int| 0 <= q < rf.len() implies s[i + q] == rf[q] by {
        assert(s.subrange(i, s.len() as int)[q] == rf[q]);
    }
    if items.len() == 0 {
        assert(requests_at(s, i) == Ok::<Seq<GRequest>, SpecError>(Seq::empty()));
        assert(blocks_of(items) =~= Seq::<GRequest>::empty());
    } else {
        let it = items[0];
        let r0 = render_item(it);
        let g0 = item_block(it);
        if items.len() == 1 {
            assert(rf == r0);
            assert(s.subrange(i, i + r0.len() as int) == r0);
            lemma_request_render_at(s, i, it.method, it.url, it.v1, it.v2, it.headers, it.body);
            assert(request_at(s, i) == Ok::<(GRequest, int), SpecError>((g0, s.len() as int)));
            let n = s.len() as int;
            assert(crate::grammar::skip_preamble(s, n) == n);
            assert(requests_at(s, n) == Ok::<Seq<GRequest>, SpecError>(Seq::empty()));
            crate::grammar::lemma_request_bounds(s, i);
            assert(requests_at(s, i) == Ok::<Seq<GRequest>, SpecError>(seq![g0] + Seq::empty()));
            assert(seq![g0] + Seq::<GRequest>::empty() =~= blocks_of(items));
        } else {
            let sep = seq!['\n', '#', '#', '#', '\n'];
            let rest = render_file(items.drop_first());
            assert(rf == r0 + sep + rest);
            let e = i + r0.len();
            assert forall|q: int| 0 <= q < r0.len() implies s[i + q] == r0[q] by {
                assert(rf[q] == ((r0 + sep) + rest)[q]);
                assert(((r0 + sep) + rest)[q] == (r0 + sep)[q]);
                assert((r0 + sep)[q] == r0[q]);
            }
            assert forall|q: int| 0 <= q < 5 implies s[e + q] == sep[q] by {
                assert(rf[r0.len() + q] == ((r0 + sep) + rest)[r0.len() + q]);
                assert(((r0 + sep) + rest)[r0.len() + q] == (r0 + sep)[r0.len() + q]);
                assert((r0 + sep)[r0.len() + q] == sep[q]);
            }
            assert forall|q: int| 0 <= q < rest.len() implies s[e + 5 + q] == rest[q] by {
                assert(rf[r0.len() + 5 + q] == ((r0 + sep) + rest)[r0.len() + 5 + q]);
                assert(((r0 + sep) + rest)[r0.len() + 5 + q] == rest[q]);
            }
            // the rendered request, then a newline and a delimiter marker
            assert forall|q: int| 0 <= q < r0.len() implies s.subrange(i, e)[q] == r0[q] by {
                assert(s[i + q] == r0[q]);
            }
            assert(s.subrange(i, e) =~= r0);
            assert(s[e] == '\n' && s[e + 1] == '#' && s[e + 2] == '#' && s[e + 3] == '#' && s[e + 4]
                == '\n');
            assert(rest.len() > 0) by {
                lemma_render_item_head(items.drop_first()[0]);
                if items.drop_first().len() == 1 {
                    assert(rest == render_item(items.drop_first()[0]));
                }
            }
            assert(starts_delim(s, e + 1));
            lemma_request_render_at(s, i, it.method, it.url, it.v1, it.v2, it.headers, it.body);
            assert(request_at(s, i) == Ok::<(GRequest, int), SpecError>((g0, e + 1)));
            // the delimiter line is skipped, and the next request begins
            let i2 = e + 5;
            assert(scan(s, e + 1, Cls::AnyWs) == e + 1);
            assert(scan(s, e + 4, Cls::NotNl) == e + 4);
            assert(crate::grammar::delim_end(s, e + 1) == i2);
            assert(rest[0] == render_item(items.drop_first()[0])[0]) by {
                if items.drop_first().len() == 1 {
                    assert(rest == render_item(items.drop_first()[0]));
                }
            }
            assert(in_cls(Cls::Letter, s[i2])) by {
                lemma_render_item_head(items.drop_first()[0]);
            }
            assert(scan(s, i2, Cls::AnyWs) == i2);
            assert(!starts_delim(s, i2));
            assert(crate::grammar::skip_preamble(s, i2) == i2);
            assert(crate::grammar::skip_preamble(s, e + 1) == i2);
            // the rest of the document, by induction
            assert forall|q: int| 0 <= q < rest.len() implies s.subrange(i2, s.len() as int)[q]
                == rest[q] by {
                assert(s[i2 + q] == rest[q]);
            }
            assert(s.subrange(i2, s.len() as int) =~= rest);
            assert(forall|j: int| 0 <= j < items.len() - 1 ==> items.drop_first()[j] == items[j
                + 1]);
            lemma_requests_render_at(s, i2, items.drop_first());
            crate::grammar::lemma_request_bounds(s, i);
            assert(requests_at(s, i) == Ok::<Seq<GRequest>, SpecError>(
                seq![g0] + blocks_of(items.drop_first()),
            ));
            assert(seq![g0] + blocks_of(items.drop_first()) =~= blocks_of(items));
        }
    }
}

/// The transformer maps each rendered block back to its fields.
proof fn lemma_transform_items(items: Seq<RenderedRequest>)
    ensures
        transform_file(blocks_of(items)) == Ok::<Seq<SpecRequest>, SpecError>(requests_of(items)),
    decreases items.len(),
{
    if items.len() == 0 {
        assert(blocks_of(items) =~= Seq::<GRequest>::empty());
        assert(requests_of(items) =~= Seq::<SpecRequest>::empty());
    } else {
        lemma_method_name_roundtrip(items[0].method);
        lemma_transform_items(items.drop_first());
        let gs = blocks_of(items);
        assert(gs[0] == item_block(items[0]));
        assert(transform_request(gs[0]) == Ok::<SpecRequest, SpecError>(item_request(items[0])));
        assert(gs.drop_first() =~= blocks_of(items.drop_first())) by {
            assert(forall|j: int| 0 <= j < items.len() - 1 ==> items.drop_first()[j] == items[j
                + 1]);
        }
        assert(transform_file(gs) == Ok::<Seq<SpecRequest>, SpecError>(
            seq![item_request(items[0])] + requests_of(items.drop_first()),
        ));
        assert(seq![item_request(items[0])] + requests_of(items.drop_first()) =~= requests_of(
            items,
        ));
    }
}

/// Round trip for whole documents: a document of `N` well-formed requests
/// separated by delimiters parses to exactly those `N` requests, in
/// document order, for every `N >= 0`.
pub proof fn lemma_parse_render_file(items: Seq<RenderedRequest>)
    requires
        forall|j: int| 0 <= j < items.len() ==> wf_rendered(#[trigger] items[j]),
    ensures
        spec_parse(render_file(items)) == Ok::<Seq<SpecRequest>, SpecError>(requests_of(items)),
        requests_of(items).len() == items.len(),
{
    let doc = render_file(items);
    let n = doc.len() as int;
    assert(doc.subrange(0, n) =~= doc);
    if items.len() == 0 {
        assert(crate::grammar::skip_preamble(doc, 0) == 0);
        assert(requests_at(doc, 0) == Ok::<Seq<GRequest>, SpecError>(Seq::empty()));
        assert(file_at(doc) == Ok::<Seq<GRequest>, SpecError>(Seq::empty()));
        assert(blocks_of(items) =~= Seq::<GRequest>::empty());
        lemma_transform_items(items);
    } else {
        assert(doc[0] == render_item(items[0])[0]) by {
            if items.len() == 1 {
                assert(doc == render_item(items[0]));
            }
        }
        assert(in_cls(Cls::Letter, doc[0])) by {
            lemma_render_item_head(items[0]);
        }
        assert(scan(doc, 0, Cls::AnyWs) == 0);
        assert(!starts_delim(doc, 0));
        assert(crate::grammar::skip_preamble(doc, 0) == 0);
        lemma_requests_render_at(doc, 0, items);
        assert(file_at(doc) == Ok::<Seq<GRequest>, SpecError>(blocks_of(items)));
        lemma_transform_items(items);
    }
}

} // verus!

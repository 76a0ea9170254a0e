//! The typed domain model and the tree-to-model transformer.
//!
//! The grammar engine (see `grammar`) turns a document into raw request
//! records; this module validates the one semantic constraint the grammar
//! does not enforce (the closed method set) and builds `HttpFile`,
//! `HttpRequest` and `HttpMethod` values.

use vstd::prelude::*;

use crate::grammar;
use crate::headers::Headers;

pub use crate::grammar::{raw_view, raws_view, GRequest, HttpParser, ParseNode, RawRequest, Rule};

verus! {

/// Mathematical form of a parse failure.
pub ghost enum SpecError {
    /// The input does not match the grammar: the rule that failed to match
    /// and the character position at which it failed.
    Syntax { rule: Rule, pos: int },
    /// A syntactically valid method token outside the closed method set.
    UnknownMethod(Seq<char>),
}

/// A parse failure: either the input does not match the grammar at some
/// position, or a request names a method outside the closed method set.
#[derive(Debug)]
pub enum ParseError {
    /// The rule that failed to match and the character position of the failure.
    SyntaxError { rule: Rule, pos: usize },
    /// The offending method token.
    UnknownMethod(String),
}

impl View for ParseError {
    type V = SpecError;

    open spec fn view(&self) -> SpecError {
        match self {
            ParseError::SyntaxError { rule, pos } => SpecError::Syntax {
                rule: *rule,
                pos: *pos as int,
            },
            ParseError::UnknownMethod(t) => SpecError::UnknownMethod(t@),
        }
    }
}

/// The closed set of methods a request may use.
#[derive(Debug, Clone, Copy, PartialEq, Eq, Structural)]
pub enum HttpMethod {
    Get,
    Post,
    Put,
    Delete,
}

/// The token that names a method on a request line.
pub open spec fn method_name(m: HttpMethod) -> Seq<char> {
    match m {
        HttpMethod::Get => "GET"@,
        HttpMethod::Post => "POST"@,
        HttpMethod::Put => "PUT"@,
        HttpMethod::Delete => "DELETE"@,
    }
}

/// The method named by a token: exact, case-sensitive match against the
/// closed set, `None` for every other token.
pub open spec fn method_of(t: Seq<char>) -> Option<HttpMethod> {
    if t == "GET"@ {
        Some(HttpMethod::Get)
    } else if t == "POST"@ {
        Some(HttpMethod::Post)
    } else if t == "PUT"@ {
        Some(HttpMethod::Put)
    } else if t == "DELETE"@ {
        Some(HttpMethod::Delete)
    } else {
        None
    }
}

impl HttpMethod {
    /// Validate a method token against the closed set; any other token is
    /// an `UnknownMethod` error carrying the token itself.
    pub fn from_str(s: &str) -> (r: Result<HttpMethod, ParseError>)
        ensures
            match r {
                Ok(m) => method_of(s@) == Some(m),
                Err(e) => method_of(s@) is None && e@ == SpecError::UnknownMethod(s@),
            },
    {
        if crate::scan::str_eq(s, "GET") {
            Ok(HttpMethod::Get)
        } else if crate::scan::str_eq(s, "POST") {
            Ok(HttpMethod::Post)
        } else if crate::scan::str_eq(s, "PUT") {
            Ok(HttpMethod::Put)
        } else if crate::scan::str_eq(s, "DELETE") {
            Ok(HttpMethod::Delete)
        } else {
            Err(ParseError::UnknownMethod(s.to_owned()))
        }
    }

    /// The token that names this method.
    pub fn as_str(&self) -> (r: &'static str)
        ensures
            r@ == method_name(*self),
    {
        match self {
            HttpMethod::Get => "GET",
            HttpMethod::Post => "POST",
            HttpMethod::Put => "PUT",
            HttpMethod::Delete => "DELETE",
        }
    }
}

/// Mathematical form of one parsed request.
pub ghost struct SpecRequest {
    pub method: HttpMethod,
    pub url: Seq<char>,
    pub version: Seq<char>,
    pub headers: Map<Seq<char>, Seq<char>>,
    pub body: Seq<char>,
}

/// The header mapping a list of `(name, value)` pairs denotes: the pairs
/// inserted in document order, so a later occurrence of a name replaces
/// the earlier value.
pub open spec fn fold_headers(ps: Seq<(Seq<char>, Seq<char>)>) -> Map<Seq<char>, Seq<char>>
    decreases ps.len(),
{
    if ps.len() == 0 {
        Map::empty()
    } else {
        fold_headers(ps.drop_last()).insert(ps.last().0, ps.last().1)
    }
}

/// Transform one raw request block: validate the method token against the
/// closed set and fold the header list into a mapping.
pub open spec fn transform_request(g: GRequest) -> Result<SpecRequest, SpecError> {
    match method_of(g.method) {
        Some(m) => Ok(
            SpecRequest {
                method: m,
                url: g.url,
                version: g.version,
                headers: fold_headers(g.headers),
                body: g.body,
            },
        ),
        None => Err(SpecError::UnknownMethod(g.method)),
    }
}

/// Transform the raw request blocks of a document in order, failing on the
/// first block whose method is unknown.
pub open spec fn transform_file(gs: Seq<GRequest>) -> Result<Seq<SpecRequest>, SpecError>
    decreases gs.len(),
{
    if gs.len() == 0 {
        Ok(Seq::empty())
    } else {
        match transform_request(gs[0]) {
            Err(e) => Err(e),
            Ok(q) => match transform_file(gs.drop_first()) {
                Err(e) => Err(e),
                Ok(rest) => Ok(seq![q] + rest),
            },
        }
    }
}

/// What a parse of a document returns: the grammar stage, then the
/// transformer stage.
pub open spec fn spec_parse(s: Seq<char>) -> Result<Seq<SpecRequest>, SpecError> {
    match grammar::file_at(s) {
        Err(e) => Err(e),
        Ok(gs) => transform_file(gs),
    }
}

/// One parsed request: method, URL and version from the request line, the
/// header mapping, and the body text (trimmed; empty when absent).
#[derive(Debug)]
pub struct HttpRequest {
    pub method: HttpMethod,
    pub url: String,
    pub version: String,
    pub headers: Headers,
    pub body: String,
}

impl View for HttpRequest {
    type V = SpecRequest;

    open spec fn view(&self) -> SpecRequest {
        SpecRequest {
            method: self.method,
            url: self.url@,
            version: self.version@,
            headers: self.headers@,
            body: self.body@,
        }
    }
}

/// The parsed requests a sequence of `HttpRequest` stands for.
pub open spec fn reqs_view(qs: Seq<HttpRequest>) -> Seq<SpecRequest> {
    qs.map_values(|q: HttpRequest| q@)
}

impl HttpRequest {
    /// Transform one raw request block into a typed request.
    pub fn parse(raw: RawRequest) -> (r: Result<HttpRequest, ParseError>)
        ensures
            match r {
                Ok(q) => transform_request(raw_view(raw)) == Ok::<SpecRequest, SpecError>(q@),
                Err(e) => transform_request(raw_view(raw)) == Err::<SpecRequest, SpecError>(e@),
            },
    {
        let method = match HttpMethod::from_str(raw.method_text.as_str()) {
            Ok(m) => m,
            Err(e) => {
                return Err(e);
            },
        };
        let ghost ps = grammar::hls_view(raw.headers@);
        let mut hs = raw.headers;
        let ghost hs0 = hs@;
        let mut headers = Headers::new();
        let ghost mut k: int = 0;
        proof {
            assert(ps.take(0) =~= Seq::<(Seq<char>, Seq<char>)>::empty());
        }
        while hs.len() > 0
            invariant
                0 <= k <= ps.len(),
                ps == grammar::hls_view(hs0),
                hs@ == hs0.skip(k),
                headers@ == fold_headers(ps.take(k)),
            decreases hs@.len(),
        {
            let h = hs.remove(0);
            proof {
                assert(hs0.skip(k)[0] == hs0[k]);
                assert(hs@ =~= hs0.skip(k + 1));
                assert(ps.take(k + 1).drop_last() =~= ps.take(k));
                assert(ps.take(k + 1).last() == ps[k]);
                assert(ps[k] == (hs0[k].name@, hs0[k].value@));
            }
            headers.insert(h.name, h.value);
            proof {
                k = k + 1;
                assert(headers@ == fold_headers(ps.take(k)));
            }
        }
        proof {
            assert(ps.take(k) =~= ps);
        }
        Ok(
            HttpRequest {
                method,
                url: raw.url,
                version: raw.version,
                headers,
                body: raw.body,
            },
        )
    }
}

/// A parsed document: its requests in document order.
#[derive(Debug)]
pub struct HttpFile {
    pub requests: Vec<HttpRequest>,
}

impl View for HttpFile {
    type V = Seq<SpecRequest>;

    open spec fn view(&self) -> Seq<SpecRequest> {
        reqs_view(self.requests@)
    }
}

impl HttpFile {
    /// Transform the raw request blocks of a document, in order, failing on
    /// the first block whose method is unknown.
    pub fn parse(raws: Vec<RawRequest>) -> (r: Result<HttpFile, ParseError>)
        ensures
            match r {
                Ok(f) => transform_file(raws_view(raws@)) == Ok::<Seq<SpecRequest>, SpecError>(f@),
                Err(e) => transform_file(raws_view(raws@)) == Err::<Seq<SpecRequest>, SpecError>(
                    e@,
                ),
            },
    {
        let ghost gs = raws_view(raws@);
        let mut rem = raws;
        let mut acc: Vec<HttpRequest> = Vec::new();
        proof {
            assert(reqs_view(acc@) + transform_file(raws_view(rem@))->Ok_0 =~= transform_file(
                raws_view(rem@),
            )->Ok_0);
        }
        while rem.len() > 0
            invariant
                gs == raws_view(raws@),
                match transform_file(raws_view(rem@)) {
                    Ok(rest) => transform_file(gs) == Ok::<Seq<SpecRequest>, SpecError>(
                        reqs_view(acc@) + rest,
                    ),
                    Err(e) => transform_file(gs) == Err::<Seq<SpecRequest>, SpecError>(e),
                },
            decreases rem@.len(),
        {
            let ghost rem0 = rem@;
            let raw = rem.remove(0);
            proof {
                assert(raws_view(rem0)[0] == raw_view(rem0[0]));
                assert(raws_view(rem@) =~= raws_view(rem0).drop_first());
            }
            match HttpRequest::parse(raw) {
                Err(e) => {
                    return Err(e);
                },
                Ok(q) => {
                    proof {
                        assert(reqs_view(acc@.push(q)) =~= reqs_view(acc@).push(q@));
                        match transform_file(raws_view(rem@)) {
                            Ok(rest) => {
                                assert(reqs_view(acc@) + (seq![q@] + rest) =~= reqs_view(
                                    acc@.push(q),
                                ) + rest);
                            },
                            Err(_) => {},
                        }
                    }
                    acc.push(q);
                },
            }
        }
        proof {
            assert(raws_view(rem@) =~= Seq::<GRequest>::empty());
            assert(reqs_view(acc@) + Seq::<SpecRequest>::empty() =~= reqs_view(acc@));
        }
        Ok(HttpFile { requests: acc })
    }
}

/// Parse a document: the grammar engine recognizes the delimiters, request
/// lines, headers and bodies, and the transformer builds the typed model,
/// validating each method token. All-or-nothing: the first syntax error or
/// unknown method fails the whole document.
pub fn parse(input: &str) -> (r: Result<HttpFile, ParseError>)
    ensures
        match r {
            Ok(f) => spec_parse(input@) == Ok::<Seq<SpecRequest>, SpecError>(f@),
            Err(e) => spec_parse(input@) == Err::<Seq<SpecRequest>, SpecError>(e@),
        },
{
    match grammar::document(input) {
        Err(e) => Err(e),
        Ok(raws) => HttpFile::parse(raws),
    }
}

} // verus!

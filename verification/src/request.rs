//! The request parser: turns the raw text lines of a request head (plus an
//! optional trailing body fragment) into a structured [`ParsedRequest`].
//!
//! The first line is the request line and is split on whitespace into the
//! method, target, and version tokens; the target is split at its first
//! `'?'` into route and query. Every later line that holds a `':'` and does
//! not start with `'{'` contributes a trimmed header pair. Only a `POST`
//! request takes a body, and only when the final input element starts with
//! `'{'`.

use crate::text::{
    find_at, is_ws, next_non_ws, next_ws, trim, find_from, lemma_find_at, lemma_next_non_ws,
    lemma_next_ws, skip_non_ws, skip_ws, str_eq, trim_str,
};
use vstd::prelude::*;
use vstd::string::*;

verus! {

/// The request methods the parser recognizes. Any other request-line token
/// is treated as `GET` (documented lossy behavior, not an error).
#[derive(Clone, Copy, Debug, PartialEq, Eq, Structural)]
pub enum Method {
    GET,
    POST,
    PUT,
    DELETE,
}

/// The method named by a request-line token; unknown tokens map to `GET`.
pub open spec fn spec_method(tok: Seq<char>) -> Method {
    if tok == "GET"@ {
        Method::GET
    } else if tok == "POST"@ {
        Method::POST
    } else if tok == "PUT"@ {
        Method::PUT
    } else if tok == "DELETE"@ {
        Method::DELETE
    } else {
        Method::GET
    }
}

/// Any method token outside {GET, POST, PUT, DELETE} parses to `GET`.
pub proof fn lemma_unknown_method_is_get(tok: Seq<char>)
    requires
        tok != "GET"@,
        tok != "POST"@,
        tok != "PUT"@,
        tok != "DELETE"@,
    ensures
        spec_method(tok) == Method::GET,
{
}

/// The views of the held pairs: each header name with its value.
spec fn pairs_view(ps: Seq<(String, String)>) -> Seq<(Seq<char>, Seq<char>)> {
    Seq::new(ps.len(), |i: int| (ps[i].0@, ps[i].1@))
}

/// No two pairs carry the same name.
spec fn keys_distinct(ps: Seq<(Seq<char>, Seq<char>)>) -> bool {
    forall|i: int, j: int|
        0 <= i < j < ps.len() ==> (#[trigger] ps[i]).0 != (#[trigger] ps[j]).0
}

/// The mapping the pairs spell out, inserted first to last, so with a
/// repeated name the later pair would win.
spec fn map_of(ps: Seq<(Seq<char>, Seq<char>)>) -> Map<Seq<char>, Seq<char>>
    decreases ps.len(),
{
    if ps.len() == 0 {
        Map::empty()
    } else {
        map_of(ps.drop_last()).insert(ps.last().0, ps.last().1)
    }
}

/// Dropping the last pair keeps the names distinct.
proof fn lemma_keys_distinct_drop_last(ps: Seq<(Seq<char>, Seq<char>)>)
    requires
        keys_distinct(ps),
        ps.len() > 0,
    ensures
        keys_distinct(ps.drop_last()),
{
    assert forall|i: int, j: int|
        0 <= i < j < ps.drop_last().len() implies (#[trigger] ps.drop_last()[i]).0 != (
    #[trigger] ps.drop_last()[j]).0 by {
        assert(ps.drop_last()[i] == ps[i]);
        assert(ps.drop_last()[j] == ps[j]);
    }
}

/// A name is in the mapping exactly when some pair carries it.
proof fn lemma_map_of_contains(ps: Seq<(Seq<char>, Seq<char>)>, k: Seq<char>)
    ensures
        map_of(ps).contains_key(k) <==> exists|i: int|
            0 <= i < ps.len() && (#[trigger] ps[i]).0 == k,
    decreases ps.len(),
{
    if ps.len() > 0 {
        lemma_map_of_contains(ps.drop_last(), k);
        if map_of(ps).contains_key(k) && ps.last().0 == k {
            assert(ps[ps.len() - 1].0 == k);
        }
        if map_of(ps).contains_key(k) && ps.last().0 != k {
            let i = choose|i: int|
                0 <= i < ps.drop_last().len() && (#[trigger] ps.drop_last()[i]).0 == k;
            assert(ps[i].0 == k);
        }
        if exists|i: int| 0 <= i < ps.len() && (#[trigger] ps[i]).0 == k {
            let i = choose|i: int| 0 <= i < ps.len() && (#[trigger] ps[i]).0 == k;
            if i < ps.len() - 1 {
                assert(ps.drop_last()[i].0 == k);
            }
        }
    }
}

/// With distinct names, the pair carrying a name gives the mapped value.
proof fn lemma_map_of_value(ps: Seq<(Seq<char>, Seq<char>)>, i: int)
    requires
        keys_distinct(ps),
        0 <= i < ps.len(),
    ensures
        map_of(ps).contains_key(ps[i].0),
        map_of(ps)[ps[i].0] == ps[i].1,
    decreases ps.len(),
{
    if i < ps.len() - 1 {
        lemma_keys_distinct_drop_last(ps);
        assert(ps.drop_last()[i] == ps[i]);
        lemma_map_of_value(ps.drop_last(), i);
        assert(ps.last().0 != ps[i].0);
    }
}

/// With distinct names, the mapping holds exactly one entry per pair.
proof fn lemma_map_of_dom_len(ps: Seq<(Seq<char>, Seq<char>)>)
    requires
        keys_distinct(ps),
    ensures
        map_of(ps).dom().finite(),
        map_of(ps).dom().len() == ps.len(),
    decreases ps.len(),
{
    if ps.len() == 0 {
        assert(map_of(ps).dom() =~= Set::<Seq<char>>::empty());
    } else {
        lemma_keys_distinct_drop_last(ps);
        lemma_map_of_dom_len(ps.drop_last());
        lemma_map_of_contains(ps.drop_last(), ps.last().0);
        assert forall|i: int|
            0 <= i < ps.drop_last().len() implies (#[trigger] ps.drop_last()[i]).0
            != ps.last().0 by {
            assert(ps.drop_last()[i] == ps[i]);
            assert(ps[i].0 != ps[ps.len() - 1].0);
        }
        assert(!map_of(ps.drop_last()).contains_key(ps.last().0));
        assert(map_of(ps).dom() =~= map_of(ps.drop_last()).dom().insert(ps.last().0));
    }
}

/// Overwriting the value of the pair that carries a name is exactly a map
/// insert for that name.
proof fn lemma_map_of_update(ps: Seq<(Seq<char>, Seq<char>)>, j: int, v: Seq<char>)
    requires
        keys_distinct(ps),
        0 <= j < ps.len(),
    ensures
        keys_distinct(ps.update(j, (ps[j].0, v))),
        map_of(ps.update(j, (ps[j].0, v))) == map_of(ps).insert(ps[j].0, v),
    decreases ps.len(),
{
    let n = ps[j].0;
    let q = ps.update(j, (n, v));
    assert forall|i: int, i2: int|
        0 <= i < i2 < q.len() implies (#[trigger] q[i]).0 != (#[trigger] q[i2]).0 by {
        assert(q[i].0 == ps[i].0);
        assert(q[i2].0 == ps[i2].0);
        assert(ps[i].0 != ps[i2].0);
    }
    if j == ps.len() - 1 {
        assert(q.drop_last() =~= ps.drop_last());
        assert(q.last() == (n, v));
        assert(map_of(ps.drop_last()).insert(n, ps.last().1).insert(n, v)
            =~= map_of(ps.drop_last()).insert(n, v));
    } else {
        lemma_keys_distinct_drop_last(ps);
        assert(ps.drop_last()[j] == ps[j]);
        lemma_map_of_update(ps.drop_last(), j, v);
        assert(q.drop_last() =~= ps.drop_last().update(j, (n, v)));
        assert(q.last() == ps.last());
        assert(ps.last().0 != n);
        assert(map_of(ps.drop_last()).insert(n, v).insert(ps.last().0, ps.last().1)
            =~= map_of(ps.drop_last()).insert(ps.last().0, ps.last().1).insert(n, v));
    }
}

/// The headers of a request: a mapping from header name to value. Names
/// are case-sensitive, and inserting a name again overwrites its value —
/// the map stays keyed by name.
#[derive(Debug)]
pub struct Headers {
    pairs: Vec<(String, String)>,
}

impl View for Headers {
    type V = Map<Seq<char>, Seq<char>>;

    closed spec fn view(&self) -> Map<Seq<char>, Seq<char>> {
        map_of(pairs_view(self.pairs@))
    }
}

impl Headers {
    /// Each header name is held by at most one pair.
    #[verifier::type_invariant]
    spec fn wf(self) -> bool {
        keys_distinct(pairs_view(self.pairs@))
    }

    /// The position of the pair carrying `name`, if one exists.
    fn find_pair(pairs: &Vec<(String, String)>, name: &str) -> (r: Option<usize>)
        ensures
            match r {
                Some(j) => j < pairs@.len() && pairs_view(pairs@)[j as int].0 == name@,
                None => forall|i: int|
                    0 <= i < pairs@.len() ==> (#[trigger] pairs_view(pairs@)[i]).0 != name@,
            },
    {
        let len = pairs.len();
        let mut j: usize = 0;
        while j < len
            invariant
                j <= len,
                len == pairs@.len(),
                forall|i: int| 0 <= i < j ==> (#[trigger] pairs_view(pairs@)[i]).0 != name@,
            decreases len - j,
        {
            if str_eq(pairs[j].0.as_str(), name) {
                return Some(j);
            }
            j = j + 1;
        }
        None
    }

    /// An empty header mapping.
    pub fn new() -> (h: Headers)
        ensures
            h@ == Map::<Seq<char>, Seq<char>>::empty(),
    {
        let h = Headers { pairs: Vec::new() };
        proof {
            assert(pairs_view(h.pairs@) =~= Seq::<(Seq<char>, Seq<char>)>::empty());
        }
        h
    }

    /// Record `value` under `name`; inserting a name again overwrites the
    /// value it maps to, as in a map keyed by name.
    pub fn insert(&mut self, name: String, value: String)
        ensures
            final(self)@ == old(self)@.insert(name@, value@),
    {
        proof {
            use_type_invariant(&*self);
        }
        let ghost ps = pairs_view(self.pairs@);
        let ghost nv = name@;
        let ghost vv = value@;
        let mut pairs: Vec<(String, String)> = Vec::new();
        std::mem::swap(&mut pairs, &mut self.pairs);
        match Self::find_pair(&pairs, name.as_str()) {
            Some(j) => {
                proof {
                    lemma_map_of_update(ps, j as int, vv);
                }
                pairs[j] = (name, value);
                proof {
                    assert(pairs_view(pairs@) =~= ps.update(j as int, (nv, vv)));
                    assert(map_of(pairs_view(pairs@)) == map_of(ps).insert(nv, vv));
                }
            },
            None => {
                pairs.push((name, value));
                proof {
                    assert(pairs_view(pairs@) =~= ps.push((nv, vv)));
                    assert(pairs_view(pairs@).drop_last() =~= ps);
                    assert forall|i: int, i2: int|
                        0 <= i < i2 < pairs_view(pairs@).len() implies (#[trigger] pairs_view(
                        pairs@,
                    )[i]).0 != (#[trigger] pairs_view(pairs@)[i2]).0 by {
                        if i2 < ps.len() {
                            assert(ps[i].0 != ps[i2].0);
                        } else {
                            assert(pairs_view(pairs@)[i2] == (nv, vv));
                            assert(ps[i].0 != nv);
                        }
                    }
                    assert(map_of(pairs_view(pairs@)) == map_of(ps).insert(nv, vv));
                }
            },
        }
        self.pairs = pairs;
    }

    /// The value mapped for `name`, if any.
    pub fn get<'a>(&'a self, name: &str) -> (r: Option<&'a String>)
        ensures
            match r {
                Some(v) => self@.contains_key(name@) && self@[name@] == v@,
                None => !self@.contains_key(name@),
            },
    {
        proof {
            use_type_invariant(&*self);
        }
        match Self::find_pair(&self.pairs, name) {
            Some(j) => {
                proof {
                    lemma_map_of_value(pairs_view(self.pairs@), j as int);
                }
                Some(&self.pairs[j].1)
            },
            None => {
                proof {
                    lemma_map_of_contains(pairs_view(self.pairs@), name@);
                    if self@.contains_key(name@) {
                        let i = choose|i: int|
                            0 <= i < pairs_view(self.pairs@).len() && (#[trigger] pairs_view(
                            self.pairs@,
                        )[i]).0 == name@;
                        assert(false);
                    }
                }
                None
            },
        }
    }

    /// How many header names the mapping holds; a repeated name counts
    /// once.
    pub fn len(&self) -> (n: usize)
        ensures
            n == self@.dom().len(),
    {
        proof {
            use_type_invariant(&*self);
            lemma_map_of_dom_len(pairs_view(self.pairs@));
        }
        self.pairs.len()
    }
}

/// A structured request, constructed once from the raw request lines and
/// read-only thereafter. `route` never contains `'?'`: everything after the
/// first `'?'` of the target lives in `query`. `version` is carried through
/// unvalidated.
#[derive(Debug)]
pub struct ParsedRequest {
    pub method: Method,
    pub route: String,
    pub version: String,
    pub query: String,
    pub headers: Headers,
    pub body: String,
}

/// The mathematical content of a [`ParsedRequest`].
#[verifier::ext_equal]
pub struct ReqModel {
    pub method: Method,
    pub route: Seq<char>,
    pub version: Seq<char>,
    pub query: Seq<char>,
    pub headers: Map<Seq<char>, Seq<char>>,
    pub body: Seq<char>,
}

impl View for ParsedRequest {
    type V = ReqModel;

    open spec fn view(&self) -> ReqModel {
        ReqModel {
            method: self.method,
            route: self.route@,
            version: self.version@,
            query: self.query@,
            headers: self.headers@,
            body: self.body@,
        }
    }
}

/// Why a parse failed.
#[derive(Clone, Copy, Debug, PartialEq, Eq, Structural)]
pub enum ParseError {
    /// The request line held fewer than three whitespace-separated tokens.
    MalformedRequestLine,
}

/// Start of the first whitespace-separated token of the request line.
pub open spec fn tok1_start(s: Seq<char>) -> int {
    next_non_ws(s, 0)
}

/// End of the first token.
pub open spec fn tok1_end(s: Seq<char>) -> int {
    next_ws(s, tok1_start(s))
}

/// Start of the second token.
pub open spec fn tok2_start(s: Seq<char>) -> int {
    next_non_ws(s, tok1_end(s))
}

/// End of the second token.
pub open spec fn tok2_end(s: Seq<char>) -> int {
    next_ws(s, tok2_start(s))
}

/// Start of the third token.
pub open spec fn tok3_start(s: Seq<char>) -> int {
    next_non_ws(s, tok2_end(s))
}

/// End of the third token.
pub open spec fn tok3_end(s: Seq<char>) -> int {
    next_ws(s, tok3_start(s))
}

/// Whether the request line holds at least three whitespace-separated
/// tokens: method, target, and version.
pub open spec fn has_three_tokens(s: Seq<char>) -> bool {
    tok3_start(s) < s.len()
}

/// The method token of the request line.
pub open spec fn method_tok(s: Seq<char>) -> Seq<char> {
    s.subrange(tok1_start(s), tok1_end(s))
}

/// The target token of the request line (route plus optional query).
pub open spec fn target_tok(s: Seq<char>) -> Seq<char> {
    s.subrange(tok2_start(s), tok2_end(s))
}

/// The version token of the request line.
pub open spec fn version_tok(s: Seq<char>) -> Seq<char> {
    s.subrange(tok3_start(s), tok3_end(s))
}

/// The route part of a request target: everything before the first `'?'`.
pub open spec fn route_of(target: Seq<char>) -> Seq<char> {
    target.subrange(0, find_at(target, 0, '?'))
}

/// The query part of a request target: everything after the first `'?'`,
/// or empty if the target holds no `'?'`.
pub open spec fn query_of(target: Seq<char>) -> Seq<char> {
    let q = find_at(target, 0, '?');
    if q < target.len() {
        target.subrange(q + 1, target.len() as int)
    } else {
        Seq::empty()
    }
}

/// A parsed route never contains `'?'`: the target is split at its first
/// one, and everything from there on belongs to the query.
pub proof fn lemma_route_has_no_question_mark(target: Seq<char>)
    ensures
        forall|j: int| 0 <= j < route_of(target).len() ==> route_of(target)[j] != '?',
{
    lemma_find_at(target, 0, '?');
}

/// The header pair a head line contributes: `None` for the lines the
/// parser skips (no `':'`, or a stray body fragment starting with `'{'`);
/// otherwise the line is split at its first `':'` — later colons stay in
/// the value — and both sides are trimmed of surrounding whitespace.
pub open spec fn header_of_line(l: Seq<char>) -> Option<(Seq<char>, Seq<char>)> {
    let c = find_at(l, 0, ':');
    if c == l.len() || (l.len() > 0 && l[0] == '{') {
        None
    } else {
        Some((trim(l.subrange(0, c)), trim(l.subrange(c + 1, l.len() as int))))
    }
}

/// The header mapping contributed by the given head lines: each
/// contributing line inserts its pair in order, so a later line with the
/// same name overwrites the value.
pub open spec fn header_map(tail: Seq<Seq<char>>) -> Map<Seq<char>, Seq<char>>
    decreases tail.len(),
{
    if tail.len() == 0 {
        Map::empty()
    } else {
        match header_of_line(tail.last()) {
            Some(p) => header_map(tail.drop_last()).insert(p.0, p.1),
            None => header_map(tail.drop_last()),
        }
    }
}

/// The body the parser extracts: only a `POST` request takes one, and only
/// when the final input element starts with `'{'`; it is then that element
/// verbatim. Every other request has an empty body, whatever trails it.
pub open spec fn body_of(m: Method, lines: Seq<Seq<char>>) -> Seq<char> {
    if m == Method::POST && lines.len() > 0 && lines.last().len() > 0 && lines.last()[0]
        == '{' {
        lines.last()
    } else {
        Seq::empty()
    }
}

/// Only a `POST` request takes a body, and only when the final input
/// element starts with `'{'`.
pub proof fn lemma_body_policy(m: Method, lines: Seq<Seq<char>>)
    ensures
        m != Method::POST ==> body_of(m, lines) == Seq::<char>::empty(),
        (m == Method::POST && lines.len() > 0 && lines.last().len() > 0 && lines.last()[0]
            == '{') ==> body_of(m, lines) == lines.last(),
        (lines.len() > 0 && !(lines.last().len() > 0 && lines.last()[0] == '{')) ==> body_of(
            m,
            lines,
        ) == Seq::<char>::empty(),
{
}

/// The degraded request produced from empty input: a `GET` with every
/// string field empty and no headers. Its empty route is never registered,
/// so it routes to the not-found handler rather than crashing the parser.
pub open spec fn degraded_model() -> ReqModel {
    ReqModel {
        method: Method::GET,
        route: Seq::empty(),
        version: Seq::empty(),
        query: Seq::empty(),
        headers: Map::empty(),
        body: Seq::empty(),
    }
}

/// What `parse` returns: `None` when the request line is malformed (fewer
/// than three whitespace-separated tokens), the degraded request for empty
/// input, and otherwise the request assembled from the three tokens, the
/// header lines, and the trailing body element.
pub open spec fn spec_parse(lines: Seq<Seq<char>>) -> Option<ReqModel> {
    if lines.len() == 0 {
        Some(degraded_model())
    } else {
        let rl = lines[0];
        if !has_three_tokens(rl) {
            None
        } else {
            let m = spec_method(method_tok(rl));
            Some(
                ReqModel {
                    method: m,
                    route: route_of(target_tok(rl)),
                    version: version_tok(rl),
                    query: query_of(target_tok(rl)),
                    headers: header_map(lines.skip(1)),
                    body: body_of(m, lines),
                },
            )
        }
    }
}

/// Empty input does not fail: it parses to the degraded default request.
pub proof fn lemma_empty_input_degrades()
    ensures
        spec_parse(Seq::empty()) == Some(degraded_model()),
{
}

/// Parsing is deterministic: two parses of the same line sequence yield
/// field-for-field identical requests.
pub proof fn lemma_parse_deterministic(lines: Seq<Seq<char>>, a: ReqModel, b: ReqModel)
    requires
        spec_parse(lines) == Some(a),
        spec_parse(lines) == Some(b),
    ensures
        a.method == b.method,
        a.route == b.route,
        a.version == b.version,
        a.query == b.query,
        a.headers == b.headers,
        a.body == b.body,
{
}

/// Whether the line begins with `'{'` (a stray body fragment in the head).
fn starts_with_brace(s: &str) -> (r: bool)
    ensures
        r == (s@.len() > 0 && s@[0] == '{'),
{
    if s.unicode_len() == 0 {
        false
    } else {
        s.get_char(0) == '{'
    }
}

/// The `Method` for a request-line token; any unknown token is `GET`.
pub fn parse_method(tok: &str) -> (m: Method)
    ensures
        m == spec_method(tok@),
{
    if str_eq(tok, "GET") {
        Method::GET
    } else if str_eq(tok, "POST") {
        Method::POST
    } else if str_eq(tok, "PUT") {
        Method::PUT
    } else if str_eq(tok, "DELETE") {
        Method::DELETE
    } else {
        Method::GET
    }
}

/// Parse the request head lines (plus an optional trailing body fragment)
/// into a structured request.
///
/// Empty input degrades to the default request instead of failing; a
/// nonempty input whose request line holds fewer than three tokens is
/// rejected as a bad request, for the dispatcher to answer with a 400
/// status instead of crashing the process.
pub fn parse(lines: &Vec<String>) -> (r: Result<ParsedRequest, ParseError>)
    ensures
        match r {
            Ok(p) => spec_parse(lines.deep_view()) == Some(p@),
            Err(e) => spec_parse(lines.deep_view()) == None::<ReqModel> && e
                == ParseError::MalformedRequestLine,
        },
{
    let ghost lv = lines.deep_view();
    let n = lines.len();
    if n == 0 {
        let p = ParsedRequest {
            method: Method::GET,
            route: String::new(),
            version: String::new(),
            query: String::new(),
            headers: Headers::new(),
            body: String::new(),
        };
        proof {
            assert(p@ =~~= degraded_model());
        }
        return Ok(p);
    }
    let rl: &str = lines[0].as_str();
    proof {
        assert(lv[0] == lines@[0]@);
    }
    let rl_len = rl.unicode_len();
    let t1s = skip_ws(rl, 0);
    let t1e = skip_non_ws(rl, t1s);
    let t2s = skip_ws(rl, t1e);
    let t2e = skip_non_ws(rl, t2s);
    let t3s = skip_ws(rl, t2e);
    let t3e = skip_non_ws(rl, t3s);
    if t3s == rl_len {
        return Err(ParseError::MalformedRequestLine);
    }
    let method_s = rl.substring_char(t1s, t1e);
    let target = rl.substring_char(t2s, t2e);
    let version = rl.substring_char(t3s, t3e).to_owned();
    let method = parse_method(method_s);

    let t_len = target.unicode_len();
    let q = find_from(target, 0, '?');
    let route = target.substring_char(0, q).to_owned();
    let query = if q < t_len {
        target.substring_char(q + 1, t_len).to_owned()
    } else {
        String::new()
    };

    let mut headers = Headers::new();
    proof {
        assert(lv.subrange(1, 1) =~= Seq::<Seq<char>>::empty());
    }
    let mut i: usize = 1;
    while i < n
        invariant
            1 <= i <= n,
            n == lines@.len(),
            lv == lines.deep_view(),
            headers@ == header_map(lv.subrange(1, i as int)),
        decreases n - i,
    {
        let line: &str = lines[i].as_str();
        proof {
            assert(lv[i as int] == lines@[i as int]@);
            assert(lv.subrange(1, i + 1).last() == lv[i as int]);
            assert(lv.subrange(1, i + 1).drop_last() =~= lv.subrange(1, i as int));
        }
        let l_len = line.unicode_len();
        let c = find_from(line, 0, ':');
        let brace = starts_with_brace(line);
        if c < l_len && !brace {
            let name = trim_str(line.substring_char(0, c));
            let value = trim_str(line.substring_char(c + 1, l_len));
            headers.insert(name, value);
        }
        i = i + 1;
    }
    proof {
        assert(lv.subrange(1, n as int) =~= lv.skip(1));
    }

    let body = if method == Method::POST {
        let last: &str = lines[n - 1].as_str();
        proof {
            assert(lv[n - 1] == lines@[n - 1]@);
            assert(lv.last() == lv[n - 1]);
        }
        if starts_with_brace(last) {
            last.to_owned()
        } else {
            String::new()
        }
    } else {
        String::new()
    };

    let p = ParsedRequest { method, route, version, query, headers, body };
    proof {
        assert(p@ =~~= spec_parse(lv).unwrap());
    }
    Ok(p)
}

/// A request line assembled as `a + " " + b + " " + c`, with nonempty
/// whitespace-free tokens, tokenizes to exactly `a`, `b`, and `c`.
pub proof fn lemma_three_token_line(a: Seq<char>, b: Seq<char>, c: Seq<char>)
    requires
        a.len() > 0,
        b.len() > 0,
        c.len() > 0,
        forall|j: int| 0 <= j < a.len() ==> !is_ws(a[j]),
        forall|j: int| 0 <= j < b.len() ==> !is_ws(b[j]),
        forall|j: int| 0 <= j < c.len() ==> !is_ws(c[j]),
    ensures
        has_three_tokens(a + " "@ + b + " "@ + c),
        method_tok(a + " "@ + b + " "@ + c) == a,
        target_tok(a + " "@ + b + " "@ + c) == b,
        version_tok(a + " "@ + b + " "@ + c) == c,
{
    reveal_strlit(" ");
    let s = a + " "@ + b + " "@ + c;
    let la = a.len() as int;
    let lb = b.len() as int;
    let lc = c.len() as int;
    assert(s.len() == la + lb + lc + 2);
    assert(forall|j: int| 0 <= j < la ==> s[j] == a[j]);
    assert(s[la] == ' ');
    assert(forall|j: int| 0 <= j < lb ==> s[la + 1 + j] == b[j]);
    assert(s[la + 1 + lb] == ' ');
    assert(forall|j: int| 0 <= j < lc ==> s[la + lb + 2 + j] == c[j]);

    lemma_next_non_ws(s, 0);
    assert(!is_ws(s[0]));
    assert(tok1_start(s) == 0);
    lemma_next_ws(s, 0);
    assert(is_ws(s[la]));
    assert(forall|j: int| 0 <= j < la ==> !is_ws(s[j]));
    assert(tok1_end(s) == la);
    lemma_next_non_ws(s, la);
    assert(!is_ws(s[la + 1]));
    assert(tok2_start(s) == la + 1);
    lemma_next_ws(s, la + 1);
    assert(is_ws(s[la + 1 + lb]));
    assert(forall|j: int| la + 1 <= j < la + 1 + lb ==> !is_ws(s[j]));
    assert(tok2_end(s) == la + 1 + lb);
    lemma_next_non_ws(s, la + 1 + lb);
    assert(!is_ws(s[la + lb + 2]));
    assert(tok3_start(s) == la + lb + 2);
    lemma_next_ws(s, la + lb + 2);
    assert(forall|j: int| la + lb + 2 <= j < s.len() ==> !is_ws(s[j]));
    assert(tok3_end(s) == s.len());

    assert(method_tok(s) =~= a);
    assert(target_tok(s) =~= b);
    assert(version_tok(s) =~= c);
}

/// A target `path + "?" + query`, with no `'?'` in the path, splits at
/// that first `'?'`: the route is the path and the query is everything
/// after, even when the query holds further `'?'` characters.
pub proof fn lemma_target_with_query(path: Seq<char>, query: Seq<char>)
    requires
        forall|j: int| 0 <= j < path.len() ==> path[j] != '?',
    ensures
        route_of(path + "?"@ + query) == path,
        query_of(path + "?"@ + query) == query,
{
    reveal_strlit("?");
    let t = path + "?"@ + query;
    let lp = path.len() as int;
    assert(t.len() == lp + 1 + query.len());
    assert(forall|j: int| 0 <= j < lp ==> t[j] == path[j]);
    assert(t[lp] == '?');
    assert(forall|j: int| 0 <= j < query.len() ==> t[lp + 1 + j] == query[j]);
    lemma_find_at(t, 0, '?');
    assert(find_at(t, 0, '?') == lp);
    assert(route_of(t) =~= path);
    assert(query_of(t) =~= query);
}

/// A target without `'?'` is all route: the query is empty.
pub proof fn lemma_target_plain(target: Seq<char>)
    requires
        forall|j: int| 0 <= j < target.len() ==> target[j] != '?',
    ensures
        route_of(target) == target,
        query_of(target) == Seq::<char>::empty(),
{
    lemma_find_at(target, 0, '?');
    assert(find_at(target, 0, '?') == target.len());
    assert(route_of(target) =~= target);
}

/// Every head whose request line reads `"<METHOD> <PATH>?<QUERY> <VERSION>"`
/// — single spaces, nonempty whitespace-free tokens, no `'?'` in the path —
/// parses to exactly that method, path, query, and version.
pub proof fn lemma_parse_request_line_with_query(
    lines: Seq<Seq<char>>,
    method: Seq<char>,
    path: Seq<char>,
    query: Seq<char>,
    version: Seq<char>,
)
    requires
        lines.len() > 0,
        lines[0] == method + " "@ + (path + "?"@ + query) + " "@ + version,
        method.len() > 0,
        path.len() > 0,
        version.len() > 0,
        forall|j: int| 0 <= j < method.len() ==> !is_ws(method[j]),
        forall|j: int| 0 <= j < path.len() ==> !is_ws(path[j]),
        forall|j: int| 0 <= j < query.len() ==> !is_ws(query[j]),
        forall|j: int| 0 <= j < version.len() ==> !is_ws(version[j]),
        forall|j: int| 0 <= j < path.len() ==> path[j] != '?',
    ensures
        spec_parse(lines) is Some,
        spec_parse(lines).unwrap().method == spec_method(method),
        spec_parse(lines).unwrap().route == path,
        spec_parse(lines).unwrap().query == query,
        spec_parse(lines).unwrap().version == version,
{
    reveal_strlit("?");
    let target = path + "?"@ + query;
    assert(forall|j: int| 0 <= j < target.len() ==> !is_ws(target[j])) by {
        assert(forall|j: int| 0 <= j < path.len() ==> target[j] == path[j]);
        assert(target[path.len() as int] == '?');
        assert(forall|j: int|
            0 <= j < query.len() ==> target[path.len() + 1 + j] == query[j]);
        assert(!is_ws('?'));
    }
    lemma_three_token_line(method, target, version);
    lemma_target_with_query(path, query);
}

/// Every head whose request line reads `"<METHOD> <PATH> <VERSION>"` —
/// single spaces, nonempty whitespace-free tokens, no `'?'` in the path —
/// parses to exactly that method and path, with an empty query.
pub proof fn lemma_parse_request_line_plain(
    lines: Seq<Seq<char>>,
    method: Seq<char>,
    path: Seq<char>,
    version: Seq<char>,
)
    requires
        lines.len() > 0,
        lines[0] == method + " "@ + path + " "@ + version,
        method.len() > 0,
        path.len() > 0,
        version.len() > 0,
        forall|j: int| 0 <= j < method.len() ==> !is_ws(method[j]),
        forall|j: int| 0 <= j < path.len() ==> !is_ws(path[j]),
        forall|j: int| 0 <= j < version.len() ==> !is_ws(version[j]),
        forall|j: int| 0 <= j < path.len() ==> path[j] != '?',
    ensures
        spec_parse(lines) is Some,
        spec_parse(lines).unwrap().method == spec_method(method),
        spec_parse(lines).unwrap().route == path,
        spec_parse(lines).unwrap().query == Seq::<char>::empty(),
        spec_parse(lines).unwrap().version == version,
{
    lemma_three_token_line(method, path, version);
    lemma_target_plain(path);
}

/// Whether `s` holds the four characters `POST` in a row starting at `k`.
pub open spec fn post_at(s: Seq<char>, k: int) -> bool {
    s[k] == 'P' && s[k + 1] == 'O' && s[k + 2] == 'S' && s[k + 3] == 'T'
}

/// Whether `s` contains the four characters `POST` in a row.
pub open spec fn has_post(s: Seq<char>) -> bool {
    exists|k: int| 0 <= k && k + 4 <= s.len() && #[trigger] post_at(s, k)
}

/// Whether the connection handler should read a trailing body fragment
/// after the head: the first head line mentions `POST`. Empty input asks
/// for none.
pub fn head_expects_body(head: &Vec<String>) -> (r: bool)
    ensures
        r == (head@.len() > 0 && has_post(head.deep_view()[0])),
{
    if head.len() == 0 {
        return false;
    }
    let line: &str = head[0].as_str();
    proof {
        assert(head.deep_view()[0] == head@[0]@);
    }
    let len = line.unicode_len();
    if len < 4 {
        return false;
    }
    let mut k: usize = 0;
    while k <= len - 4
        invariant
            4 <= len == line@.len(),
            0 <= k <= len - 3,
            head@.len() > 0,
            line@ == head.deep_view()[0],
            forall|j: int| 0 <= j < k ==> !post_at(line@, j),
        decreases len - k,
    {
        if line.get_char(k) == 'P' && line.get_char(k + 1) == 'O' && line.get_char(k + 2) == 'S'
            && line.get_char(k + 3) == 'T' {
            proof {
                assert(post_at(line@, k as int));
                assert(has_post(line@));
            }
            return true;
        }
        k = k + 1;
    }
    proof {
        assert(!has_post(line@)) by {
            if has_post(line@) {
                let j = choose|j: int| 0 <= j && j + 4 <= line@.len() && #[trigger] post_at(
                    line@,
                    j,
                );
                assert(!post_at(line@, j));
            }
        }
    }
    false
}

} // verus!

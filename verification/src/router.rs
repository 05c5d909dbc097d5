//! The router and response formatter: looks a parsed request's route up in
//! an exact-match table, picks the status line and the backing resource,
//! and assembles the literal response bytes (status line, `Content-Length`
//! header, blank line, body).

use crate::request::{ParseError, ParsedRequest};
use crate::text::{dec_rep, str_eq, usize_to_string};
use vstd::prelude::*;
use vstd::string::*;

verus! {

/// The logical backing resource a handler serves: the index page for the
/// registered root route, or the not-found page. Reading the resource's
/// content is the caller's concern; a failed read degrades to an empty
/// body rather than an error.
#[derive(Clone, Copy, Debug, PartialEq, Eq, Structural)]
pub enum Resource {
    IndexPage,
    NotFoundPage,
}

/// The resource registered for `route` among the table's pairs, scanning
/// from the most recent registration.
pub open spec fn route_lookup(table: Seq<(Seq<char>, Resource)>, route: Seq<char>) -> Option<
    Resource,
>
    decreases table.len(),
{
    if table.len() == 0 {
        None
    } else if table.last().0 == route {
        Some(table.last().1)
    } else {
        route_lookup(table.drop_last(), route)
    }
}

/// An exact-match routing table: route strings paired with the resource
/// their handler serves, looked up by string equality with no prefix or
/// wildcard matching and no trailing-slash normalization. The table is
/// built once at startup and read-only afterwards.
pub struct Router {
    routes: Vec<(String, Resource)>,
}

impl View for Router {
    type V = Seq<(Seq<char>, Resource)>;

    closed spec fn view(&self) -> Seq<(Seq<char>, Resource)> {
        Seq::new(self.routes@.len(), |i: int| (self.routes@[i].0@, self.routes@[i].1))
    }
}

impl Router {
    /// An empty table: every route is unregistered.
    pub fn new() -> (r: Router)
        ensures
            r@ == Seq::<(Seq<char>, Resource)>::empty(),
    {
        let r = Router { routes: Vec::new() };
        proof {
            assert(r@ =~= Seq::<(Seq<char>, Resource)>::empty());
        }
        r
    }

    /// Register `route` to serve `resource`. A later registration of the
    /// same route wins every lookup.
    pub fn register(&mut self, route: String, resource: Resource)
        ensures
            final(self)@ == old(self)@.push((route@, resource)),
    {
        let ghost before = self@;
        let ghost rv = route@;
        self.routes.push((route, resource));
        proof {
            assert(final(self)@ =~= before.push((rv, resource)));
        }
    }

    /// The resource registered for `route`, if any.
    pub fn lookup(&self, route: &str) -> (r: Option<Resource>)
        ensures
            r == route_lookup(self@, route@),
    {
        let mut i = self.routes.len();
        proof {
            assert(self@.subrange(0, i as int) =~= self@);
        }
        while i > 0
            invariant
                0 <= i <= self.routes.len(),
                route_lookup(self@, route@) == route_lookup(
                    self@.subrange(0, i as int),
                    route@,
                ),
            decreases i,
        {
            i = i - 1;
            proof {
                assert(self@.subrange(0, i + 1).last() == self@[i as int]);
                assert(self@.subrange(0, i + 1).drop_last() =~= self@.subrange(0, i as int));
            }
            if str_eq(self.routes[i].0.as_str(), route) {
                return Some(self.routes[i].1);
            }
        }
        proof {
            assert(self@.subrange(0, 0) =~= Seq::<(Seq<char>, Resource)>::empty());
        }
        None
    }

    /// The stock table this server starts from: only `"/"` is registered,
    /// mapped to the index page.
    pub fn default_table() -> (r: Router)
        ensures
            r@ == seq![("/"@, Resource::IndexPage)],
    {
        let mut r = Router::new();
        r.register(String::from_str("/"), Resource::IndexPage);
        proof {
            assert(r@ =~= seq![("/"@, Resource::IndexPage)]);
        }
        r
    }
}

/// In a table holding only the root registration, `"/"` is the one route
/// that finds a handler: every other route falls through to the
/// not-found handler.
pub proof fn lemma_default_table_only_root(route: Seq<char>)
    ensures
        route_lookup(seq![("/"@, Resource::IndexPage)], route) == (if route == "/"@ {
            Some(Resource::IndexPage)
        } else {
            None::<Resource>
        }),
{
    let table = seq![("/"@, Resource::IndexPage)];
    assert(table.len() == 1);
    assert(table.last() == ("/"@, Resource::IndexPage));
    if route == "/"@ {
        assert(route_lookup(table, route) == Some(Resource::IndexPage));
    } else {
        assert(table.drop_last() =~= Seq::<(Seq<char>, Resource)>::empty());
        assert(route_lookup(table.drop_last(), route) == None::<Resource>);
    }
}

/// The degraded request parsed from empty input is routed to the
/// not-found handler: its empty route is not registered in the stock
/// table, so the connection is answered rather than dropped.
pub proof fn lemma_empty_input_routes_to_not_found()
    ensures
        route_lookup(
            seq![("/"@, Resource::IndexPage)],
            crate::request::degraded_model().route,
        ) == None::<Resource>,
{
    reveal_strlit("/");
    assert("/"@.len() == 1);
    lemma_default_table_only_root(crate::request::degraded_model().route);
}

/// What the dispatcher decided for one request: the literal status line
/// (trailing space included, no line ending) and the resource whose
/// content becomes the response body. A bad request carries no resource:
/// its body stays empty.
pub struct Dispatch {
    pub status: String,
    pub resource: Option<Resource>,
}

/// Map a parse outcome to a status line and a backing resource:
/// a registered route answers `200 OK` with its resource, an unregistered
/// route answers `404 Not Found` with the not-found page, and a malformed
/// request answers `400 Bad Request` with an empty body.
pub fn dispatch(router: &Router, parsed: &Result<ParsedRequest, ParseError>) -> (d: Dispatch)
    ensures
        match parsed {
            Ok(p) => match route_lookup(router@, p.route@) {
                Some(res) => d.status@ == "HTTP/1.1 200 OK "@ && d.resource == Some(res),
                None => d.status@ == "HTTP/1.1 404 Not Found "@ && d.resource == Some(
                    Resource::NotFoundPage,
                ),
            },
            Err(_) => d.status@ == "HTTP/1.1 400 Bad Request "@ && d.resource == None::<
                Resource,
            >,
        },
{
    match parsed {
        Ok(p) => match router.lookup(p.route.as_str()) {
            Some(res) => Dispatch {
                status: String::from_str("HTTP/1.1 200 OK "),
                resource: Some(res),
            },
            None => Dispatch {
                status: String::from_str("HTTP/1.1 404 Not Found "),
                resource: Some(Resource::NotFoundPage),
            },
        },
        Err(_) => Dispatch {
            status: String::from_str("HTTP/1.1 400 Bad Request "),
            resource: None,
        },
    }
}

/// The body a handler hands back given what its resource read produced:
/// the content when the read succeeded, the empty string when it failed.
/// A failed read is logged by the caller and never aborts the request.
pub fn body_from_read(content: Option<String>) -> (r: String)
    ensures
        match content {
            Some(c) => r@ == c@,
            None => r@ == Seq::<char>::empty(),
        },
{
    match content {
        Some(c) => c,
        None => String::new(),
    }
}

/// The byte length of a string slice, as `str::len` reports it.
pub open spec fn byte_len(s: &str) -> nat {
    (s.spec_bytes().len() as usize) as nat
}

/// The full response text for a status line and a body: the status line,
/// CRLF, a `Content-Length` header carrying `body_bytes` in decimal, a
/// blank line, then the body.
pub open spec fn spec_response(status: Seq<char>, body_bytes: nat, body: Seq<char>) -> Seq<
    char,
> {
    status + "\r\nContent-Length: "@ + dec_rep(body_bytes) + "\r\n\r\n"@ + body
}

/// Assemble the response bytes for `status` and `body`. `Content-Length`
/// is the byte length of `body` exactly as handed in (no re-encoding);
/// no other header is emitted.
pub fn build_response(status: &str, body: &str) -> (r: String)
    ensures
        r@ == spec_response(status@, byte_len(body), body@),
{
    let n = body.len();
    let n_str = usize_to_string(n);
    let mut r = status.to_owned();
    r.append("\r\nContent-Length: ");
    r.append(n_str.as_str());
    r.append("\r\n\r\n");
    r.append(body);
    proof {
        assert(r@ =~= spec_response(status@, byte_len(body), body@));
    }
    r
}

} // verus!

//! The table of routes of a server, kept with its longest prefixes first.

use vstd::prelude::*;
use vstd::utf8::*;
use vstd::string::StringSliceAdditionalSpecFns;
use crate::method::Method;
use crate::text::starts_with;

verus! {

/// A route as plain values: a method and a URI prefix, given by its bytes.
pub struct RouteView {
    pub method: Method,
    pub prefix: Seq<u8>,
}

/// Whether the route serves a request of this method for this URI: the
/// methods are equal and the prefix is a leading part of the URI.
pub open spec fn serves(route: RouteView, method: Method, uri: Seq<u8>) -> bool {
    route.method == method && route.prefix.is_prefix_of(uri)
}

/// The index of the first route that serves the request, or the number of
/// routes where none does.
pub open spec fn first_match(routes: Seq<RouteView>, method: Method, uri: Seq<u8>) -> int
    decreases routes.len(),
{
    if routes.len() == 0 || serves(routes[0], method, uri) {
        0
    } else {
        1 + first_match(routes.drop_first(), method, uri)
    }
}

/// Whether no route stands before one with a longer prefix.
pub open spec fn longest_first(routes: Seq<RouteView>) -> bool {
    forall|i: int, j: int|
        0 <= i < j < routes.len() ==> (#[trigger] routes[i]).prefix.len() >= (
        #[trigger] routes[j]).prefix.len()
}

/// Where a route with a prefix of `len` bytes is put: behind every route
/// whose prefix is at least as long, before every shorter one.
pub open spec fn slot(routes: Seq<RouteView>, len: nat) -> int
    decreases routes.len(),
{
    if routes.len() == 0 || routes[0].prefix.len() < len {
        0
    } else {
        1 + slot(routes.drop_first(), len)
    }
}

/// The table after `route` has been added to it, in its slot.
pub open spec fn with_route(routes: Seq<RouteView>, route: RouteView) -> Seq<RouteView> {
    routes.insert(slot(routes, route.prefix.len()), route)
}

/// What [`first_match`] returns: the place of the first route that serves
/// the request.
pub proof fn lemma_first_match(routes: Seq<RouteView>, method: Method, uri: Seq<u8>)
    ensures
        0 <= first_match(routes, method, uri) <= routes.len(),
        first_match(routes, method, uri) < routes.len() ==> serves(
            routes[first_match(routes, method, uri)],
            method,
            uri,
        ),
        forall|j: int|
            0 <= j < first_match(routes, method, uri) ==> !serves(
                #[trigger] routes[j],
                method,
                uri,
            ),
    decreases routes.len(),
{
    if routes.len() == 0 || serves(routes[0], method, uri) {
    } else {
        lemma_first_match(routes.drop_first(), method, uri);
        let r = first_match(routes.drop_first(), method, uri);
        assert forall|j: int| 0 <= j < 1 + r implies !serves(#[trigger] routes[j], method, uri) by {
            if j > 0 {
                assert(routes.drop_first()[j - 1] == routes[j]);
            }
        }
    }
}

/// The first match is where a route serves the request and none before
/// it does.
pub proof fn lemma_first_match_is(routes: Seq<RouteView>, method: Method, uri: Seq<u8>, n: int)
    requires
        0 <= n <= routes.len(),
        n < routes.len() ==> serves(routes[n], method, uri),
        forall|j: int| 0 <= j < n ==> !serves(#[trigger] routes[j], method, uri),
    ensures
        first_match(routes, method, uri) == n,
{
    lemma_first_match(routes, method, uri);
    let r = first_match(routes, method, uri);
    if r < n {
        assert(!serves(routes[r], method, uri));
    } else if r > n {
        assert(!serves(routes[n], method, uri));
    }
}

/// What [`slot`] returns: every route before the slot has a prefix of at
/// least `len` bytes, and the route at the slot a shorter one.
pub proof fn lemma_slot(routes: Seq<RouteView>, len: nat)
    ensures
        0 <= slot(routes, len) <= routes.len(),
        slot(routes, len) < routes.len() ==> routes[slot(routes, len)].prefix.len() < len,
        forall|j: int| 0 <= j < slot(routes, len) ==> (#[trigger] routes[j]).prefix.len() >= len,
    decreases routes.len(),
{
    if routes.len() == 0 || routes[0].prefix.len() < len {
    } else {
        lemma_slot(routes.drop_first(), len);
        let r = slot(routes.drop_first(), len);
        assert forall|j: int| 0 <= j < 1 + r implies (#[trigger] routes[j]).prefix.len() >= len by {
            if j > 0 {
                assert(routes.drop_first()[j - 1] == routes[j]);
            }
        }
    }
}

/// The slot is where a shorter prefix stands with none before it.
pub proof fn lemma_slot_is(routes: Seq<RouteView>, len: nat, n: int)
    requires
        0 <= n <= routes.len(),
        n < routes.len() ==> routes[n].prefix.len() < len,
        forall|j: int| 0 <= j < n ==> (#[trigger] routes[j]).prefix.len() >= len,
    ensures
        slot(routes, len) == n,
{
    lemma_slot(routes, len);
    let r = slot(routes, len);
    if r < n {
        assert(routes[r].prefix.len() >= len);
    } else if r > n {
        assert(routes[n].prefix.len() >= len);
    }
}

/// A table with its longest prefixes first stays so when a route is put
/// into its slot.
pub proof fn lemma_slot_keeps_order(routes: Seq<RouteView>, route: RouteView)
    requires
        longest_first(routes),
    ensures
        longest_first(with_route(routes, route)),
{
    let p = slot(routes, route.prefix.len());
    lemma_slot(routes, route.prefix.len());
    let after = routes.insert(p, route);
    assert forall|i: int, j: int| 0 <= i < j < after.len() implies (
    #[trigger] after[i]).prefix.len() >= (#[trigger] after[j]).prefix.len() by {
        if i < p && j > p {
            assert(after[i] == routes[i] && after[j] == routes[j - 1]);
        } else if i == p {
            assert(after[j] == routes[j - 1]);
            assert(routes[p].prefix.len() >= routes[j - 1].prefix.len() || p == j - 1);
        } else if j == p {
            assert(after[i] == routes[i]);
        } else if j < p {
            assert(after[i] == routes[i] && after[j] == routes[j]);
        } else {
            assert(after[i] == routes[i - 1] && after[j] == routes[j - 1]);
        }
    }
}

/// Two routes with prefixes of different lengths give the same table in
/// whichever order they are added.
pub proof fn law_order_of_adding(routes: Seq<RouteView>, a: RouteView, b: RouteView)
    requires
        longest_first(routes),
        a.prefix.len() != b.prefix.len(),
    ensures
        with_route(with_route(routes, a), b) == with_route(with_route(routes, b), a),
{
    if a.prefix.len() > b.prefix.len() {
        lemma_added_both(routes, a, b);
    } else {
        lemma_added_both(routes, b, a);
    }
}

/// Where the longer of two routes and then the shorter are added, and
/// where the shorter and then the longer are added, the longer stands in
/// its slot and the shorter one place behind its own.
proof fn lemma_added_both(routes: Seq<RouteView>, long: RouteView, short: RouteView)
    requires
        longest_first(routes),
        long.prefix.len() > short.prefix.len(),
    ensures
        with_route(with_route(routes, long), short) == with_route(with_route(routes, short), long),
{
    let pl = slot(routes, long.prefix.len());
    let ps = slot(routes, short.prefix.len());
    lemma_slot(routes, long.prefix.len());
    lemma_slot(routes, short.prefix.len());
    if ps < pl {
        assert(routes[ps].prefix.len() >= long.prefix.len());
    }
    let first_long = routes.insert(pl, long);
    let first_short = routes.insert(ps, short);
    assert forall|j: int| 0 <= j < ps + 1 implies (#[trigger] first_long[j]).prefix.len()
        >= short.prefix.len() by {
        if j < pl {
            assert(first_long[j] == routes[j]);
        } else if j > pl {
            assert(first_long[j] == routes[j - 1]);
        }
    }
    if ps + 1 < first_long.len() {
        assert(first_long[ps + 1] == routes[ps]);
    }
    lemma_slot_is(first_long, short.prefix.len(), ps + 1);
    assert forall|j: int| 0 <= j < pl implies (#[trigger] first_short[j]).prefix.len()
        >= long.prefix.len() by {
        assert(first_short[j] == routes[j]);
    }
    if pl < ps {
        assert(first_short[pl] == routes[pl]);
    } else {
        assert(first_short[pl] == short);
    }
    lemma_slot_is(first_short, long.prefix.len(), pl);
    assert(first_long.insert(ps + 1, short) =~= first_short.insert(pl, long));
}

/// In a table with its longest prefixes first, no route that serves a
/// request has a longer prefix than the first that does.
pub proof fn lemma_longest_prefix_wins(
    routes: Seq<RouteView>,
    method: Method,
    uri: Seq<u8>,
    other: int,
)
    requires
        longest_first(routes),
        0 <= other < routes.len(),
        serves(routes[other], method, uri),
    ensures
        first_match(routes, method, uri) <= other,
        routes[first_match(routes, method, uri)].prefix.len() >= routes[other].prefix.len(),
{
    lemma_first_match(routes, method, uri);
    let m = first_match(routes, method, uri);
    if m > other {
        assert(!serves(routes[other], method, uri));
    }
}

/// A method, a URI prefix and the handler for the requests that they
/// select.
pub struct Route<H> {
    method: Method,
    uri: String,
    handler: H,
}

impl<H> Route<H> {
    /// The route as plain values.
    pub closed spec fn model(self) -> RouteView {
        RouteView { method: self.method, prefix: encode_utf8(self.uri@) }
    }

    /// The handler of the route.
    pub closed spec fn handler_of(self) -> H {
        self.handler
    }
}

/// The address and port that a server listens on.
pub struct ServerConfig {
    listen_address: String,
    listen_port: i32,
}

/// A table of routes with the address to serve them on. The routes with
/// the longest prefixes stand first; among prefixes of one length, the
/// route added first.
pub struct HttpServer<H> {
    config: ServerConfig,
    routes: Vec<Route<H>>,
}

impl<H> HttpServer<H> {
    #[verifier::type_invariant]
    spec fn inv(self) -> bool {
        longest_first(self.routes())
    }

    /// The routes, in the order in which they are tried.
    pub closed spec fn routes(self) -> Seq<RouteView> {
        Seq::new(self.routes@.len(), |i: int| self.routes@[i].model())
    }

    /// The handlers, each at the index of its route.
    pub closed spec fn handlers(self) -> Seq<H> {
        Seq::new(self.routes@.len(), |i: int| self.routes@[i].handler_of())
    }

    /// The address that the server listens on.
    pub closed spec fn address_text(self) -> Seq<char> {
        self.config.listen_address@
    }

    /// The port that the server listens on.
    pub closed spec fn port_number(self) -> i32 {
        self.config.listen_port
    }

    /// A server for the given address and port, without routes.
    pub fn new(listen_address: &str, listen_port: i32) -> (server: HttpServer<H>)
        ensures
            server.routes() == Seq::<RouteView>::empty(),
            server.handlers() == Seq::<H>::empty(),
            server.address_text() == listen_address@,
            server.port_number() == listen_port,
    {
        let server = HttpServer {
            config: ServerConfig { listen_address: listen_address.to_owned(), listen_port },
            routes: Vec::new(),
        };
        assert(server.routes() =~= Seq::<RouteView>::empty());
        assert(server.handlers() =~= Seq::<H>::empty());
        server
    }

    /// The address that the server listens on.
    pub fn address(&self) -> (a: &str)
        ensures
            a@ == self.address_text(),
    {
        self.config.listen_address.as_str()
    }

    /// The port that the server listens on.
    pub fn port(&self) -> (p: i32)
        ensures
            p == self.port_number(),
    {
        self.config.listen_port
    }

    /// The number of routes.
    pub fn route_count(&self) -> (n: usize)
        ensures
            n == self.routes().len(),
            n == self.handlers().len(),
            longest_first(self.routes()),
    {
        proof {
            use_type_invariant(self);
        }
        self.routes.len()
    }

    /// Adds a route. It is put behind every route whose prefix is at
    /// least as long and before every route with a shorter prefix, so
    /// that longer prefixes are tried first whatever the order in which
    /// the routes were added.
    pub fn add_route(&mut self, method: Method, uri: String, handler: H)
        ensures
            final(self).routes() == with_route(
                old(self).routes(),
                RouteView { method, prefix: encode_utf8(uri@) },
            ),
            final(self).handlers() == old(self).handlers().insert(
                slot(old(self).routes(), encode_utf8(uri@).len()),
                handler,
            ),
            final(self).address_text() == old(self).address_text(),
            final(self).port_number() == old(self).port_number(),
            longest_first(final(self).routes()),
    {
        proof {
            use_type_invariant(&*self);
        }
        let ghost before = self.routes();
        let ghost handlers = self.handlers();
        let ghost added = RouteView { method, prefix: encode_utf8(uri@) };
        let len = uri.as_str().as_bytes().len();
        let mut p: usize = 0;
        while p < self.routes.len()
            invariant_except_break
                p <= self.routes@.len(),
                forall|j: int| 0 <= j < p ==> (#[trigger] before[j]).prefix.len() >= len,
            invariant
                before == self.routes(),
                len == encode_utf8(uri@).len(),
            ensures
                p <= self.routes@.len(),
                forall|j: int| 0 <= j < p ==> (#[trigger] before[j]).prefix.len() >= len,
                p < self.routes@.len() ==> before[p as int].prefix.len() < len,
            decreases self.routes@.len() - p,
        {
            assert(before[p as int] == self.routes@[p as int].model());
            if self.routes[p].uri.as_str().as_bytes().len() < len {
                break ;
            }
            p += 1;
        }
        proof {
            lemma_slot_is(before, len as nat, p as int);
            lemma_slot_keeps_order(before, added);
        }
        let mut routes: Vec<Route<H>> = Vec::new();
        assert(Seq::new(0, |i: int| routes@[i].model()) =~= Seq::<RouteView>::empty());
        core::mem::swap(&mut self.routes, &mut routes);
        routes.insert(p, Route { method, uri, handler });
        assert(Seq::new(routes@.len(), |i: int| routes@[i].model()) =~= before.insert(
            p as int,
            added,
        ));
        assert(Seq::new(routes@.len(), |i: int| routes@[i].handler_of()) =~= handlers.insert(
            p as int,
            handler,
        ));
        core::mem::swap(&mut self.routes, &mut routes);
    }

    /// The index of the route that serves a request of this method for
    /// this URI: the first that does, in the order of the table. No other
    /// route that serves the request has a longer prefix.
    pub fn find_route(&self, method: Method, uri: &str) -> (r: Option<usize>)
        ensures
            self.handlers().len() == self.routes().len(),
            match r {
                Some(i) => i < self.routes().len() && i == first_match(
                    self.routes(),
                    method,
                    uri.spec_bytes(),
                ),
                None => first_match(self.routes(), method, uri.spec_bytes()) == self.routes().len(),
            },
            forall|j: int|
                0 <= j < self.routes().len() && serves(
                    #[trigger] self.routes()[j],
                    method,
                    uri.spec_bytes(),
                ) ==> r is Some && self.routes()[r->0 as int].prefix.len()
                    >= self.routes()[j].prefix.len(),
    {
        proof {
            use_type_invariant(self);
        }
        let wanted = uri.as_bytes();
        let mut i: usize = 0;
        while i < self.routes.len()
            invariant
                i <= self.routes@.len(),
                wanted@ == uri.spec_bytes(),
                longest_first(self.routes()),
                forall|j: int| 0 <= j < i ==> !serves(#[trigger] self.routes()[j], method, wanted@),
            decreases self.routes@.len() - i,
        {
            let route = &self.routes[i];
            if route.method == method && starts_with(wanted, route.uri.as_str().as_bytes()) {
                proof {
                    lemma_first_match_is(self.routes(), method, wanted@, i as int);
                    assert forall|j: int|
                        0 <= j < self.routes().len() && serves(
                            #[trigger] self.routes()[j],
                            method,
                            wanted@,
                        ) implies self.routes()[i as int].prefix.len()
                        >= self.routes()[j].prefix.len() by {
                        lemma_longest_prefix_wins(self.routes(), method, wanted@, j);
                    }
                }
                return Some(i);
            }
            i += 1;
        }
        proof {
            lemma_first_match_is(self.routes(), method, wanted@, i as int);
        }
        None
    }

    /// The handler of the route at index `i`.
    pub fn handler(&self, i: usize) -> (h: &H)
        requires
            i < self.handlers().len(),
        ensures
            *h == self.handlers()[i as int],
    {
        &self.routes[i].handler
    }
}

} // verus!

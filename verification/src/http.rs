//! Request methods, routes and the router that picks the route of a request.
use vstd::prelude::*;

use crate::request::Request;

verus! {

broadcast use vstd::string::group_string_axioms;

/// The method of an HTTP request.
#[derive(Debug, Clone, PartialEq, Eq, Structural)]
pub enum Methods {
    Get,
    Post,
    Option,
    Put,
    Delete,
    Other,
}

/// A route: a method and a path, the handler that answers it, and the
/// middleware that runs before the handler, in order.
#[derive(Clone)]
pub struct Route<H, M> {
    method: Methods,
    path: String,
    handler: H,
    middleware: Vec<M>,
}

impl<H, M> Route<H, M> {
    /// The method the route answers.
    pub closed spec fn route_method(&self) -> Methods {
        self.method
    }

    /// The path the route answers.
    pub closed spec fn route_path(&self) -> Seq<char> {
        self.path@
    }

    /// The handler of the route.
    pub closed spec fn route_handler(&self) -> H {
        self.handler
    }

    /// The middleware of the route, in the order in which it runs.
    pub closed spec fn route_middleware(&self) -> Seq<M> {
        self.middleware@
    }

    /// A route for `GET` requests to `path`, without middleware.
    pub fn get(path: &str, handler: H) -> (r: Self)
        ensures
            r.route_method() == Methods::Get,
            r.route_path() == path@,
            r.route_handler() == handler,
            r.route_middleware() == Seq::<M>::empty(),
    {
        Route { method: Methods::Get, path: path.to_owned(), handler, middleware: Vec::new() }
    }

    /// A route for `POST` requests to `path`, without middleware.
    pub fn post(path: &str, handler: H) -> (r: Self)
        ensures
            r.route_method() == Methods::Post,
            r.route_path() == path@,
            r.route_handler() == handler,
            r.route_middleware() == Seq::<M>::empty(),
    {
        Route { method: Methods::Post, path: path.to_owned(), handler, middleware: Vec::new() }
    }

    /// The route with `handler` added at the end of its middleware.
    pub fn set_middleware(self, handler: M) -> (r: Self)
        ensures
            r.route_method() == self.route_method(),
            r.route_path() == self.route_path(),
            r.route_handler() == self.route_handler(),
            r.route_middleware() == self.route_middleware().push(handler),
    {
        let mut s = self;
        s.middleware.push(handler);
        s
    }

    /// The method the route answers.
    pub fn method(&self) -> (m: &Methods)
        ensures
            *m == self.route_method(),
    {
        &self.method
    }

    /// The path the route answers.
    pub fn path(&self) -> (p: &String)
        ensures
            p@ == self.route_path(),
    {
        &self.path
    }

    /// The handler of the route.
    pub fn handler(&self) -> (h: &H)
        ensures
            *h == self.route_handler(),
    {
        &self.handler
    }

    /// The middleware of the route, in the order in which it runs.
    pub fn middleware(&self) -> (m: &Vec<M>)
        ensures
            m@ == self.route_middleware(),
    {
        &self.middleware
    }
}

/// `route` answers requests with `method` to `path`.
pub open spec fn route_matches<H, M>(route: Route<H, M>, method: Methods, path: Seq<char>) -> bool {
    route.route_method() == method && route.route_path() == path
}

/// `i` is the first of `routes` that answers `method` and `path`.
pub open spec fn first_match<H, M>(
    routes: Seq<Route<H, M>>,
    method: Methods,
    path: Seq<char>,
    i: int,
) -> bool {
    &&& 0 <= i < routes.len()
    &&& route_matches(routes[i], method, path)
    &&& forall|j: int| 0 <= j < i ==> !route_matches(#[trigger] routes[j], method, path)
}

/// The routes of a server, in the order in which they were added, and its
/// middleware.
pub struct Router<H, M> {
    routes: Vec<Route<H, M>>,
    middleware: Vec<M>,
}

impl<H, M> Router<H, M> {
    /// The routes, in the order in which they were added.
    pub closed spec fn routes(&self) -> Seq<Route<H, M>> {
        self.routes@
    }

    /// The router's own middleware, in the order in which it was added.
    pub closed spec fn router_middleware(&self) -> Seq<M> {
        self.middleware@
    }

    /// A router without routes or middleware.
    pub fn new() -> (r: Self)
        ensures
            r.routes() == Seq::<Route<H, M>>::empty(),
            r.router_middleware() == Seq::<M>::empty(),
    {
        Router { routes: Vec::new(), middleware: Vec::new() }
    }

    /// Adds `handler` as the last route.
    pub fn route(&mut self, handler: Route<H, M>)
        ensures
            final(self).routes() == old(self).routes().push(handler),
            final(self).router_middleware() == old(self).router_middleware(),
    {
        self.routes.push(handler);
    }

    /// Adds `routes` after the present routes, in their order.
    pub fn set_routes(&mut self, routes: Vec<Route<H, M>>)
        ensures
            final(self).routes() == old(self).routes() + routes@,
            final(self).router_middleware() == old(self).router_middleware(),
    {
        let mut rest = routes;
        self.routes.append(&mut rest);
    }

    /// The router with `handler` added at the end of its middleware.
    pub fn set_middleware(self, handler: M) -> (r: Self)
        ensures
            r.routes() == self.routes(),
            r.router_middleware() == self.router_middleware().push(handler),
    {
        let mut s = self;
        s.middleware.push(handler);
        s
    }

    /// Adds, as the last route, one for `GET` requests to `path`.
    pub fn get(&mut self, path: &str, handler: H)
        ensures
            final(self).routes().len() == old(self).routes().len() + 1,
            final(self).routes().drop_last() == old(self).routes(),
            final(self).routes().last().route_method() == Methods::Get,
            final(self).routes().last().route_path() == path@,
            final(self).routes().last().route_handler() == handler,
            final(self).routes().last().route_middleware() == Seq::<M>::empty(),
            final(self).router_middleware() == old(self).router_middleware(),
    {
        let r = Route::get(path, handler);
        self.routes.push(r);
        assert(self.routes@.drop_last() =~= old(self).routes@);
    }

    /// Adds, as the last route, one for `POST` requests to `path`.
    pub fn post(&mut self, path: &str, handler: H)
        ensures
            final(self).routes().len() == old(self).routes().len() + 1,
            final(self).routes().drop_last() == old(self).routes(),
            final(self).routes().last().route_method() == Methods::Post,
            final(self).routes().last().route_path() == path@,
            final(self).routes().last().route_handler() == handler,
            final(self).routes().last().route_middleware() == Seq::<M>::empty(),
            final(self).router_middleware() == old(self).router_middleware(),
    {
        let r = Route::post(path, handler);
        self.routes.push(r);
        assert(self.routes@.drop_last() =~= old(self).routes@);
    }

    /// The number of routes.
    pub fn len(&self) -> (n: usize)
        ensures
            n == self.routes().len(),
    {
        self.routes.len()
    }

    /// The route at position `i`.
    pub fn route_at(&self, i: usize) -> (r: &Route<H, M>)
        requires
            i < self.routes().len(),
        ensures
            *r == self.routes()[i as int],
    {
        &self.routes[i]
    }

    /// The position of the first route that answers `method` and `path`.
    pub fn find_route(&self, method: &Methods, path: &String) -> (r: Option<usize>)
        ensures
            match r {
                Some(i) => first_match(self.routes(), *method, path@, i as int),
                None => forall|j: int|
                    0 <= j < self.routes().len() ==> !route_matches(
                        #[trigger] self.routes()[j],
                        *method,
                        path@,
                    ),
            },
    {
        let n = self.routes.len();
        let mut i: usize = 0;
        while i < n
            invariant
                n == self.routes@.len(),
                i <= n,
                forall|j: int|
                    0 <= j < i ==> !route_matches(#[trigger] self.routes@[j], *method, path@),
            decreases n - i,
        {
            let route = &self.routes[i];
            if route.method == *method && route.path == *path {
                return Some(i);
            }
            i = i + 1;
        }
        None
    }

    /// The position of the route that answers `request`: the first whose
    /// method and path are those of the request.
    pub fn route_for(&self, request: &Request) -> (r: Option<usize>)
        ensures
            match r {
                Some(i) => first_match(self.routes(), request.method, request.path@, i as int),
                None => forall|j: int|
                    0 <= j < self.routes().len() ==> !route_matches(
                        #[trigger] self.routes()[j],
                        request.method,
                        request.path@,
                    ),
            },
    {
        self.find_route(request.get_method(), request.get_path())
    }

    /// The routes, in order, and the router's middleware.
    pub fn into_parts(self) -> (r: (Vec<Route<H, M>>, Vec<M>))
        ensures
            r.0@ == self.routes(),
            r.1@ == self.router_middleware(),
    {
        (self.routes, self.middleware)
    }
}

/// The route that answers a request has exactly the request's method and
/// the request's whole path, and no earlier route has both; conversely, the
/// first route with that method and path is the one that answers.
pub proof fn law_route_answers_exactly<H, M>(
    routes: Seq<Route<H, M>>,
    method: Methods,
    path: Seq<char>,
    i: int,
)
    ensures
        first_match(routes, method, path, i) ==> {
            &&& routes[i].route_method() == method
            &&& routes[i].route_path() == path
            &&& forall|j: int|
                0 <= j < i ==> #[trigger] routes[j].route_method() != method
                    || routes[j].route_path() != path
        },
        ({
            &&& 0 <= i < routes.len()
            &&& routes[i].route_method() == method
            &&& routes[i].route_path() == path
            &&& forall|j: int|
                0 <= j < i ==> #[trigger] routes[j].route_method() != method
                    || routes[j].route_path() != path
        }) ==> first_match(routes, method, path, i),
{
    if first_match(routes, method, path, i) {
        assert forall|j: int| 0 <= j < i implies #[trigger] routes[j].route_method() != method
            || routes[j].route_path() != path by {
            assert(!route_matches(routes[j], method, path));
        }
    }
}

/// Adding a route keeps the answer to every request that an earlier route
/// answers, and the added route answers the requests it matches that no
/// earlier route answers.
pub proof fn law_added_route_keeps_answers<H, M>(
    routes: Seq<Route<H, M>>,
    added: Route<H, M>,
    method: Methods,
    path: Seq<char>,
)
    ensures
        forall|i: int|
            first_match(routes, method, path, i) ==> first_match(
                routes.push(added),
                method,
                path,
                i,
            ),
        (forall|j: int| 0 <= j < routes.len() ==> !route_matches(#[trigger] routes[j], method, path))
            && route_matches(added, method, path) ==> first_match(
            routes.push(added),
            method,
            path,
            routes.len() as int,
        ),
{
    let grown = routes.push(added);
    assert forall|i: int| first_match(routes, method, path, i) implies first_match(
        grown,
        method,
        path,
        i,
    ) by {
        assert forall|j: int| 0 <= j < i implies !route_matches(#[trigger] grown[j], method, path) by {
            assert(grown[j] == routes[j]);
        }
        assert(grown[i] == routes[i]);
    }
    if (forall|j: int| 0 <= j < routes.len() ==> !route_matches(#[trigger] routes[j], method, path))
        && route_matches(added, method, path) {
        assert forall|j: int| 0 <= j < routes.len() implies !route_matches(
            #[trigger] grown[j],
            method,
            path,
        ) by {
            assert(grown[j] == routes[j]);
        }
        assert(grown[routes.len() as int] == added);
    }
}

/// The reply to a request that no route answers.
pub open spec fn not_found_reply() -> Seq<u8> {
    vstd::utf8::encode_utf8("HTTP/1.1 404 NOTFOUND \r\n\r\n"@)
}

/// The reply to a request that no route answers.
pub fn not_found() -> (r: Vec<u8>)
    ensures
        r@ == not_found_reply(),
{
    "HTTP/1.1 404 NOTFOUND \r\n\r\n".as_bytes_vec()
}

/// The operating-system error code of an address that is already in use.
pub const ADDRESS_IN_USE: i32 = 10048;

/// The port to try after binding to `port` failed with `os_error`: the next
/// port when the address was in use, none otherwise.
pub fn retry_port(os_error: Option<i32>, port: u16) -> (r: Option<u16>)
    requires
        os_error == Some(ADDRESS_IN_USE) ==> port < u16::MAX,
    ensures
        r == if os_error == Some(ADDRESS_IN_USE) {
            Some((port + 1) as u16)
        } else {
            None::<u16>
        },
{
    match os_error {
        Some(code) => {
            if code == ADDRESS_IN_USE {
                Some(port + 1)
            } else {
                None
            }
        },
        None => None,
    }
}

} // verus!

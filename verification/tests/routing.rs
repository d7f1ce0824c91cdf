use neon::http::{not_found, retry_port, Methods, Route, Router};

type H = fn(u32) -> u32;
type M = fn(&mut u32);

fn one(_: u32) -> u32 {
    1
}
fn two(_: u32) -> u32 {
    2
}
fn three(_: u32) -> u32 {
    3
}
fn bump(x: &mut u32) {
    *x += 1;
}

#[test]
fn route_get_and_post_set_method_and_path() {
    let g: Route<H, M> = Route::get("/", one as H);
    assert_eq!(*g.method(), Methods::Get);
    assert_eq!(g.path(), "/");
    assert_eq!((g.handler())(0), 1);
    assert!(g.middleware().is_empty());
    let p: Route<H, M> = Route::post("/form", two as H);
    assert_eq!(*p.method(), Methods::Post);
    assert_eq!(p.path(), "/form");
}

#[test]
fn route_middleware_keeps_order() {
    let r: Route<H, M> = Route::get("/", one as H).set_middleware(bump as M).set_middleware(bump as M);
    assert_eq!(r.middleware().len(), 2);
    let mut x = 0;
    for m in r.middleware() {
        m(&mut x);
    }
    assert_eq!(x, 2);
}

#[test]
fn find_route_takes_the_first_match() {
    let mut router: Router<H, M> = Router::new();
    router.route(Route::get("/", one as H));
    router.route(Route::post("/", two as H));
    router.route(Route::get("/", three as H));
    assert_eq!(router.find_route(&Methods::Get, &"/".to_string()), Some(0));
    assert_eq!(router.find_route(&Methods::Post, &"/".to_string()), Some(1));
    assert_eq!(router.find_route(&Methods::Put, &"/".to_string()), None);
    assert_eq!(router.find_route(&Methods::Get, &"/he".to_string()), None);
}

#[test]
fn added_route_keeps_earlier_answers() {
    let mut router: Router<H, M> = Router::new();
    router.get("/a", one as H);
    assert_eq!(router.find_route(&Methods::Get, &"/a".to_string()), Some(0));
    router.get("/a", two as H);
    router.post("/b", three as H);
    assert_eq!(router.find_route(&Methods::Get, &"/a".to_string()), Some(0));
    assert_eq!(router.find_route(&Methods::Post, &"/b".to_string()), Some(2));
    assert_eq!(router.len(), 3);
}

#[test]
fn set_routes_appends_in_order() {
    let mut router: Router<H, M> = Router::new();
    router.route(Route::get("/x", one as H));
    router.set_routes(vec![Route::get("/y", two as H), Route::post("/z", three as H)]);
    assert_eq!(router.len(), 3);
    assert_eq!(router.route_at(1).path(), "/y");
    assert_eq!(router.route_at(2).path(), "/z");
    let router = router.set_middleware(bump as M);
    let (routes, mw) = router.into_parts();
    assert_eq!(routes.len(), 3);
    assert_eq!(mw.len(), 1);
}

#[test]
fn not_found_reply_bytes() {
    assert_eq!(not_found(), b"HTTP/1.1 404 NOTFOUND \r\n\r\n".to_vec());
}

#[test]
fn retry_port_only_when_address_in_use() {
    assert_eq!(retry_port(Some(10048), 2000), Some(2001));
    assert_eq!(retry_port(Some(13), 2000), None);
    assert_eq!(retry_port(None, 2000), None);
}

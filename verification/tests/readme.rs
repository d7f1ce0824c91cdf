use neon::http::{not_found, Route, Router};
use neon::request::Request;
use neon::response::Response;

type Handler = fn(Request, &mut Response);
type Middleware = fn(&mut Request, &mut Response);

fn hello(_req: Request, res: &mut Response) {
    res.body("hello world".as_bytes().to_vec())
}

fn json(_req: Request, res: &mut Response) {
    res.insert("Content-type", " text/json");
    res.body(r#"{"name":"john"}"#.as_bytes().to_vec());
}

fn tag(_req: &mut Request, res: &mut Response) {
    res.insert("X-Seen", "yes");
}

fn answer(router: &Router<Handler, Middleware>, head: &str) -> Vec<u8> {
    let mut req = Request::from_head_text(head);
    match router.route_for(&req) {
        Some(i) => {
            let route = router.route_at(i);
            let mut res = Response::build();
            for m in route.middleware().iter() {
                m(&mut req, &mut res);
            }
            (route.handler())(req, &mut res);
            res.raw()
        }
        None => not_found(),
    }
}

fn example_router() -> Router<Handler, Middleware> {
    let mut route: Router<Handler, Middleware> = Router::new();
    route.get("/", hello as Handler);
    route.get("/he", json as Handler);
    route.route(Route::post("/tagged", hello as Handler).set_middleware(tag as Middleware));
    route
}

#[test]
fn readme_root_says_hello_world() {
    let router = example_router();
    assert_eq!(
        answer(&router, "GET / HTTP/1.1\r\nHost: 0.0.0.0:2000\r\n\r\n"),
        b"HTTP/1.1 200 OK\r\n\r\n\r\nhello world".to_vec()
    );
}

#[test]
fn readme_he_answers_json_with_its_header() {
    let router = example_router();
    assert_eq!(
        answer(&router, "GET /he HTTP/1.1\r\n\r\n"),
        b"HTTP/1.1 200 OK\r\nContent-type:  text/json\r\n\r\n{\"name\":\"john\"}".to_vec()
    );
}

#[test]
fn unknown_path_or_method_is_not_found() {
    let router = example_router();
    assert_eq!(answer(&router, "GET /nope HTTP/1.1\r\n\r\n"), not_found());
    assert_eq!(answer(&router, "POST / HTTP/1.1\r\n\r\n"), not_found());
}

#[test]
fn route_middleware_runs_before_the_handler() {
    let router = example_router();
    assert_eq!(
        answer(&router, "POST /tagged HTTP/1.1\r\n\r\n"),
        b"HTTP/1.1 200 OK\r\nX-Seen: yes\r\n\r\nhello world".to_vec()
    );
}

use webserver_from_scratch::http_request::{Method, Request};
use webserver_from_scratch::pipeline::{process_request, Action, Event, HandlerChain};
use webserver_from_scratch::router::{MiddlewareContext, Route};

type Ctx = MiddlewareContext<()>;
type Handler = fn(&mut Ctx, &mut Vec<&'static str>) -> Result<(), String>;

fn request_for(method: Method, path: &str) -> Request {
    let mut request = Request::new();
    request.method = Some(method);
    request.path = Some(path.to_string());
    request.version = Some(1);
    request
}

fn route(method: Option<Method>, pattern: &str, handler: Handler) -> Route<Handler> {
    Route { path: pattern.to_string(), method, handler }
}

/// Drives a chain the way a server does, with handlers that do not suspend.
fn run(routes: &Vec<Route<Handler>>, request: Request) -> (Ctx, Vec<&'static str>, Action) {
    let (mut ctx, mut chain) = process_request(routes, request, ());
    let mut log = Vec::new();
    let mut action = chain.step(&mut ctx, Event::Started);
    loop {
        let index = match action {
            Action::Invoke(index) => index,
            last => {
                assert!(chain.is_finished());
                assert_eq!(chain.step(&mut ctx, Event::HandlerSucceeded), Action::Done);
                assert_eq!(chain.step(&mut ctx, Event::Started), Action::Done);
                return (ctx, log, last);
            }
        };
        let event = match (routes[index].handler)(&mut ctx, &mut log) {
            Ok(()) => Event::HandlerSucceeded,
            Err(_) => Event::HandlerFailed,
        };
        action = chain.step(&mut ctx, event);
    }
}

fn first(ctx: &mut Ctx, log: &mut Vec<&'static str>) -> Result<(), String> {
    log.push("first");
    ctx.response.write(b"1");
    Ok(())
}

fn second(ctx: &mut Ctx, log: &mut Vec<&'static str>) -> Result<(), String> {
    log.push("second");
    ctx.response.write(b"2");
    Ok(())
}

fn ender(ctx: &mut Ctx, log: &mut Vec<&'static str>) -> Result<(), String> {
    log.push("ender");
    ctx.response.write(b"e");
    ctx.end();
    Ok(())
}

fn failing(ctx: &mut Ctx, log: &mut Vec<&'static str>) -> Result<(), String> {
    log.push("failing");
    ctx.response.status_code(201);
    ctx.response.content_type(String::from("text/html"));
    ctx.response.set_header("x-partial", "yes");
    ctx.response.write(b"partial output");
    Err(String::from("handler broke"))
}

fn failing_after_end(ctx: &mut Ctx, log: &mut Vec<&'static str>) -> Result<(), String> {
    log.push("failing_after_end");
    ctx.end();
    Err(String::from("handler broke"))
}

fn upgrader(ctx: &mut Ctx, log: &mut Vec<&'static str>) -> Result<(), String> {
    log.push("upgrader");
    ctx.set_raw(true);
    Ok(())
}

fn failing_upgrader(ctx: &mut Ctx, log: &mut Vec<&'static str>) -> Result<(), String> {
    log.push("failing_upgrader");
    ctx.set_raw(true);
    Err(String::from("handler broke"))
}

fn greeter(ctx: &mut Ctx, log: &mut Vec<&'static str>) -> Result<(), String> {
    log.push("greeter");
    let name = ctx.params.get(":name").map(|p| p.value.clone()).unwrap_or(String::from("World"));
    ctx.response.write(b"Hello ");
    ctx.response.write(name.as_bytes());
    Ok(())
}

fn star(ctx: &mut Ctx, log: &mut Vec<&'static str>) -> Result<(), String> {
    log.push("star");
    assert!(ctx.params.get(":name").is_none());
    let rest = ctx.params.get("*").map(|p| p.value.clone()).unwrap_or(String::from("?"));
    ctx.response.write(b" *=");
    ctx.response.write(rest.as_bytes());
    Ok(())
}

const ERROR_RESPONSE: &[u8] = b"HTTP/1.1 500 Internal Server Error\r\nContent-Length: 21\r\nContent-Type: text/plain\r\n\r\ninternal server error";

#[test]
fn handlers_run_in_registration_order() {
    let routes = vec![route(None, "/", first), route(None, "/", second)];
    let (_, log, action) = run(&routes, request_for(Method::GET, "/"));
    assert_eq!(log, vec!["first", "second"]);
    assert_eq!(
        action,
        Action::Respond(
            b"HTTP/1.1 200 OK\r\nContent-Length: 2\r\nContent-Type: text/plain\r\nx-powered-by: webserver-from-scratch\r\n\r\n12"
                .to_vec()
        )
    );
}

#[test]
fn ended_request_skips_later_handlers() {
    let routes = vec![route(None, "/", ender), route(None, "/", second)];
    let (ctx, log, action) = run(&routes, request_for(Method::GET, "/"));
    assert_eq!(log, vec!["ender"]);
    assert!(ctx.has_ended());
    assert_eq!(
        action,
        Action::Respond(
            b"HTTP/1.1 200 OK\r\nContent-Length: 1\r\nContent-Type: text/plain\r\nx-powered-by: webserver-from-scratch\r\n\r\ne"
                .to_vec()
        )
    );
}

#[test]
fn failed_handler_gives_the_error_response() {
    let routes = vec![route(None, "/", first), route(None, "/", failing), route(None, "/", second)];
    let (_, log, action) = run(&routes, request_for(Method::GET, "/"));
    assert_eq!(log, vec!["first", "failing"]);
    assert_eq!(action, Action::Respond(ERROR_RESPONSE.to_vec()));
}

#[test]
fn failure_counts_even_if_the_handler_ended_the_request() {
    let routes = vec![route(None, "/", failing_after_end), route(None, "/", second)];
    let (_, log, action) = run(&routes, request_for(Method::GET, "/"));
    assert_eq!(log, vec!["failing_after_end"]);
    assert_eq!(action, Action::Respond(ERROR_RESPONSE.to_vec()));
}

#[test]
fn raw_mode_writes_nothing() {
    let routes = vec![route(None, "/", first), route(None, "/", upgrader)];
    let (mut ctx, log, action) = run(&routes, request_for(Method::GET, "/"));
    assert_eq!(log, vec!["first", "upgrader"]);
    assert_eq!(action, Action::Done);
    assert!(ctx.is_raw());
}

#[test]
fn raw_mode_after_failure_writes_nothing() {
    let routes = vec![route(None, "/", failing_upgrader)];
    let (ctx, _, action) = run(&routes, request_for(Method::GET, "/"));
    assert_eq!(action, Action::Done);
    assert_eq!(ctx.response.build(), ERROR_RESPONSE);
}

#[test]
fn raw_mode_does_not_stop_the_chain() {
    let routes = vec![route(None, "/", upgrader), route(None, "/", second)];
    let (_, log, action) = run(&routes, request_for(Method::GET, "/"));
    assert_eq!(log, vec!["upgrader", "second"]);
    assert_eq!(action, Action::Done);
}

#[test]
fn no_matching_route_gives_the_seeded_response() {
    let routes = vec![route(None, "/other", first)];
    let (_, log, action) = run(&routes, request_for(Method::GET, "/"));
    assert!(log.is_empty());
    assert_eq!(
        action,
        Action::Respond(
            b"HTTP/1.1 200 OK\r\nContent-Length: 0\r\nContent-Type: text/plain\r\nx-powered-by: webserver-from-scratch\r\n\r\n"
                .to_vec()
        )
    );
}

#[test]
fn routes_are_filtered_by_method_and_path() {
    let routes = vec![
        route(Some(Method::POST), "/a", first),
        route(Some(Method::GET), "/b", first),
        route(Some(Method::GET), "/a", second),
        route(None, "*", ender),
        route(None, "/a", first),
    ];
    let (_, log, _) = run(&routes, request_for(Method::GET, "/a"));
    assert_eq!(log, vec!["second", "ender"]);
    let (_, log, _) = run(&routes, request_for(Method::POST, "/a"));
    assert_eq!(log, vec!["first", "ender"]);
}

#[test]
fn request_without_method_only_reaches_unfiltered_routes() {
    let routes = vec![route(Some(Method::GET), "/", first), route(None, "/", second)];
    let mut request = Request::new();
    request.path = Some(String::from("/"));
    let (_, log, _) = run(&routes, request);
    assert_eq!(log, vec!["second"]);
}

#[test]
fn each_handler_sees_the_captures_of_its_own_route() {
    let routes = vec![route(None, "/:name", greeter), route(None, "/*", star)];
    let (ctx, log, action) = run(&routes, request_for(Method::GET, "/Ada"));
    assert_eq!(log, vec!["greeter", "star"]);
    assert!(ctx.params.get("*").is_some());
    match action {
        Action::Respond(bytes) => assert!(bytes.ends_with(b"\r\n\r\nHello Ada *=Ada")),
        other => panic!("unexpected action {:?}", other),
    }
}

#[test]
fn chain_lists_the_selected_routes() {
    let routes = vec![route(None, "/x", first), route(None, "/:a", first), route(None, "/y", first)];
    let mut chain = HandlerChain::new(&request_for(Method::GET, "/y"), &routes);
    let (mut ctx, _) = process_request(&routes, request_for(Method::GET, "/y"), ());
    assert!(!chain.is_finished());
    assert_eq!(chain.step(&mut ctx, Event::Started), Action::Invoke(1));
    assert_eq!(ctx.params.get(":a").map(|p| p.value.as_str()), Some("y"));
    assert_eq!(chain.step(&mut ctx, Event::HandlerSucceeded), Action::Invoke(2));
    assert!(ctx.params.entries().is_empty());
    assert!(!chain.is_finished());
    match chain.step(&mut ctx, Event::HandlerSucceeded) {
        Action::Respond(_) => {}
        other => panic!("unexpected action {:?}", other),
    }
    assert!(chain.is_finished());
}

#[test]
fn context_starts_out_seeded() {
    let routes: Vec<Route<Handler>> = Vec::new();
    let (mut ctx, chain) = process_request(&routes, request_for(Method::GET, "/"), ());
    assert!(!chain.is_finished());
    assert!(!ctx.has_ended());
    assert!(!ctx.is_raw());
    assert_eq!(ctx.request.path, Some(String::from("/")));
    assert_eq!(
        ctx.response.build(),
        b"HTTP/1.1 200 OK\r\nContent-Length: 0\r\nContent-Type: text/plain\r\nx-powered-by: webserver-from-scratch\r\n\r\n"
    );
}

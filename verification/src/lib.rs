//! A small HTTP/1.1 server engine: request parsing, response serialization,
//! route matching, the handler chain, and the WebSocket handshake and frame
//! header codec, each with a machine-checked contract.

use crate::http_request::Method;
use crate::router::{Route, Router};
use vstd::prelude::*;

pub use httpstatus::{StatusClass, StatusCode};

pub mod buffer;
pub mod http_request;
pub mod http_response;
pub mod pipeline;
pub mod router;
pub mod sorted_map;
pub mod text;
pub mod tokens;
pub mod websocket;

verus! {

/// What can go wrong inside the server engine itself.
#[derive(Debug, Clone, Copy, PartialEq, Eq, Structural)]
pub enum ServerError {
    /// An invariant of the engine does not hold. No function of this library
    /// returns it: each one that could is proved never to.
    Invariant,
}

/// How much the server reports of what it does.
#[derive(Debug, Clone, Copy, PartialEq, Eq, Structural)]
pub enum LogLevel {
    Off,
    Debug,
    Normal,
    Critical,
}

impl LogLevel {
    /// The rank of this level: 1 for `Off`, then one more for each level.
    pub fn rank(&self) -> (rank: usize)
        ensures
            rank == match self {
                LogLevel::Off => 1usize,
                LogLevel::Debug => 2usize,
                LogLevel::Normal => 3usize,
                LogLevel::Critical => 4usize,
            },
    {
        match self {
            LogLevel::Off => 1,
            LogLevel::Debug => 2,
            LogLevel::Normal => 3,
            LogLevel::Critical => 4,
        }
    }
}

/// The server while it is set up: the routes registered so far, in the
/// order of their registration, and the log level. `H` is what a route holds
/// as its handler; the library stores handlers and never calls one.
pub struct HTTPServer<H> {
    routes_mut: Vec<Route<H>>,
    loglevel: LogLevel,
}

impl<H> Default for HTTPServer<H> {
    fn default() -> (server: Self)
        ensures
            server.routes() == Seq::<Route<H>>::empty(),
            server.level() == LogLevel::Off,
    {
        Self::new()
    }
}

impl<H> HTTPServer<H> {
    /// The routes registered so far, oldest first.
    pub closed spec fn routes(&self) -> Seq<Route<H>> {
        self.routes_mut@
    }

    /// The log level.
    pub closed spec fn level(&self) -> LogLevel {
        self.loglevel
    }

    /// A server without routes, with logging off.
    pub fn new() -> (server: Self)
        ensures
            server.routes() == Seq::<Route<H>>::empty(),
            server.level() == LogLevel::Off,
    {
        HTTPServer { routes_mut: Vec::with_capacity(100), loglevel: LogLevel::Off }
    }

    /// Appends a route.
    pub fn add_route(&mut self, route: Route<H>)
        ensures
            final(self).routes() == old(self).routes().push(route),
            final(self).level() == old(self).level(),
    {
        self.routes_mut.push(route)
    }

    /// Sets the log level, and hands the server back for the next call.
    pub fn loglevel(&mut self, loglevel: LogLevel) -> (same: &mut Self)
        ensures
            same.level() == loglevel,
            same.routes() == old(self).routes(),
            *final(self) == *final(same),
    {
        self.loglevel = loglevel;
        self
    }

    /// The log level.
    pub fn log_level(&self) -> (level: LogLevel)
        ensures
            level == self.level(),
    {
        self.loglevel
    }

    /// The route table, for the serving phase: the routes in the order of
    /// their registration.
    pub fn route_table(&self) -> (routes: &Vec<Route<H>>)
        ensures
            routes@ == self.routes(),
    {
        &self.routes_mut
    }
}

impl<H> Router<H> for HTTPServer<H> {
    open spec fn registered(&self) -> Seq<Route<H>> {
        self.routes()
    }

    fn handle(&mut self, method: Method, path: &str, handler: H) -> (same: &mut Self) {
        let route = Route { path: path.to_owned(), method: Some(method), handler };
        self.add_route(route);
        assert(self.routes().drop_last() =~= old(self).routes());
        self
    }

    fn any(&mut self, path: &str, handler: H) -> (same: &mut Self) {
        let route = Route { path: path.to_owned(), method: None, handler };
        self.add_route(route);
        assert(self.routes().drop_last() =~= old(self).routes());
        self
    }

    fn get(&mut self, path: &str, handler: H) -> (same: &mut Self) {
        self.handle(Method::GET, path, handler)
    }

    fn head(&mut self, path: &str, handler: H) -> (same: &mut Self) {
        self.handle(Method::HEAD, path, handler)
    }

    fn post(&mut self, path: &str, handler: H) -> (same: &mut Self) {
        self.handle(Method::POST, path, handler)
    }

    fn put(&mut self, path: &str, handler: H) -> (same: &mut Self) {
        self.handle(Method::PUT, path, handler)
    }

    fn delete(&mut self, path: &str, handler: H) -> (same: &mut Self) {
        self.handle(Method::DELETE, path, handler)
    }

    fn connect(&mut self, path: &str, handler: H) -> (same: &mut Self) {
        self.handle(Method::CONNECT, path, handler)
    }

    fn options(&mut self, path: &str, handler: H) -> (same: &mut Self) {
        self.handle(Method::OPTIONS, path, handler)
    }

    fn trace(&mut self, path: &str, handler: H) -> (same: &mut Self) {
        self.handle(Method::TRACE, path, handler)
    }

    fn patch(&mut self, path: &str, handler: H) -> (same: &mut Self) {
        self.handle(Method::PATCH, path, handler)
    }
}

} // verus!

//! Routes, the per-request context that handlers share, and the path
//! matcher.
//!
//! A path and a route pattern are both split at every `/` into segments,
//! and the two segment sequences are walked in lock-step. A pattern segment
//! that starts with `:` matches any segment and captures it under its own
//! text; the segment `*` does the same under the key `*`, and where it is
//! the pattern's last segment it also ends the walk, whatever the path still
//! holds.

use crate::http_request::{Method, Request, RequestView};
use crate::http_response::{ResponseBuilder, ResponseView};
use crate::sorted_map::SortedMap;
use crate::ServerError;
use vstd::prelude::*;
use vstd::string::StrSliceExecFns;

verus! {

/// A registered route: a path pattern, the method it is for (`None`: any
/// method), and the handler to run for a matching request.
#[derive(Debug, Clone)]
pub struct Route<H> {
    pub path: String,
    pub method: Option<Method>,
    pub handler: H,
}

/// What the handlers of one request share.
pub struct ContextView {
    pub request: RequestView,
    pub response: ResponseView,
    pub params: Map<Seq<char>, Capture>,
    pub ended: bool,
    pub raw: bool,
}

/// The state that the handlers of one request share: the request, the
/// response in the making, the captures of the route whose handler runs, the
/// connection, and two flags. A handler sets `ended` to keep later handlers
/// from running, and `raw` once it has taken the connection over, after
/// which no response is written to it.
pub struct MiddlewareContext<S> {
    /// The request that is being handled.
    pub request: Request,
    /// The response in the making.
    pub response: ResponseBuilder,
    /// What the route of the running handler captured from the path.
    pub params: SortedMap<RequestPathParams>,
    /// The connection that the request came over.
    pub socket: S,
    /// Set by a handler to end the request: no later handler runs.
    pub ended: bool,
    /// Set by a handler that has taken the connection over: no response is
    /// written.
    pub raw: bool,
}

impl<S> View for MiddlewareContext<S> {
    type V = ContextView;

    open spec fn view(&self) -> ContextView {
        ContextView {
            request: self.request@,
            response: self.response@,
            params: captures_of(self.params@),
            ended: self.ended,
            raw: self.raw,
        }
    }
}

impl<S> MiddlewareContext<S> {
    /// A context for a request that no handler has seen yet.
    pub fn new(request: Request, response: ResponseBuilder, socket: S) -> (ctx: Self)
        ensures
            ctx.request == request,
            ctx.response == response,
            ctx.socket == socket,
            ctx@.params == Map::<Seq<char>, Capture>::empty(),
            !ctx@.ended,
            !ctx@.raw,
    {
        let ctx = Self {
            socket,
            request,
            response,
            ended: false,
            params: SortedMap::new(),
            raw: false,
        };
        assert(ctx@.params =~= Map::<Seq<char>, Capture>::empty());
        ctx
    }

    /// Says whether the connection is taken over by the handler.
    pub fn set_raw(&mut self, val: bool)
        ensures
            final(self)@ == (ContextView { raw: val, ..old(self)@ }),
            final(self).socket == old(self).socket,
    {
        self.raw = val;
    }

    /// Whether a handler has taken the connection over.
    pub fn is_raw(&mut self) -> (raw: bool)
        ensures
            raw == old(self)@.raw,
            *final(self) == *old(self),
    {
        self.raw
    }

    /// Ends the request: no later handler runs.
    pub fn end(&mut self)
        ensures
            final(self)@ == (ContextView { ended: true, ..old(self)@ }),
            final(self).socket == old(self).socket,
    {
        self.ended = true
    }

    /// Whether a handler has ended the request.
    pub fn has_ended(&self) -> (ended: bool)
        ensures
            ended == self@.ended,
    {
        self.ended
    }
}

/// Where routes are registered: one method for each request method, and
/// `any` for a route that takes every method. Each call appends one route,
/// so routes stay in the order of their registration.
pub trait Router<F>: Sized {
    /// The routes registered so far, oldest first.
    spec fn registered(&self) -> Seq<Route<F>>;

    /// Registers `handler` for requests of `method` whose path matches `path`.
    fn handle(&mut self, method: Method, path: &str, handler: F) -> (same: &mut Self)
        ensures
            appended(old(self).registered(), same.registered(), Some(method), path@, handler),
            *final(self) == *final(same),
    ;

    /// Registers `handler` for requests of any method whose path matches `path`.
    fn any(&mut self, path: &str, handler: F) -> (same: &mut Self)
        ensures
            appended(old(self).registered(), same.registered(), None, path@, handler),
            *final(self) == *final(same),
    ;

    fn get(&mut self, path: &str, handler: F) -> (same: &mut Self)
        ensures
            appended(old(self).registered(), same.registered(), Some(Method::GET), path@, handler),
            *final(self) == *final(same),
    ;

    fn head(&mut self, path: &str, handler: F) -> (same: &mut Self)
        ensures
            appended(old(self).registered(), same.registered(), Some(Method::HEAD), path@, handler),
            *final(self) == *final(same),
    ;

    fn post(&mut self, path: &str, handler: F) -> (same: &mut Self)
        ensures
            appended(old(self).registered(), same.registered(), Some(Method::POST), path@, handler),
            *final(self) == *final(same),
    ;

    fn put(&mut self, path: &str, handler: F) -> (same: &mut Self)
        ensures
            appended(old(self).registered(), same.registered(), Some(Method::PUT), path@, handler),
            *final(self) == *final(same),
    ;

    fn delete(&mut self, path: &str, handler: F) -> (same: &mut Self)
        ensures
            appended(
                old(self).registered(),
                same.registered(),
                Some(Method::DELETE),
                path@,
                handler,
            ),
            *final(self) == *final(same),
    ;

    fn connect(&mut self, path: &str, handler: F) -> (same: &mut Self)
        ensures
            appended(
                old(self).registered(),
                same.registered(),
                Some(Method::CONNECT),
                path@,
                handler,
            ),
            *final(self) == *final(same),
    ;

    fn options(&mut self, path: &str, handler: F) -> (same: &mut Self)
        ensures
            appended(
                old(self).registered(),
                same.registered(),
                Some(Method::OPTIONS),
                path@,
                handler,
            ),
            *final(self) == *final(same),
    ;

    fn trace(&mut self, path: &str, handler: F) -> (same: &mut Self)
        ensures
            appended(old(self).registered(), same.registered(), Some(Method::TRACE), path@, handler),
            *final(self) == *final(same),
    ;

    fn patch(&mut self, path: &str, handler: F) -> (same: &mut Self)
        ensures
            appended(old(self).registered(), same.registered(), Some(Method::PATCH), path@, handler),
            *final(self) == *final(same),
    ;
}

/// Whether `after` is `before` with one route more at its end: the route
/// with the given method filter, pattern and handler.
pub open spec fn appended<F>(
    before: Seq<Route<F>>,
    after: Seq<Route<F>>,
    method: Option<Method>,
    path: Seq<char>,
    handler: F,
) -> bool {
    &&& after.len() == before.len() + 1
    &&& after.drop_last() == before
    &&& after.last().method == method
    &&& after.last().path@ == path
    &&& after.last().handler == handler
}

/// The segment that a pattern segment captured.
#[derive(Debug, Clone)]
pub struct RequestPathParams {
    /// The pattern segment: `:name` or `*`.
    pub param: String,
    /// The path segment that stood in its place.
    pub value: String,
}

/// The outcome of matching a path against a pattern: the path, and what the
/// pattern's parameter segments captured.
#[derive(Debug, Clone)]
pub struct RequestPath {
    pub path: String,
    pub params: SortedMap<RequestPathParams>,
}

/// What a pattern segment captured: the pattern segment and the path
/// segment that stood in its place.
pub struct Capture {
    pub param: Seq<char>,
    pub value: Seq<char>,
}

impl View for RequestPathParams {
    type V = Capture;

    open spec fn view(&self) -> Capture {
        Capture { param: self.param@, value: self.value@ }
    }
}

/// The captures of a parameter map, by pattern segment.
pub open spec fn captures_of(params: Map<Seq<char>, RequestPathParams>) -> Map<Seq<char>, Capture> {
    params.map_values(|p: RequestPathParams| p@)
}

/// What a matched path holds.
pub struct RequestPathView {
    pub path: Seq<char>,
    pub params: Map<Seq<char>, Capture>,
}

impl View for RequestPath {
    type V = RequestPathView;

    open spec fn view(&self) -> RequestPathView {
        RequestPathView { path: self.path@, params: captures_of(self.params@) }
    }
}

/// How many characters stand before the first `/` of `s`, or all of them.
pub open spec fn segment_length(s: Seq<char>) -> nat
    decreases s.len(),
{
    if s.len() == 0 || s[0] == '/' {
        0
    } else {
        1 + segment_length(s.drop_first())
    }
}

/// The pieces into which the `/` characters of `s` cut it. There is always
/// at least one, and a piece may be empty.
pub open spec fn segments(s: Seq<char>) -> Seq<Seq<char>>
    decreases s.len(),
{
    let n = segment_length(s) as int;
    if n >= s.len() {
        seq![s]
    } else {
        seq![s.take(n)] + segments(s.skip(n + 1))
    }
}

/// Whether a pattern segment is the wildcard.
pub open spec fn is_wildcard(segment: Seq<char>) -> bool {
    segment == seq!['*']
}

/// Whether a pattern segment is a named parameter.
pub open spec fn is_named(segment: Seq<char>) -> bool {
    segment.len() > 0 && segment[0] == ':'
}

/// The captures with one more: the path segment `value` under the pattern
/// segment `param`, in place of what stood there.
pub open spec fn capture(captured: Map<Seq<char>, Capture>, param: Seq<char>, value: Seq<char>) -> Map<
    Seq<char>,
    Capture,
> {
    captured.insert(param, Capture { param, value })
}

/// The walk over the segments of a path and of a pattern from position `at`
/// on, with what was captured before: the captures of the whole walk, or
/// `None` where the path does not match. A path with fewer segments than
/// the pattern matches if its segments do.
pub open spec fn walk(
    path: Seq<Seq<char>>,
    pattern: Seq<Seq<char>>,
    at: int,
    captured: Map<Seq<char>, Capture>,
) -> Option<Map<Seq<char>, Capture>>
    decreases path.len() - at,
{
    if at < 0 || at >= path.len() {
        Some(captured)
    } else if at >= pattern.len() {
        None
    } else if is_wildcard(pattern[at]) {
        if at == pattern.len() - 1 {
            Some(capture(captured, pattern[at], path[at]))
        } else {
            walk(path, pattern, at + 1, capture(captured, pattern[at], path[at]))
        }
    } else if is_named(pattern[at]) {
        walk(path, pattern, at + 1, capture(captured, pattern[at], path[at]))
    } else if pattern[at] != path[at] {
        None
    } else {
        walk(path, pattern, at + 1, captured)
    }
}

/// What a pattern captures from a path, or `None` where the path does not
/// match the pattern.
pub open spec fn match_model(path: Seq<char>, pattern: Seq<char>) -> Option<Map<Seq<char>, Capture>> {
    walk(segments(path), segments(pattern), 0, Map::empty())
}

/// The path that a request is matched by: its own, or the empty path where
/// it has none.
pub open spec fn path_of(request: RequestView) -> Seq<char> {
    match request.path {
        Some(path) => path,
        None => Seq::empty(),
    }
}

/// The characters of `text`, one by one.
fn characters(text: &str) -> (out: Vec<char>)
    ensures
        out@ == text@,
{
    broadcast use vstd::string::group_string_axioms;

    let mut out: Vec<char> = Vec::new();
    for c in it: text.chars()
        invariant
            it.seq() == text@,
            out@ == it.seq().take(it.index()),
    {
        out.push(c);
        assert(out@ =~= it.seq().take(it.index() + 1));
    }
    assert(out@ =~= text@);
    out
}

/// A segment is as long as what was scanned of it plus what the rest yields.
proof fn lemma_segment_length_step(s: Seq<char>, i: int)
    requires
        0 <= i < s.len(),
        segment_length(s) == i + segment_length(s.skip(i)),
        s[i] != '/',
    ensures
        segment_length(s) == i + 1 + segment_length(s.skip(i + 1)),
{
    assert(s.skip(i)[0] == s[i]);
    assert(s.skip(i).drop_first() =~= s.skip(i + 1));
}

/// Where each segment of `text` starts and ends.
fn segment_ranges(text: &Vec<char>) -> (ranges: Vec<(usize, usize)>)
    ensures
        ranges@.len() == segments(text@).len(),
        forall|i: int|
            0 <= i < ranges@.len() ==> {
                &&& (#[trigger] ranges@[i]).0 <= ranges@[i].1 <= text@.len()
                &&& text@.subrange(ranges@[i].0 as int, ranges@[i].1 as int) == segments(text@)[i]
            },
{
    let mut ranges: Vec<(usize, usize)> = Vec::new();
    let mut start: usize = 0;
    let ghost mut done: Seq<Seq<char>> = Seq::empty();
    proof {
        assert(text@.skip(0) =~= text@);
    }
    loop
        invariant_except_break
            start <= text@.len(),
            segments(text@) == done + segments(text@.skip(start as int)),
        invariant
            ranges@.len() == done.len(),
            forall|i: int|
                0 <= i < ranges@.len() ==> {
                    &&& (#[trigger] ranges@[i]).0 <= ranges@[i].1 <= text@.len()
                    &&& text@.subrange(ranges@[i].0 as int, ranges@[i].1 as int) == done[i]
                },
        ensures
            segments(text@) == done,
        decreases text@.len() - start,
    {
        let ghost rest = text@.skip(start as int);
        let mut end: usize = start;
        proof {
            assert(rest.skip(0) =~= rest);
        }
        while end < text.len() && text[end] != '/'
            invariant
                start <= end <= text@.len(),
                rest == text@.skip(start as int),
                segment_length(rest) == (end - start) + segment_length(rest.skip(end - start)),
            decreases text@.len() - end,
        {
            proof {
                lemma_segment_length_step(rest, end - start);
            }
            end += 1;
        }
        proof {
            if end < text@.len() {
                assert(rest.skip(end - start)[0] == text@[end as int]);
            }
            assert(segment_length(rest) == end - start);
            assert(rest.take(end - start) =~= text@.subrange(start as int, end as int));
        }
        ranges.push((start, end));
        if end == text.len() {
            proof {
                assert(rest.take(end - start) =~= rest);
                done = done.push(rest);
                assert(segments(rest) =~= seq![rest]);
                assert(segments(text@) =~= done);
            }
            break ;
        }
        proof {
            let piece = rest.take(end - start);
            assert(rest.skip(end - start + 1) =~= text@.skip(end + 1));
            assert(segments(rest) == seq![piece] + segments(text@.skip(end + 1)));
            assert(done + (seq![piece] + segments(text@.skip(end + 1))) =~= done.push(piece)
                + segments(text@.skip(end + 1)));
            done = done.push(piece);
        }
        start = end + 1;
    }
    ranges
}

/// Whether two stretches of characters hold the same characters.
fn same_stretch(a: &Vec<char>, a_range: (usize, usize), b: &Vec<char>, b_range: (usize, usize)) -> (r:
    bool)
    requires
        a_range.0 <= a_range.1 <= a@.len(),
        b_range.0 <= b_range.1 <= b@.len(),
    ensures
        r == (a@.subrange(a_range.0 as int, a_range.1 as int) == b@.subrange(
            b_range.0 as int,
            b_range.1 as int,
        )),
{
    let ghost sa = a@.subrange(a_range.0 as int, a_range.1 as int);
    let ghost sb = b@.subrange(b_range.0 as int, b_range.1 as int);
    let n = a_range.1 - a_range.0;
    if b_range.1 - b_range.0 != n {
        assert(sa.len() != sb.len());
        return false;
    }
    let mut i: usize = 0;
    while i < n
        invariant
            i <= n,
            n == a_range.1 - a_range.0,
            n == b_range.1 - b_range.0,
            a_range.1 <= a@.len(),
            b_range.1 <= b@.len(),
            sa == a@.subrange(a_range.0 as int, a_range.1 as int),
            sb == b@.subrange(b_range.0 as int, b_range.1 as int),
            forall|k: int| 0 <= k < i ==> sa[k] == sb[k],
        decreases n - i,
    {
        if a[a_range.0 + i] != b[b_range.0 + i] {
            assert(sa[i as int] != sb[i as int]);
            return false;
        }
        i += 1;
    }
    assert(sa =~= sb);
    true
}

/// Matches the path of `request` against the pattern of `route`. The walk
/// never fails; a path that does not match gives `None`.
pub fn middleware_matches_request<H>(request: &Request, route: &Route<H>) -> (r: Result<
    Option<RequestPath>,
    ServerError,
>)
    ensures
        match r {
            Ok(Some(matched)) => match_model(path_of(request@), route.path@) == Some(
                matched@.params,
            ) && matched@.path == path_of(request@),
            Ok(None) => match_model(path_of(request@), route.path@).is_none(),
            Err(_) => false,
        },
{
    let request_path: String = match &request.path {
        Some(path) => path.clone(),
        None => String::new(),
    };
    let path_chars = characters(request_path.as_str());
    let pattern_chars = characters(route.path.as_str());
    let path_ranges = segment_ranges(&path_chars);
    let pattern_ranges = segment_ranges(&pattern_chars);
    let ghost path = segments(path_chars@);
    let ghost pattern = segments(pattern_chars@);

    let mut params: SortedMap<RequestPathParams> = SortedMap::new();
    let mut at: usize = 0;
    proof {
        assert(captures_of(params@) =~= Map::<Seq<char>, Capture>::empty());
    }
    while at < path_ranges.len()
        invariant_except_break
            at <= path_ranges@.len(),
            match_model(path_chars@, pattern_chars@) == walk(
                path,
                pattern,
                at as int,
                captures_of(params@),
            ),
        invariant
            path == segments(path_chars@),
            pattern == segments(pattern_chars@),
            path_chars@ == request_path@,
            request_path@ == path_of(request@),
            pattern_chars@ == route.path@,
            path_ranges@.len() == path.len(),
            pattern_ranges@.len() == pattern.len(),
            forall|i: int|
                0 <= i < path_ranges@.len() ==> {
                    &&& (#[trigger] path_ranges@[i]).0 <= path_ranges@[i].1 <= path_chars@.len()
                    &&& path_chars@.subrange(path_ranges@[i].0 as int, path_ranges@[i].1 as int)
                        == path[i]
                },
            forall|i: int|
                0 <= i < pattern_ranges@.len() ==> {
                    &&& (#[trigger] pattern_ranges@[i]).0 <= pattern_ranges@[i].1
                        <= pattern_chars@.len()
                    &&& pattern_chars@.subrange(
                        pattern_ranges@[i].0 as int,
                        pattern_ranges@[i].1 as int,
                    ) == pattern[i]
                },
        ensures
            match_model(path_chars@, pattern_chars@) == Some(captures_of(params@)),
        decreases path_ranges@.len() - at,
    {
        if at >= pattern_ranges.len() {
            return Ok(None);
        }
        let here = pattern_ranges[at];
        let there = path_ranges[at];
        assert(pattern_chars@.subrange(here.0 as int, here.1 as int) == pattern[at as int]);
        assert(path_chars@.subrange(there.0 as int, there.1 as int) == path[at as int]);
        let ghost before = params@;
        if here.1 - here.0 == 1 && pattern_chars[here.0] == '*' {
            assert(pattern[at as int] =~= seq!['*']);
            let value = request_path.as_str().substring_char(there.0, there.1).to_owned();
            let key = route.path.as_str().substring_char(here.0, here.1).to_owned();
            let param = key.clone();
            params.insert(key, RequestPathParams { param, value });
            assert(captures_of(params@) =~= capture(
                captures_of(before),
                pattern[at as int],
                path[at as int],
            ));
            if at + 1 == pattern_ranges.len() {
                break ;
            }
        } else if here.1 > here.0 && pattern_chars[here.0] == ':' {
            assert(pattern[at as int][0] == pattern_chars@[here.0 as int]);
            let value = request_path.as_str().substring_char(there.0, there.1).to_owned();
            let key = route.path.as_str().substring_char(here.0, here.1).to_owned();
            let param = key.clone();
            params.insert(key, RequestPathParams { param, value });
            assert(captures_of(params@) =~= capture(
                captures_of(before),
                pattern[at as int],
                path[at as int],
            ));
        } else {
            proof {
                if pattern[at as int].len() > 0 {
                    assert(pattern[at as int][0] == pattern_chars@[here.0 as int]);
                }
                if is_wildcard(pattern[at as int]) {
                    assert(pattern[at as int].len() == 1);
                }
            }
            if !same_stretch(&pattern_chars, here, &path_chars, there) {
                return Ok(None);
            }
        }
        at += 1;
    }
    Ok(Some(RequestPath { path: request_path, params }))
}

/// Whether `s` holds no `/`, and so is a single segment.
pub open spec fn unslashed(s: Seq<char>) -> bool {
    forall|i: int| 0 <= i < s.len() ==> #[trigger] s[i] != '/'
}

/// A path, or a pattern, made of the given segments: the segments with a `/`
/// between each two of them. There must be at least one segment.
pub open spec fn joined(pieces: Seq<Seq<char>>) -> Seq<char>
    decreases pieces.len(),
{
    if pieces.len() <= 1 {
        if pieces.len() == 1 {
            pieces[0]
        } else {
            Seq::empty()
        }
    } else {
        pieces[0] + seq!['/'] + joined(pieces.drop_first())
    }
}

/// A stretch without `/` that is followed by a `/`, or by nothing, is the
/// first segment.
pub proof fn lemma_first_segment(piece: Seq<char>, rest: Seq<char>)
    requires
        unslashed(piece),
        rest.len() == 0 || rest[0] == '/',
    ensures
        segment_length(piece + rest) == piece.len(),
    decreases piece.len(),
{
    let s = piece + rest;
    if piece.len() == 0 {
        if rest.len() > 0 {
            assert(s[0] == rest[0]);
        }
    } else {
        assert(s[0] == piece[0]);
        let shorter = piece.drop_first();
        assert(unslashed(shorter)) by {
            assert forall|i: int| 0 <= i < shorter.len() implies #[trigger] shorter[i] != '/' by {
                assert(shorter[i] == piece[i + 1]);
            }
        }
        lemma_first_segment(shorter, rest);
        assert(s.drop_first() =~= shorter + rest);
    }
}

/// Cutting up what was joined gives the pieces back, as long as no piece
/// holds a `/`: the segments of a path are those that it was written with.
pub proof fn lemma_segments_of_joined(pieces: Seq<Seq<char>>)
    requires
        pieces.len() >= 1,
        forall|i: int| 0 <= i < pieces.len() ==> unslashed(#[trigger] pieces[i]),
    ensures
        segments(joined(pieces)) == pieces,
    decreases pieces.len(),
{
    if pieces.len() == 1 {
        lemma_first_segment(pieces[0], Seq::empty());
        assert(pieces[0] + Seq::<char>::empty() =~= pieces[0]);
        assert(segments(pieces[0]) =~= seq![pieces[0]]);
        assert(seq![pieces[0]] =~= pieces);
    } else {
        let later = pieces.drop_first();
        assert forall|i: int| 0 <= i < later.len() implies unslashed(#[trigger] later[i]) by {
            assert(later[i] == pieces[i + 1]);
        }
        lemma_segments_of_joined(later);
        let rest = seq!['/'] + joined(later);
        let s = joined(pieces);
        assert(s =~= pieces[0] + rest);
        assert(rest[0] == '/');
        lemma_first_segment(pieces[0], rest);
        let n = pieces[0].len() as int;
        assert(s.take(n) =~= pieces[0]);
        assert(s.skip(n + 1) =~= joined(later));
        assert(seq![pieces[0]] + later =~= pieces);
    }
}

/// A path or a pattern that ends with `/` has an empty last segment. So a
/// wildcard is the last segment of a pattern only if the pattern does not
/// end with `/`: it is enough to ask whether the wildcard is the last
/// segment.
pub proof fn lemma_trailing_slash(s: Seq<char>)
    requires
        s.len() > 0,
        s.last() == '/',
    ensures
        segments(s).len() >= 2,
        segments(s).last() == Seq::<char>::empty(),
        !is_wildcard(segments(s).last()),
    decreases s.len(),
{
    let n = segment_length(s) as int;
    lemma_segment_bound(s);
    assert(n < s.len()) by {
        if n >= s.len() {
            assert(s[s.len() - 1] != '/');
        }
    }
    let rest = s.skip(n + 1);
    if rest.len() == 0 {
        assert(segments(rest) =~= seq![rest]);
        assert(rest =~= Seq::<char>::empty());
    } else {
        assert(rest.last() == s.last());
        lemma_trailing_slash(rest);
    }
    assert(segments(s) == seq![s.take(n)] + segments(rest));
    assert(segments(s).last() == segments(rest).last());
}

/// The first segment is no longer than the text, and holds no `/`.
pub proof fn lemma_segment_bound(s: Seq<char>)
    ensures
        segment_length(s) <= s.len(),
        forall|i: int| 0 <= i < segment_length(s) ==> #[trigger] s[i] != '/',
    decreases s.len(),
{
    if !(s.len() == 0 || s[0] == '/') {
        lemma_segment_bound(s.drop_first());
        assert forall|i: int| 0 <= i < segment_length(s) implies #[trigger] s[i] != '/' by {
            if i > 0 {
                assert(s[i] == s.drop_first()[i - 1]);
            }
        }
    }
}

/// A pattern of one named segment after the leading `/` matches every path
/// of one segment after the leading `/`, and captures that segment under
/// the pattern segment: `/:name` matches `/anything` with `:name` bound to
/// `anything`.
pub proof fn lemma_named_segment_matches(name: Seq<char>, value: Seq<char>)
    requires
        is_named(name),
        unslashed(name),
        unslashed(value),
    ensures
        match_model(seq!['/'] + value, seq!['/'] + name) == Some(
            capture(Map::empty(), name, value),
        ),
{
    let none = Seq::<char>::empty();
    let path = seq![none, value];
    let pattern = seq![none, name];
    lemma_segments_of_joined(path);
    lemma_segments_of_joined(pattern);
    assert(joined(path) =~= seq!['/'] + value) by {
        assert(path.drop_first() =~= seq![value]);
        assert(joined(path.drop_first()) == value);
    }
    assert(joined(pattern) =~= seq!['/'] + name) by {
        assert(pattern.drop_first() =~= seq![name]);
        assert(joined(pattern.drop_first()) == name);
    }
    assert(name != seq!['*']) by {
        assert(name[0] == ':');
    }
    reveal_with_fuel(walk, 3);
    assert(!is_named(none) && !is_wildcard(none));
}

/// Whether a pattern segment is a literal: neither the wildcard nor a named
/// parameter.
pub open spec fn is_literal(segment: Seq<char>) -> bool {
    !is_wildcard(segment) && !is_named(segment)
}

/// A wildcard that is the last segment of a pattern ends the walk: it
/// captures the path segment at its place, and the path matches whatever
/// stands after that segment. The pattern `/a/*` matches `/a/b/c` with `*`
/// bound to `b`.
pub proof fn lemma_last_wildcard_takes_the_rest(
    literal: Seq<char>,
    value: Seq<char>,
    rest: Seq<Seq<char>>,
)
    requires
        is_literal(literal),
        unslashed(literal),
        unslashed(value),
        forall|i: int| 0 <= i < rest.len() ==> unslashed(#[trigger] rest[i]),
    ensures
        match_model(
            joined(seq![Seq::empty(), literal, value] + rest),
            joined(seq![Seq::empty(), literal, seq!['*']]),
        ) == Some(capture(Map::empty(), seq!['*'], value)),
{
    let none = Seq::<char>::empty();
    let star = seq!['*'];
    let path = seq![none, literal, value] + rest;
    let pattern = seq![none, literal, star];
    assert forall|i: int| 0 <= i < path.len() implies unslashed(#[trigger] path[i]) by {
        if i >= 3 {
            assert(path[i] == rest[i - 3]);
        }
    }
    assert(unslashed(star)) by {
        assert(star[0] == '*');
    }
    lemma_segments_of_joined(path);
    lemma_segments_of_joined(pattern);
    reveal_with_fuel(walk, 4);
    assert(!is_named(none) && !is_wildcard(none));
    assert(!is_named(star)) by {
        assert(star[0] == '*');
    }
}

/// A wildcard before a trailing `/` takes exactly one segment: the pattern
/// `/a/*/` matches `/a/b/` with `*` bound to `b`, and no path that goes on
/// after `/a/b/` with a segment that is not empty.
pub proof fn lemma_wildcard_before_trailing_slash(
    literal: Seq<char>,
    value: Seq<char>,
    next: Seq<char>,
    rest: Seq<Seq<char>>,
)
    requires
        is_literal(literal),
        unslashed(literal),
        unslashed(value),
        unslashed(next),
        next.len() > 0,
        forall|i: int| 0 <= i < rest.len() ==> unslashed(#[trigger] rest[i]),
    ensures
        match_model(
            joined(seq![Seq::empty(), literal, value, Seq::empty()]),
            joined(seq![Seq::empty(), literal, seq!['*'], Seq::empty()]),
        ) == Some(capture(Map::empty(), seq!['*'], value)),
        match_model(
            joined(seq![Seq::empty(), literal, value, next] + rest),
            joined(seq![Seq::empty(), literal, seq!['*'], Seq::empty()]),
        ).is_none(),
{
    let none = Seq::<char>::empty();
    let star = seq!['*'];
    let pattern = seq![none, literal, star, none];
    let short = seq![none, literal, value, none];
    let long = seq![none, literal, value, next] + rest;
    assert forall|i: int| 0 <= i < long.len() implies unslashed(#[trigger] long[i]) by {
        if i >= 4 {
            assert(long[i] == rest[i - 4]);
        }
    }
    assert(unslashed(star)) by {
        assert(star[0] == '*');
    }
    lemma_segments_of_joined(pattern);
    lemma_segments_of_joined(short);
    lemma_segments_of_joined(long);
    reveal_with_fuel(walk, 5);
    assert(!is_named(none) && !is_wildcard(none));
    assert(!is_named(star)) by {
        assert(star[0] == '*');
    }
    assert(pattern[3] != long[3]);
}

} // verus!

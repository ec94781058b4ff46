//! The handler chain of one request.
//!
//! The routes that admit a request are selected in the order of their
//! registration. Their handlers then run one after another, each on the
//! shared context with the captures of its own route in place. A handler
//! that fails, or that ends the request, keeps the later ones from running.
//! After a failure the response is the fixed error response. At the end the
//! response is written out, unless a handler has taken the connection over.
//!
//! Handlers are run by the caller, since running one may suspend. The chain
//! is a state machine: `step` takes what happened last and says what to do
//! next.

use crate::http_request::{Method, Request, RequestView};
use crate::http_response::{
    fresh_response, reason_phrase, response_bytes, ResponseBuilder, ResponseView,
    INTERNAL_SERVER_ERROR,
};
use crate::router::{
    match_model, middleware_matches_request, path_of, ContextView, MiddlewareContext,
    RequestPath, RequestPathView, Route,
};
use std::collections::VecDeque;
use vstd::prelude::*;
use vstd::utf8::encode_utf8;

verus! {

/// What the caller reports to the chain.
#[derive(Debug, Clone, Copy, PartialEq, Eq, Structural)]
pub enum Event {
    /// Nothing has run yet.
    Started,
    /// The handler that was to be invoked has returned without failure.
    HandlerSucceeded,
    /// The handler that was to be invoked has failed.
    HandlerFailed,
}

/// What the caller is to do next.
#[derive(Debug, Clone, PartialEq, Eq)]
pub enum Action {
    /// Invoke the handler of the route with this index in the route table,
    /// then report how it went.
    Invoke(usize),
    /// Write these bytes to the connection; the request is finished.
    Respond(Vec<u8>),
    /// Nothing: the request is finished and nothing is to be written.
    Done,
}

/// An action, with the bytes of a response as a sequence.
pub enum ActionView {
    Invoke(usize),
    Respond(Seq<u8>),
    Done,
}

impl View for Action {
    type V = ActionView;

    open spec fn view(&self) -> ActionView {
        match self {
            Action::Invoke(index) => ActionView::Invoke(*index),
            Action::Respond(bytes) => ActionView::Respond(bytes@),
            Action::Done => ActionView::Done,
        }
    }
}

/// The handlers of one request that have not run yet, and whether the
/// request is finished.
pub struct HandlerChain {
    pending: VecDeque<(usize, RequestPath)>,
    finished: bool,
}

/// What a handler chain holds: for each handler that has not run yet the
/// index of its route and what the route matched, next handler first.
pub struct ChainView {
    pub pending: Seq<(usize, RequestPathView)>,
    pub finished: bool,
}

impl View for HandlerChain {
    type V = ChainView;

    closed spec fn view(&self) -> ChainView {
        ChainView {
            pending: Seq::new(
                self.pending@.len(),
                |i: int| (self.pending@[i].0, self.pending@[i].1@),
            ),
            finished: self.finished,
        }
    }
}

/// Whether a route with the given method filter takes a request of the
/// given method: a route without a filter takes every request.
pub open spec fn admits(filter: Option<Method>, method: Option<Method>) -> bool {
    filter.is_none() || filter == method
}

/// The routes that take a request, in the order of the route table: for
/// each the index of the route and what its pattern matched.
pub open spec fn selection<H>(request: RequestView, routes: Seq<Route<H>>) -> Seq<
    (usize, RequestPathView),
>
    decreases routes.len(),
{
    if routes.len() == 0 {
        Seq::empty()
    } else {
        let earlier = selection(request, routes.drop_last());
        let route = routes.last();
        let matched = match_model(path_of(request), route.path@);
        if admits(route.method, request.method) && matched.is_some() {
            earlier.push(
                (
                    (routes.len() - 1) as usize,
                    RequestPathView { path: path_of(request), params: matched.unwrap() },
                ),
            )
        } else {
            earlier
        }
    }
}

/// The header that every response starts out with.
pub open spec fn seeded_response() -> ResponseView {
    ResponseView {
        headers: Map::empty().insert("x-powered-by"@, "webserver-from-scratch"@),
        ..fresh_response()
    }
}

/// The response to a request whose handler failed: nothing of what the
/// handlers have set or written, status 500 and a fixed body.
pub open spec fn failure_response() -> ResponseView {
    ResponseView {
        status_code: INTERNAL_SERVER_ERROR,
        body: encode_utf8("internal server error"@),
        ..fresh_response()
    }
}

/// How a request ends: with the bytes of its response, or with nothing where
/// a handler has taken the connection over.
pub open spec fn conclusion(ctx: ContextView) -> ActionView {
    if ctx.raw {
        ActionView::Done
    } else {
        ActionView::Respond(
            response_bytes(ctx.response, reason_phrase(ctx.response.status_code)),
        )
    }
}

/// One step of the chain: the chain and the context after it, and what is
/// to be done next.
pub open spec fn step_model(chain: ChainView, ctx: ContextView, event: Event) -> (
    ChainView,
    ContextView,
    ActionView,
) {
    if chain.finished {
        (chain, ctx, ActionView::Done)
    } else if event == Event::HandlerFailed {
        let failed = ContextView { response: failure_response(), ..ctx };
        (ChainView { finished: true, ..chain }, failed, conclusion(failed))
    } else if (event == Event::HandlerSucceeded && ctx.ended) || chain.pending.len() == 0 {
        (ChainView { finished: true, ..chain }, ctx, conclusion(ctx))
    } else {
        (
            ChainView { pending: chain.pending.drop_first(), ..chain },
            ContextView { params: chain.pending[0].1.params, ..ctx },
            ActionView::Invoke(chain.pending[0].0),
        )
    }
}

/// Whether a route with the given method filter takes a request of the
/// given method.
fn route_admits(filter: &Option<Method>, method: &Option<Method>) -> (r: bool)
    ensures
        r == admits(*filter, *method),
{
    match filter {
        None => true,
        Some(wanted) => match method {
            Some(given) => *wanted == *given,
            None => false,
        },
    }
}

/// Sets up the handling of a parsed request: the context that the handlers
/// share, with the response seeded, and the chain of the handlers to run.
pub fn process_request<H, S>(routes: &Vec<Route<H>>, request: Request, socket: S) -> (r: (
    MiddlewareContext<S>,
    HandlerChain,
))
    ensures
        r.0@ == (ContextView {
            request: request@,
            response: seeded_response(),
            params: Map::empty(),
            ended: false,
            raw: false,
        }),
        r.0.socket == socket,
        r.1@ == (ChainView { pending: selection(request@, routes@), finished: false }),
{
    let chain = HandlerChain::new(&request, routes);
    let mut response = ResponseBuilder::default();
    response.set_header("x-powered-by", "webserver-from-scratch");
    let ctx = MiddlewareContext::new(request, response, socket);
    (ctx, chain)
}

impl HandlerChain {
    /// The chain of the handlers that are to run for `request`.
    pub fn new<H>(request: &Request, routes: &Vec<Route<H>>) -> (chain: Self)
        ensures
            chain@ == (ChainView { pending: selection(request@, routes@), finished: false }),
    {
        let mut pending: VecDeque<(usize, RequestPath)> = VecDeque::new();
        let mut i: usize = 0;
        assert(routes@.take(0) =~= Seq::<Route<H>>::empty());
        while i < routes.len()
            invariant
                i <= routes@.len(),
                Seq::new(pending@.len(), |k: int| (pending@[k].0, pending@[k].1@)) == selection(
                    request@,
                    routes@.take(i as int),
                ),
            decreases routes@.len() - i,
        {
            let route = &routes[i];
            let ghost before = pending@;
            proof {
                assert(routes@.take(i + 1).drop_last() =~= routes@.take(i as int));
                assert(routes@.take(i + 1).last() == routes@[i as int]);
            }
            if route_admits(&route.method, &request.method) {
                match middleware_matches_request(request, route) {
                    Ok(Some(matched)) => {
                        pending.push_back((i, matched));
                        assert(Seq::new(pending@.len(), |k: int| (pending@[k].0, pending@[k].1@))
                            =~= Seq::new(before.len(), |k: int| (before[k].0, before[k].1@)).push(
                            (i, matched@),
                        ));
                    },
                    _ => {},
                }
            }
            i += 1;
        }
        assert(routes@.take(i as int) =~= routes@);
        HandlerChain { pending, finished: false }
    }

    /// Whether the request is finished.
    pub fn is_finished(&self) -> (finished: bool)
        ensures
            finished == self@.finished,
    {
        self.finished
    }

    /// The end of the request: the response is written out, unless a handler
    /// has taken the connection over.
    fn conclude<S>(&mut self, ctx: &mut MiddlewareContext<S>) -> (action: Action)
        ensures
            final(self)@ == (ChainView { finished: true, ..old(self)@ }),
            *final(ctx) == *old(ctx),
            action@ == conclusion(old(ctx)@),
    {
        self.finished = true;
        if ctx.is_raw() {
            Action::Done
        } else {
            Action::Respond(ctx.response.build())
        }
    }

    /// Takes what happened last and says what is to be done next. Before a
    /// handler is to be invoked, the captures of its route are put into the
    /// context. After a failure the response is replaced by the error
    /// response. Once the request is finished every step answers `Done`.
    pub fn step<S>(&mut self, ctx: &mut MiddlewareContext<S>, event: Event) -> (action: Action)
        ensures
            (final(self)@, final(ctx)@, action@) == step_model(old(self)@, old(ctx)@, event),
            final(ctx).socket == old(ctx).socket,
    {
        if self.finished {
            return Action::Done;
        }
        match event {
            Event::HandlerFailed => {
                let mut response = ResponseBuilder::default();
                response.write("internal server error".as_bytes());
                response.status_code(INTERNAL_SERVER_ERROR);
                ctx.response = response;
                assert(ctx@.response.body =~= failure_response().body);
                return self.conclude(ctx);
            },
            Event::HandlerSucceeded => {
                if ctx.has_ended() {
                    return self.conclude(ctx);
                }
            },
            Event::Started => {},
        }
        match self.pending.pop_front() {
            Some((index, matched)) => {
                ctx.params = matched.params;
                assert(self@.pending =~= old(self)@.pending.drop_first());
                Action::Invoke(index)
            },
            None => self.conclude(ctx),
        }
    }
}

/// The selection lists exactly the routes that take the request, each once
/// and in the order of the route table: every selected index is the index of
/// a route whose method filter admits the request and whose pattern matches
/// its path, with the captures of that match; the indices grow along the
/// selection; and every such route is selected.
pub proof fn lemma_selection<H>(request: RequestView, routes: Seq<Route<H>>)
    requires
        routes.len() <= usize::MAX,
    ensures
        forall|k: int|
            0 <= k < selection(request, routes).len() ==> {
                let picked = #[trigger] selection(request, routes)[k];
                &&& picked.0 < routes.len()
                &&& admits(routes[picked.0 as int].method, request.method)
                &&& match_model(path_of(request), routes[picked.0 as int].path@) == Some(
                    picked.1.params,
                )
                &&& picked.1.path == path_of(request)
            },
        forall|j: int, k: int|
            0 <= j < k < selection(request, routes).len() ==> (#[trigger] selection(
                request,
                routes,
            )[j]).0 < (#[trigger] selection(request, routes)[k]).0,
        forall|i: int|
            0 <= i < routes.len() && admits(
                (#[trigger] routes[i]).method,
                request.method,
            ) && match_model(path_of(request), routes[i].path@).is_some() ==> exists|k: int|
                0 <= k < selection(request, routes).len() && (#[trigger] selection(
                    request,
                    routes,
                )[k]).0 == i,
    decreases routes.len(),
{
    if routes.len() > 0 {
        let earlier_routes = routes.drop_last();
        lemma_selection(request, earlier_routes);
        let earlier = selection(request, earlier_routes);
        let all = selection(request, routes);
        let route = routes.last();
        let last = routes.len() - 1;
        let taken = admits(route.method, request.method) && match_model(
            path_of(request),
            route.path@,
        ).is_some();
        assert(all.len() == earlier.len() + (if taken { 1int } else { 0int }));
        assert forall|k: int| 0 <= k < earlier.len() implies #[trigger] all[k] == earlier[k]
            && earlier[k].0 < last by {
            assert(earlier[k].0 < earlier_routes.len());
        }
        assert forall|k: int| 0 <= k < all.len() implies {
            let picked = #[trigger] all[k];
            &&& picked.0 < routes.len()
            &&& admits(routes[picked.0 as int].method, request.method)
            &&& match_model(path_of(request), routes[picked.0 as int].path@) == Some(
                picked.1.params,
            )
            &&& picked.1.path == path_of(request)
        } by {
            if k < earlier.len() {
                assert(all[k] == earlier[k]);
                assert(earlier_routes[earlier[k].0 as int] == routes[earlier[k].0 as int]);
            } else {
                assert(all[k].0 == last);
            }
        }
        assert forall|j: int, k: int| 0 <= j < k < all.len() implies (#[trigger] all[j]).0 < (
        #[trigger] all[k]).0 by {
            assert(all[j] == earlier[j]);
            if k < earlier.len() {
                assert(all[k] == earlier[k]);
            } else {
                assert(all[k].0 == last);
            }
        }
        assert forall|i: int|
            0 <= i < routes.len() && admits(
                (#[trigger] routes[i]).method,
                request.method,
            ) && match_model(path_of(request), routes[i].path@).is_some() implies exists|k: int|
            0 <= k < all.len() && (#[trigger] all[k]).0 == i by {
            if i < last {
                assert(earlier_routes[i] == routes[i]);
                let k = choose|k: int| 0 <= k < earlier.len() && (#[trigger] earlier[k]).0 == i;
                assert(all[k].0 == i);
            } else {
                assert(taken);
                assert(all[earlier.len() as int].0 == i);
            }
        }
    }
}

/// What the chain answers to a run of reports. Each report is made with the
/// context as the handlers have left it by then, which may be any context.
pub open spec fn answers(chain: ChainView, reports: Seq<(ContextView, Event)>) -> Seq<ActionView>
    decreases reports.len(),
{
    if reports.len() == 0 {
        Seq::empty()
    } else {
        let stepped = step_model(chain, reports[0].0, reports[0].1);
        seq![stepped.2] + answers(stepped.0, reports.drop_first())
    }
}

/// A finished chain answers `Done` to every report.
pub proof fn lemma_finished_chain_is_done(chain: ChainView, reports: Seq<(ContextView, Event)>)
    requires
        chain.finished,
    ensures
        answers(chain, reports).len() == reports.len(),
        forall|i: int| 0 <= i < reports.len() ==> answers(chain, reports)[i] == ActionView::Done,
    decreases reports.len(),
{
    if reports.len() > 0 {
        lemma_finished_chain_is_done(chain, reports.drop_first());
    }
}

/// The answers to a run are the answers to its first `k` reports, then the
/// answer to report `k`, given by the chain as those reports left it.
proof fn lemma_answers_at(chain: ChainView, reports: Seq<(ContextView, Event)>, k: int) -> (before:
    ChainView)
    requires
        0 <= k < reports.len(),
    ensures
        answers(chain, reports).len() == reports.len(),
        answers(chain, reports)[k] == step_model(before, reports[k].0, reports[k].1).2,
        answers(chain, reports).skip(k + 1) == answers(
            step_model(before, reports[k].0, reports[k].1).0,
            reports.skip(k + 1),
        ),
        chain.finished ==> before.finished,
    decreases reports.len(),
{
    let stepped = step_model(chain, reports[0].0, reports[0].1);
    let later = reports.drop_first();
    lemma_answers_length(stepped.0, later);
    if k == 0 {
        assert(answers(chain, reports).skip(1) =~= answers(stepped.0, later));
        assert(reports.skip(1) =~= later);
        chain
    } else {
        let before = lemma_answers_at(stepped.0, later, k - 1);
        assert(later.skip(k) =~= reports.skip(k + 1));
        assert(answers(chain, reports).skip(k + 1) =~= answers(stepped.0, later).skip(k));
        before
    }
}

/// There is one answer to each report.
proof fn lemma_answers_length(chain: ChainView, reports: Seq<(ContextView, Event)>)
    ensures
        answers(chain, reports).len() == reports.len(),
    decreases reports.len(),
{
    if reports.len() > 0 {
        lemma_answers_length(
            step_model(chain, reports[0].0, reports[0].1).0,
            reports.drop_first(),
        );
    }
}

/// Once a handler has returned with the request ended, no handler is
/// invoked any more: the answer to that report is not `Invoke`, and every
/// later answer is `Done`, whatever is reported and whatever routes are
/// still pending.
pub proof fn lemma_ended_request_invokes_no_handler(
    chain: ChainView,
    reports: Seq<(ContextView, Event)>,
    k: int,
)
    requires
        0 <= k < reports.len(),
        reports[k].1 == Event::HandlerSucceeded,
        reports[k].0.ended,
    ensures
        answers(chain, reports).len() == reports.len(),
        !(answers(chain, reports)[k] is Invoke),
        forall|i: int| k < i < reports.len() ==> answers(chain, reports)[i] == ActionView::Done,
{
    let before = lemma_answers_at(chain, reports, k);
    let stepped = step_model(before, reports[k].0, reports[k].1);
    assert(stepped.0.finished);
    lemma_finished_chain_is_done(stepped.0, reports.skip(k + 1));
    assert forall|i: int| k < i < reports.len() implies answers(chain, reports)[i]
        == ActionView::Done by {
        assert(answers(chain, reports)[i] == answers(chain, reports).skip(k + 1)[i - k - 1]);
    }
}

/// After a handler has failed, the response is the error response: status
/// 500 and the fixed body, with nothing of what the handlers have set or
/// written. Its bytes are what is written out, unless a handler has taken
/// the connection over, and no handler is invoked any more.
pub proof fn lemma_failed_handler_gives_error_response(
    chain: ChainView,
    ctx: ContextView,
    later: Seq<(ContextView, Event)>,
)
    requires
        !chain.finished,
    ensures
        ({
            let stepped = step_model(chain, ctx, Event::HandlerFailed);
            &&& stepped.1.response == failure_response()
            &&& stepped.1.response.status_code == 500
            &&& stepped.1.response.body == encode_utf8("internal server error"@)
            &&& stepped.1.response.headers == Map::<Seq<char>, Seq<char>>::empty()
            &&& !ctx.raw ==> stepped.2 == ActionView::Respond(
                response_bytes(failure_response(), reason_phrase(500)),
            )
            &&& ctx.raw ==> stepped.2 == ActionView::Done
            &&& forall|i: int|
                0 <= i < later.len() ==> answers(stepped.0, later)[i] == ActionView::Done
        }),
{
    let stepped = step_model(chain, ctx, Event::HandlerFailed);
    lemma_finished_chain_is_done(stepped.0, later);
}

} // verus!

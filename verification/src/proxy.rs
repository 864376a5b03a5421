//! Forwarding a chat completion request along the fleet.
//!
//! The endpoints are tried one after the other, in the order the ranking
//! gives. An endpoint that cannot be reached, that answers with an error
//! status, that does not answer in time, or whose body cannot be read is
//! passed over for the next one. A streaming request is answered with the
//! first endpoint that accepts it; when every endpoint fails the request is
//! answered `502 Bad Gateway`.
//!
//! The chain is a state machine: the caller performs each step it returns
//! (sending the request, reading the body) and hands the outcome back.
use vstd::prelude::*;
use crate::ranking::{is_down, law_all_down_nothing_tried, law_every_endpoint_tried_once, ordered_view, try_order};

verus! {

/// The path of the chat completion API on an engine.
pub open spec fn completions_path() -> Seq<char> {
    "/v1/chat/completions"@
}

/// The path of the Prometheus metrics on an engine.
pub open spec fn metrics_path() -> Seq<char> {
    "/metrics"@
}

/// Where the chat completion API of the engine at `endpoint` is.
pub fn completions_url(endpoint: &str) -> (url: String)
    ensures
        url@ == endpoint@ + completions_path(),
{
    endpoint.to_owned().concat("/v1/chat/completions")
}

/// Where the metrics of the engine at `base` are.
pub fn metrics_url(base: &str) -> (url: String)
    ensures
        url@ == base@ + metrics_path(),
{
    base.to_owned().concat("/metrics")
}

/// How an attempt to send the request to an engine ended.
#[derive(Debug, Clone, Copy, PartialEq, Eq, Structural)]
pub enum ConnectOutcome {
    /// The engine answered with a success status.
    Accepted,
    /// The engine answered with this status, which is not a success.
    Refused(u16),
    /// The request could not be sent.
    SendFailed,
    /// No answer came in time.
    TimedOut,
}

/// What the caller of a [`FallbackChain`] reports back.
#[derive(Debug, Clone, Copy, PartialEq, Eq, Structural)]
pub enum ChainEvent {
    /// The request has arrived; nothing has been tried yet.
    Begin,
    /// The outcome of sending the request to the current endpoint.
    Connected(ConnectOutcome),
    /// Whether the body of the current endpoint's answer was read whole.
    BodyRead(bool),
}

/// What the caller of a [`FallbackChain`] is to do next.
#[derive(Debug, Clone, PartialEq, Eq)]
pub enum ProxyStep {
    /// Send the request to endpoint `index` of the chain, at `url`.
    Send { index: usize, url: String },
    /// Answer `200` with the engine's answer streamed as server-sent events.
    StreamBody,
    /// Read the whole body of the engine's answer.
    ReadBody,
    /// Answer `200` with the body that was read.
    ReplyBody,
    /// Answer `502 Bad Gateway`: every endpoint failed.
    BadGateway,
}

/// Where a chain stands.
#[derive(Debug, Clone, Copy, PartialEq, Eq, Structural)]
pub enum Phase {
    /// Nothing tried yet.
    Ready,
    /// Waiting for the outcome of sending to the current endpoint.
    Connecting,
    /// Waiting for the body of the current endpoint's answer.
    Reading,
    /// The request has been answered.
    Finished,
}

/// The abstract state of a chain: how many endpoints have been tried, and the
/// phase.
pub struct ChainModel {
    pub tried: int,
    pub phase: Phase,
}

/// The abstract form of a [`ProxyStep`]; `Ignored` answers an event that the
/// phase does not expect.
pub enum StepModel {
    Send(int),
    StreamBody,
    ReadBody,
    ReplyBody,
    BadGateway,
    Ignored,
}

/// Moving on to the next endpoint, out of `n`, after `tried` have been tried.
pub open spec fn move_on(n: int, tried: int) -> (ChainModel, StepModel) {
    if tried < n {
        (ChainModel { tried: tried + 1, phase: Phase::Connecting }, StepModel::Send(tried))
    } else {
        (ChainModel { tried, phase: Phase::Finished }, StepModel::BadGateway)
    }
}

/// The event fits the phase.
pub open spec fn expects(phase: Phase, ev: ChainEvent) -> bool {
    match ev {
        ChainEvent::Begin => phase == Phase::Ready,
        ChainEvent::Connected(_) => phase == Phase::Connecting,
        ChainEvent::BodyRead(_) => phase == Phase::Reading,
    }
}

/// One transition of a chain over `n` endpoints.
pub open spec fn chain_step(n: int, stream: bool, m: ChainModel, ev: ChainEvent) -> (ChainModel, StepModel) {
    if !expects(m.phase, ev) {
        (m, StepModel::Ignored)
    } else {
        match ev {
            ChainEvent::Begin => move_on(n, m.tried),
            ChainEvent::Connected(ConnectOutcome::Accepted) => if stream {
                (ChainModel { tried: m.tried, phase: Phase::Finished }, StepModel::StreamBody)
            } else {
                (ChainModel { tried: m.tried, phase: Phase::Reading }, StepModel::ReadBody)
            },
            ChainEvent::Connected(_) => move_on(n, m.tried),
            ChainEvent::BodyRead(true) => (
                ChainModel { tried: m.tried, phase: Phase::Finished },
                StepModel::ReplyBody,
            ),
            ChainEvent::BodyRead(false) => move_on(n, m.tried),
        }
    }
}

/// The abstract form of a step.
pub open spec fn step_model(s: ProxyStep) -> StepModel {
    match s {
        ProxyStep::Send { index, url } => StepModel::Send(index as int),
        ProxyStep::StreamBody => StepModel::StreamBody,
        ProxyStep::ReadBody => StepModel::ReadBody,
        ProxyStep::ReplyBody => StepModel::ReplyBody,
        ProxyStep::BadGateway => StepModel::BadGateway,
    }
}

/// The fallback chain of one request.
pub struct FallbackChain {
    endpoints: Vec<String>,
    stream: bool,
    tried: usize,
    phase: Phase,
}

impl FallbackChain {
    /// The endpoints, in the order they are tried.
    pub closed spec fn endpoints(&self) -> Seq<Seq<char>> {
        self.endpoints@.map_values(|s: String| s@)
    }

    /// The request asks for a streamed answer.
    pub closed spec fn is_stream(&self) -> bool {
        self.stream
    }

    /// How many endpoints have been tried, and the phase.
    pub closed spec fn model(&self) -> ChainModel {
        ChainModel { tried: self.tried as int, phase: self.phase }
    }

    /// Internal consistency: no more endpoints tried than there are, and one
    /// tried whenever an answer is awaited.
    pub closed spec fn wf(&self) -> bool {
        &&& self.tried <= self.endpoints@.len()
        &&& (self.phase == Phase::Connecting || self.phase == Phase::Reading) ==> self.tried >= 1
    }

    /// A chain over `endpoints`, in that order, for a request that asks for a
    /// streamed answer or not.
    pub fn new(endpoints: Vec<String>, stream: bool) -> (c: FallbackChain)
        ensures
            c.wf(),
            c.endpoints() == endpoints@.map_values(|s: String| s@),
            c.is_stream() == stream,
            c.model() == (ChainModel { tried: 0, phase: Phase::Ready }),
    {
        FallbackChain { endpoints, stream, tried: 0, phase: Phase::Ready }
    }

    /// Whether the chain expects `ev` now.
    pub fn expects(&self, ev: &ChainEvent) -> (b: bool)
        ensures
            b == expects(self.model().phase, *ev),
    {
        match ev {
            ChainEvent::Begin => self.phase == Phase::Ready,
            ChainEvent::Connected(_) => self.phase == Phase::Connecting,
            ChainEvent::BodyRead(_) => self.phase == Phase::Reading,
        }
    }

    /// Moves on to the next endpoint, or gives up when none is left.
    fn move_on(&mut self) -> (s: ProxyStep)
        requires
            old(self).wf(),
        ensures
            final(self).wf(),
            final(self).endpoints() == old(self).endpoints(),
            final(self).is_stream() == old(self).is_stream(),
            (final(self).model(), step_model(s)) == move_on(
                old(self).endpoints().len() as int,
                old(self).model().tried,
            ),
            s matches ProxyStep::Send { index, url } ==> url@ == old(self).endpoints()[index as int]
                + completions_path(),
    {
        if self.tried < self.endpoints.len() {
            let index = self.tried;
            let url = completions_url(self.endpoints[index].as_str());
            self.tried = index + 1;
            self.phase = Phase::Connecting;
            ProxyStep::Send { index, url }
        } else {
            self.phase = Phase::Finished;
            ProxyStep::BadGateway
        }
    }

    /// Takes the next event and says what to do next.
    ///
    /// `Begin` tries the first endpoint. A connection that is accepted is
    /// streamed back for a streaming request, and its body read otherwise;
    /// any other outcome, and a body that cannot be read, moves on to the
    /// next endpoint. A body read whole is the answer. When no endpoint is
    /// left, the answer is `502 Bad Gateway`.
    pub fn step(&mut self, ev: ChainEvent) -> (s: ProxyStep)
        requires
            old(self).wf(),
            expects(old(self).model().phase, ev),
        ensures
            final(self).wf(),
            final(self).endpoints() == old(self).endpoints(),
            final(self).is_stream() == old(self).is_stream(),
            (final(self).model(), step_model(s)) == chain_step(
                old(self).endpoints().len() as int,
                old(self).is_stream(),
                old(self).model(),
                ev,
            ),
            s matches ProxyStep::Send { index, url } ==> url@ == old(self).endpoints()[index as int]
                + completions_path(),
    {
        match ev {
            ChainEvent::Begin => self.move_on(),
            ChainEvent::Connected(ConnectOutcome::Accepted) => {
                if self.stream {
                    self.phase = Phase::Finished;
                    ProxyStep::StreamBody
                } else {
                    self.phase = Phase::Reading;
                    ProxyStep::ReadBody
                }
            },
            ChainEvent::Connected(_) => self.move_on(),
            ChainEvent::BodyRead(true) => {
                self.phase = Phase::Finished;
                ProxyStep::ReplyBody
            },
            ChainEvent::BodyRead(false) => self.move_on(),
        }
    }
}


/// Feeding the events `evs` to a chain over `n` endpoints in state `m`: the
/// final state and the steps returned, one per event.
pub open spec fn run(n: int, stream: bool, m: ChainModel, evs: Seq<ChainEvent>) -> (ChainModel, Seq<StepModel>)
    decreases evs.len(),
{
    if evs.len() == 0 {
        (m, Seq::empty())
    } else {
        let (m1, first) = chain_step(n, stream, m, evs[0]);
        let (last, rest) = run(n, stream, m1, evs.drop_first());
        (last, seq![first] + rest)
    }
}

/// The endpoints that the steps send to, in order.
pub open spec fn sends(steps: Seq<StepModel>) -> Seq<int>
    decreases steps.len(),
{
    if steps.len() == 0 {
        Seq::empty()
    } else {
        match steps[0] {
            StepModel::Send(i) => seq![i] + sends(steps.drop_first()),
            _ => sends(steps.drop_first()),
        }
    }
}

/// The step answers the request.
pub open spec fn is_answer(s: StepModel) -> bool {
    s is StreamBody || s is ReplyBody || s is BadGateway
}

/// How many of the steps answer the request.
pub open spec fn answers(steps: Seq<StepModel>) -> nat
    decreases steps.len(),
{
    if steps.len() == 0 {
        0
    } else {
        (if is_answer(steps[0]) { 1nat } else { 0nat }) + answers(steps.drop_first())
    }
}

/// The integers from `a` up to, not including, `b`.
pub open spec fn count_from(a: int, b: int) -> Seq<int> {
    Seq::new((b - a) as nat, |k: int| a + k)
}

proof fn lemma_run(n: int, stream: bool, m: ChainModel, evs: Seq<ChainEvent>)
    requires
        0 <= m.tried <= n,
    ensures
        ({
            let (last, steps) = run(n, stream, m, evs);
            &&& m.tried <= last.tried <= n
            &&& sends(steps) == count_from(m.tried, last.tried)
            &&& steps.contains(StepModel::BadGateway) ==> last.tried == n
            &&& answers(steps) <= (if m.phase == Phase::Finished { 0nat } else { 1nat })
            &&& answers(steps) == 1 ==> last.phase == Phase::Finished
            &&& m.phase == Phase::Finished ==> last == m
            &&& m.phase == Phase::Finished ==> forall|k: int| 0 <= k < steps.len() ==> #[trigger] steps[k] is Ignored
            &&& steps.contains(StepModel::BadGateway) ==> !steps.contains(StepModel::StreamBody)
                && !steps.contains(StepModel::ReplyBody)
        }),
    decreases evs.len(),
{
    if evs.len() > 0 {
        let (m1, first) = chain_step(n, stream, m, evs[0]);
        lemma_run(n, stream, m1, evs.drop_first());
        let (last, rest) = run(n, stream, m1, evs.drop_first());
        let steps = seq![first] + rest;
        assert(steps.drop_first() =~= rest);
        assert(steps[0] == first);
        lemma_contains_concat(seq![first], rest, StepModel::BadGateway);
        lemma_contains_concat(seq![first], rest, StepModel::StreamBody);
        lemma_contains_concat(seq![first], rest, StepModel::ReplyBody);
        if is_answer(first) {
            assert(m1.phase == Phase::Finished);
            assert(!rest.contains(StepModel::StreamBody));
            assert(!rest.contains(StepModel::ReplyBody));
            assert(!rest.contains(StepModel::BadGateway));
        }
        if m.phase == Phase::Finished {
            assert forall|k: int| 0 <= k < steps.len() implies #[trigger] steps[k] is Ignored by {
                if k > 0 {
                    assert(steps[k] == rest[k - 1]);
                }
            }
        }
        if first is Send {
            assert(count_from(m.tried, last.tried) =~= seq![m.tried] + count_from(m1.tried, last.tried));
        } else {
            assert(count_from(m.tried, last.tried) =~= count_from(m1.tried, last.tried));
        }
        if steps.contains(StepModel::BadGateway) {
            let k = choose|k: int| 0 <= k < steps.len() && steps[k] == StepModel::BadGateway;
            if k > 0 {
                assert(rest[k - 1] == StepModel::BadGateway);
                assert(rest.contains(StepModel::BadGateway));
            }
        }
    } else {
        assert(count_from(m.tried, m.tried) =~= Seq::<int>::empty());
    }
}

/// `x` is in `a + b` exactly when it is in `a` or in `b`.
pub proof fn lemma_contains_concat<A>(a: Seq<A>, b: Seq<A>, x: A)
    ensures
        (a + b).contains(x) <==> (a.contains(x) || b.contains(x)),
{
    if (a + b).contains(x) {
        let k = choose|k: int| 0 <= k < (a + b).len() && (a + b)[k] == x;
        if k >= a.len() {
            assert(b[k - a.len()] == x);
        } else {
            assert(a[k] == x);
        }
    }
    if a.contains(x) {
        let k = choose|k: int| 0 <= k < a.len() && a[k] == x;
        assert((a + b)[k] == x);
    }
    if b.contains(x) {
        let k = choose|k: int| 0 <= k < b.len() && b[k] == x;
        assert((a + b)[k + a.len()] == x);
    }
}

/// Whatever events a request's chain is fed from its start: it sends to the
/// endpoints in the order of the ranking, each at most once; it answers
/// `502 Bad Gateway` only after it has sent to every endpoint; and it
/// answers the request at most once.
pub proof fn law_fallback_in_order(n: int, stream: bool, evs: Seq<ChainEvent>)
    requires
        0 <= n,
    ensures
        ({
            let (last, steps) = run(n, stream, ChainModel { tried: 0, phase: Phase::Ready }, evs);
            &&& sends(steps) == count_from(0, last.tried)
            &&& 0 <= last.tried <= n
            &&& steps.contains(StepModel::BadGateway) ==> sends(steps) == count_from(0, n)
            &&& answers(steps) <= 1
        }),
{
    lemma_run(n, stream, ChainModel { tried: 0, phase: Phase::Ready }, evs);
}


/// Feeding `a` and then `b` is feeding `a + b`.
pub proof fn lemma_run_concat(n: int, stream: bool, m: ChainModel, a: Seq<ChainEvent>, b: Seq<ChainEvent>)
    ensures
        run(n, stream, m, a + b).0 == run(n, stream, run(n, stream, m, a).0, b).0,
        run(n, stream, m, a + b).1 == run(n, stream, m, a).1 + run(n, stream, run(n, stream, m, a).0, b).1,
    decreases a.len(),
{
    if a.len() > 0 {
        assert((a + b)[0] == a[0]);
        assert((a + b).drop_first() =~= a.drop_first() + b);
        let (m1, first) = chain_step(n, stream, m, a[0]);
        lemma_run_concat(n, stream, m1, a.drop_first(), b);
        let mid = run(n, stream, m1, a.drop_first());
        let tail = run(n, stream, mid.0, b);
        assert(seq![first] + (mid.1 + tail.1) =~= (seq![first] + mid.1) + tail.1);
    } else {
        assert(a + b =~= b);
        assert(run(n, stream, m, a).1 + run(n, stream, m, b).1 =~= run(n, stream, m, b).1);
    }
}

/// The sends of two runs one after the other.
pub proof fn lemma_sends_concat(x: Seq<StepModel>, y: Seq<StepModel>)
    ensures
        sends(x + y) == sends(x) + sends(y),
    decreases x.len(),
{
    if x.len() > 0 {
        assert((x + y)[0] == x[0]);
        assert((x + y).drop_first() =~= x.drop_first() + y);
        lemma_sends_concat(x.drop_first(), y);
        match x[0] {
            StepModel::Send(i) => {
                assert(seq![i] + (sends(x.drop_first()) + sends(y)) =~= (seq![i] + sends(x.drop_first())) + sends(y));
            },
            _ => {},
        }
    } else {
        assert(x + y =~= y);
        assert(sends(x) + sends(y) =~= sends(y));
    }
}

/// The events of one attempt at an endpoint that failed: the request could
/// not be sent, was refused, or got no answer in time; or, for a request
/// that is not streamed, it was accepted but its body could not be read.
pub open spec fn is_failed_attempt(stream: bool, evs: Seq<ChainEvent>) -> bool {
    ||| (evs.len() == 1 && (evs[0] matches ChainEvent::Connected(o) && o != ConnectOutcome::Accepted))
    ||| (!stream && evs == seq![
        ChainEvent::Connected(ConnectOutcome::Accepted),
        ChainEvent::BodyRead(false),
    ])
}

/// The events of an attempt that succeeded: accepted, and for a request that
/// is not streamed, its body read whole.
pub open spec fn successful_attempt(stream: bool) -> Seq<ChainEvent> {
    if stream {
        seq![ChainEvent::Connected(ConnectOutcome::Accepted)]
    } else {
        seq![ChainEvent::Connected(ConnectOutcome::Accepted), ChainEvent::BodyRead(true)]
    }
}

/// The events of several attempts, one after the other.
pub open spec fn joined(attempts: Seq<Seq<ChainEvent>>) -> Seq<ChainEvent>
    decreases attempts.len(),
{
    if attempts.len() == 0 {
        Seq::empty()
    } else {
        attempts[0] + joined(attempts.drop_first())
    }
}

/// The state of a chain that waits for endpoint `j - 1` to answer.
pub open spec fn connecting(j: int) -> ChainModel {
    ChainModel { tried: j, phase: Phase::Connecting }
}

/// The sends of a single step.
proof fn lemma_sends_single(x: StepModel)
    ensures
        sends(seq![x]) == (match x {
            StepModel::Send(i) => seq![i],
            _ => Seq::<int>::empty(),
        }),
{
    reveal_with_fuel(sends, 2);
    assert(seq![x].drop_first() =~= Seq::<StepModel>::empty());
    match x {
        StepModel::Send(i) => {
            assert(seq![i] + Seq::<int>::empty() =~= seq![i]);
        },
        _ => {},
    }
}

/// Feeding a single event.
proof fn lemma_run_single(n: int, stream: bool, m: ChainModel, ev: ChainEvent)
    ensures
        run(n, stream, m, seq![ev]).0 == chain_step(n, stream, m, ev).0,
        run(n, stream, m, seq![ev]).1 == seq![chain_step(n, stream, m, ev).1],
{
    reveal_with_fuel(run, 2);
    assert(seq![ev].drop_first() =~= Seq::<ChainEvent>::empty());
    assert(seq![chain_step(n, stream, m, ev).1] + Seq::<StepModel>::empty() =~= seq![chain_step(n, stream, m, ev).1]);
}

/// Feeding two events.
proof fn lemma_run_pair(n: int, stream: bool, m: ChainModel, e1: ChainEvent, e2: ChainEvent)
    ensures
        run(n, stream, m, seq![e1, e2]).0 == chain_step(n, stream, chain_step(n, stream, m, e1).0, e2).0,
        run(n, stream, m, seq![e1, e2]).1 == seq![
            chain_step(n, stream, m, e1).1,
            chain_step(n, stream, chain_step(n, stream, m, e1).0, e2).1,
        ],
{
    assert(seq![e1, e2] =~= seq![e1] + seq![e2]);
    lemma_run_concat(n, stream, m, seq![e1], seq![e2]);
    lemma_run_single(n, stream, m, e1);
    lemma_run_single(n, stream, chain_step(n, stream, m, e1).0, e2);
    assert(seq![chain_step(n, stream, m, e1).1] + seq![chain_step(n, stream, chain_step(n, stream, m, e1).0, e2).1] =~= seq![
        chain_step(n, stream, m, e1).1,
        chain_step(n, stream, chain_step(n, stream, m, e1).0, e2).1,
    ]);
}

proof fn lemma_failed_attempt(n: int, stream: bool, j: int, evs: Seq<ChainEvent>)
    requires
        1 <= j <= n,
        is_failed_attempt(stream, evs),
    ensures
        ({
            let (last, steps) = run(n, stream, connecting(j), evs);
            &&& !steps.contains(StepModel::StreamBody)
            &&& !steps.contains(StepModel::ReplyBody)
            &&& if j < n {
                &&& last == connecting(j + 1)
                &&& sends(steps) == seq![j]
                &&& !steps.contains(StepModel::BadGateway)
            } else {
                &&& last == (ChainModel { tried: n, phase: Phase::Finished })
                &&& sends(steps) == Seq::<int>::empty()
                &&& steps.len() > 0
                &&& steps.last() == StepModel::BadGateway
            }
        }),
{
    let m = connecting(j);
    let moved = move_on(n, j);
    if evs.len() == 1 {
        assert(evs =~= seq![evs[0]]);
        lemma_run_single(n, stream, m, evs[0]);
        let steps = run(n, stream, m, evs).1;
        assert(steps[0] == moved.1);
        lemma_sends_single(moved.1);
        if steps.contains(StepModel::StreamBody) || steps.contains(StepModel::ReplyBody) || (j < n && steps.contains(StepModel::BadGateway)) {
            assert(steps[0] == moved.1);
        }
        assert(steps.drop_first() =~= Seq::<StepModel>::empty());
    } else {
        let m1 = ChainModel { tried: j, phase: Phase::Reading };
        lemma_run_pair(n, stream, m, evs[0], evs[1]);
        assert(evs =~= seq![evs[0], evs[1]]);
        assert(chain_step(n, stream, m, evs[0]) == (m1, StepModel::ReadBody));
        let steps = run(n, stream, m, evs).1;
        assert(steps =~= seq![StepModel::ReadBody, moved.1]);
        assert(steps =~= seq![StepModel::ReadBody] + seq![moved.1]);
        lemma_sends_concat(seq![StepModel::ReadBody], seq![moved.1]);
        lemma_sends_single(StepModel::ReadBody);
        lemma_sends_single(moved.1);
        assert(Seq::<int>::empty() + sends(seq![moved.1]) =~= sends(seq![moved.1]));
        assert(steps.drop_first() =~= seq![moved.1]);
        assert(steps.drop_first().drop_first() =~= Seq::<StepModel>::empty());
        if steps.contains(StepModel::StreamBody) || steps.contains(StepModel::ReplyBody) || (j < n && steps.contains(StepModel::BadGateway)) {
            let k = choose|k: int| 0 <= k < steps.len() && (steps[k] == StepModel::StreamBody || steps[k] == StepModel::ReplyBody || (j < n && steps[k] == StepModel::BadGateway));
            assert(k == 0 || k == 1);
        }
    }
}

proof fn lemma_failed_attempts(n: int, stream: bool, j: int, attempts: Seq<Seq<ChainEvent>>)
    requires
        1 <= j <= n,
        j + attempts.len() <= n + 1,
        forall|k: int| 0 <= k < attempts.len() ==> is_failed_attempt(stream, #[trigger] attempts[k]),
    ensures
        ({
            let (last, steps) = run(n, stream, connecting(j), joined(attempts));
            &&& !steps.contains(StepModel::StreamBody)
            &&& !steps.contains(StepModel::ReplyBody)
            &&& if j + attempts.len() <= n {
                &&& last == connecting(j + attempts.len())
                &&& sends(steps) == count_from(j, j + attempts.len())
                &&& !steps.contains(StepModel::BadGateway)
            } else {
                &&& last == (ChainModel { tried: n, phase: Phase::Finished })
                &&& sends(steps) == count_from(j, n)
                &&& steps.len() > 0
                &&& steps.last() == StepModel::BadGateway
            }
        }),
    decreases attempts.len(),
{
    if attempts.len() == 0 {
        assert(count_from(j, j) =~= Seq::<int>::empty());
        assert(!Seq::<StepModel>::empty().contains(StepModel::StreamBody));
        assert(!Seq::<StepModel>::empty().contains(StepModel::ReplyBody));
        assert(!Seq::<StepModel>::empty().contains(StepModel::BadGateway));
    } else {
        let a0 = attempts[0];
        let rest = attempts.drop_first();
        assert forall|k: int| 0 <= k < rest.len() implies is_failed_attempt(stream, #[trigger] rest[k]) by {
            assert(rest[k] == attempts[k + 1]);
        }
        lemma_failed_attempt(n, stream, j, a0);
        lemma_run_concat(n, stream, connecting(j), a0, joined(rest));
        let (m1, s1) = run(n, stream, connecting(j), a0);
        let s2 = run(n, stream, m1, joined(rest)).1;
        lemma_sends_concat(s1, s2);
        lemma_contains_concat(s1, s2, StepModel::StreamBody);
        lemma_contains_concat(s1, s2, StepModel::ReplyBody);
        lemma_contains_concat(s1, s2, StepModel::BadGateway);
        if j < n {
            lemma_failed_attempts(n, stream, j + 1, rest);
            if j + attempts.len() <= n {
                assert(seq![j] + count_from(j + 1, j + attempts.len()) =~= count_from(j, j + attempts.len()));
            } else {
                assert(seq![j] + count_from(j + 1, n) =~= count_from(j, n));
                assert((s1 + s2).last() == s2.last());
            }
        } else {
            assert(rest.len() == 0);
            assert(joined(rest) =~= Seq::<ChainEvent>::empty());
            assert(s2 =~= Seq::<StepModel>::empty());
            assert(s1 + s2 =~= s1);
            assert(count_from(j, n) =~= Seq::<int>::empty());
            assert(!s2.contains(StepModel::StreamBody));
            assert(!s2.contains(StepModel::ReplyBody));
        }
    }
}

/// When every endpoint's attempt fails, the request is answered `502 Bad
/// Gateway`, after one attempt at each endpoint in the order of the
/// ranking, and is not answered otherwise; with no endpoint to try it is
/// answered so at once, with nothing sent.
pub proof fn law_all_fail_bad_gateway(n: int, stream: bool, attempts: Seq<Seq<ChainEvent>>)
    requires
        0 <= n,
        attempts.len() == n,
        forall|k: int| 0 <= k < attempts.len() ==> is_failed_attempt(stream, #[trigger] attempts[k]),
    ensures
        ({
            let (last, steps) = run(
                n,
                stream,
                ChainModel { tried: 0, phase: Phase::Ready },
                seq![ChainEvent::Begin] + joined(attempts),
            );
            &&& steps.len() > 0
            &&& steps.last() == StepModel::BadGateway
            &&& sends(steps) == count_from(0, n)
            &&& !steps.contains(StepModel::StreamBody)
            &&& !steps.contains(StepModel::ReplyBody)
            &&& last.phase == Phase::Finished
        }),
{
    let start = ChainModel { tried: 0, phase: Phase::Ready };
    let begin = seq![ChainEvent::Begin];
    lemma_run_concat(n, stream, start, begin, joined(attempts));
    lemma_run_single(n, stream, start, ChainEvent::Begin);
    let (m1, s1) = run(n, stream, start, begin);
    assert(s1 =~= seq![move_on(n, 0).1]);
    lemma_sends_single(move_on(n, 0).1);
    assert(s1.drop_first() =~= Seq::<StepModel>::empty());
    let s2 = run(n, stream, m1, joined(attempts)).1;
    lemma_sends_concat(s1, s2);
    lemma_contains_concat(s1, s2, StepModel::StreamBody);
    lemma_contains_concat(s1, s2, StepModel::ReplyBody);
    if s1.contains(StepModel::StreamBody) || s1.contains(StepModel::ReplyBody) {
        assert(s1[0] == move_on(n, 0).1);
    }
    if n == 0 {
        assert(joined(attempts) =~= Seq::<ChainEvent>::empty());
        assert(s2 =~= Seq::<StepModel>::empty());
        assert(s1 + s2 =~= s1);
        assert(count_from(0, 0) =~= Seq::<int>::empty());
    } else {
        assert(m1 == connecting(1));
        lemma_failed_attempts(n, stream, 1, attempts);
        assert(seq![0int] + count_from(1, n) =~= count_from(0, n));
        assert((s1 + s2).last() == s2.last());
    }
}

/// The first attempt that succeeds answers the request: a streamed request
/// with the stream, any other with the body read; no endpoint is sent to
/// after it, whatever events follow, and the answer is never `502`.
pub proof fn law_first_success_answers(
    n: int,
    stream: bool,
    failures: Seq<Seq<ChainEvent>>,
    more: Seq<ChainEvent>,
)
    requires
        failures.len() < n,
        forall|k: int| 0 <= k < failures.len() ==> is_failed_attempt(stream, #[trigger] failures[k]),
    ensures
        ({
            let (last, steps) = run(
                n,
                stream,
                ChainModel { tried: 0, phase: Phase::Ready },
                seq![ChainEvent::Begin] + joined(failures) + successful_attempt(stream) + more,
            );
            &&& sends(steps) == count_from(0, failures.len() + 1int)
            &&& steps.contains(if stream { StepModel::StreamBody } else { StepModel::ReplyBody })
            &&& !steps.contains(StepModel::BadGateway)
            &&& last.phase == Phase::Finished
        }),
{
    let start = ChainModel { tried: 0, phase: Phase::Ready };
    let k: int = failures.len() as int;
    let begin = seq![ChainEvent::Begin];
    let succ = successful_attempt(stream);
    let e1 = begin + joined(failures);
    let e2 = e1 + succ;
    lemma_run_concat(n, stream, start, e2, more);
    lemma_run_concat(n, stream, start, e1, succ);
    lemma_run_concat(n, stream, start, begin, joined(failures));
    // Begin
    lemma_run_single(n, stream, start, ChainEvent::Begin);
    let (m1, s1) = run(n, stream, start, begin);
    assert(s1 =~= seq![StepModel::Send(0)]);
    lemma_sends_single(StepModel::Send(0));
    assert(s1.drop_first() =~= Seq::<StepModel>::empty());
    assert(m1 == connecting(1));
    assert(!s1.contains(StepModel::BadGateway)) by {
        if s1.contains(StepModel::BadGateway) {
            assert(s1[0] == StepModel::Send(0));
        }
    }
    // The failed attempts.
    lemma_failed_attempts(n, stream, 1, failures);
    let (m2, s2) = run(n, stream, m1, joined(failures));
    assert(m2 == connecting(k + 1));
    // The successful attempt.
    let fin = ChainModel { tried: k + 1, phase: Phase::Finished };
    let (m3, s3) = run(n, stream, m2, succ);
    let answer = if stream { StepModel::StreamBody } else { StepModel::ReplyBody };
    if stream {
        lemma_run_single(n, stream, m2, ChainEvent::Connected(ConnectOutcome::Accepted));
        assert(s3 =~= seq![StepModel::StreamBody]);
        lemma_sends_single(StepModel::StreamBody);
        assert(s3.drop_first() =~= Seq::<StepModel>::empty());
    } else {
        lemma_run_pair(n, stream, m2, ChainEvent::Connected(ConnectOutcome::Accepted), ChainEvent::BodyRead(true));
        assert(s3 =~= seq![StepModel::ReadBody, StepModel::ReplyBody]);
        assert(s3 =~= seq![StepModel::ReadBody] + seq![StepModel::ReplyBody]);
        lemma_sends_concat(seq![StepModel::ReadBody], seq![StepModel::ReplyBody]);
        lemma_sends_single(StepModel::ReadBody);
        lemma_sends_single(StepModel::ReplyBody);
        assert(s3.drop_first() =~= seq![StepModel::ReplyBody]);
        assert(s3.drop_first().drop_first() =~= Seq::<StepModel>::empty());
    }
    assert(m3 == fin);
    assert(sends(s3) =~= Seq::<int>::empty());
    assert(s3.contains(answer)) by {
        assert(s3[s3.len() - 1] == answer);
    }
    assert(!s3.contains(StepModel::BadGateway)) by {
        if s3.contains(StepModel::BadGateway) {
            let i = choose|i: int| 0 <= i < s3.len() && s3[i] == StepModel::BadGateway;
            assert(i == 0 || i == 1);
        }
    }
    // Whatever follows is ignored.
    lemma_run(n, stream, fin, more);
    let (m4, s4) = run(n, stream, m3, more);
    assert(sends(s4) =~= Seq::<int>::empty()) by {
        assert(count_from(k + 1, k + 1) =~= Seq::<int>::empty());
    }
    assert(!s4.contains(StepModel::BadGateway)) by {
        if s4.contains(StepModel::BadGateway) {
            let i = choose|i: int| 0 <= i < s4.len() && s4[i] == StepModel::BadGateway;
            assert(s4[i] is Ignored);
        }
    }
    lemma_sends_concat(s1, s2);
    lemma_sends_concat(s1 + s2, s3);
    lemma_sends_concat(s1 + s2 + s3, s4);
    lemma_contains_concat(s1, s2, StepModel::BadGateway);
    lemma_contains_concat(s1 + s2, s3, StepModel::BadGateway);
    lemma_contains_concat(s1 + s2 + s3, s4, StepModel::BadGateway);
    lemma_contains_concat(s1 + s2, s3, answer);
    lemma_contains_concat(s1 + s2 + s3, s4, answer);
    assert(seq![0int] + count_from(1, k + 1) =~= count_from(0, k + 1));
    assert(count_from(0, k + 1) + Seq::<int>::empty() + Seq::<int>::empty() =~= count_from(0, k + 1));
}

/// An engine that the scraper marked down gets no request: a chain over the
/// endpoints in the try order sends only to endpoints not marked down,
/// whatever events it is fed; and when every endpoint is marked down, it
/// answers `502 Bad Gateway` at once, sending nothing.
pub proof fn law_no_traffic_to_down_engines(
    endpoints: Seq<Seq<char>>,
    scores: Seq<Option<u64>>,
    top: Option<Seq<char>>,
    stream: bool,
    evs: Seq<ChainEvent>,
)
    requires
        scores.len() == endpoints.len(),
    ensures
        ({
            let order = try_order(endpoints, scores, top);
            let n = ordered_view(endpoints, scores, top).len() as int;
            let (last, steps) = run(n, stream, ChainModel { tried: 0, phase: Phase::Ready }, evs);
            &&& forall|k: int|
                0 <= k < sends(steps).len() ==> {
                    let i = order[#[trigger] sends(steps)[k]];
                    0 <= i < endpoints.len() && !is_down(scores[i])
                }
            &&& (forall|i: int| 0 <= i < scores.len() ==> is_down(#[trigger] scores[i])) ==> {
                &&& sends(steps).len() == 0
                &&& (evs.len() > 0 && evs[0] == ChainEvent::Begin) ==> steps[0] == StepModel::BadGateway
            }
        }),
{
    let order = try_order(endpoints, scores, top);
    let n = ordered_view(endpoints, scores, top).len() as int;
    let start = ChainModel { tried: 0, phase: Phase::Ready };
    law_every_endpoint_tried_once(endpoints, scores, top);
    law_fallback_in_order(n, stream, evs);
    let (last, steps) = run(n, stream, start, evs);
    assert(order.len() == n);
    assert(sends(steps).len() == last.tried);
    assert forall|k: int| 0 <= k < sends(steps).len() implies {
        let i = order[#[trigger] sends(steps)[k]];
        0 <= i < endpoints.len() && !is_down(scores[i])
    } by {
        assert(sends(steps)[k] == k);
        assert(0 <= k < order.len());
    }
    if forall|i: int| 0 <= i < scores.len() ==> is_down(#[trigger] scores[i]) {
        law_all_down_nothing_tried(endpoints, scores, top);
        assert(n == 0);
        if evs.len() > 0 && evs[0] == ChainEvent::Begin {
            let (m1, first) = chain_step(n, stream, start, evs[0]);
            assert(first == StepModel::BadGateway);
            assert(steps == seq![first] + run(n, stream, m1, evs.drop_first()).1);
            assert(steps[0] == first);
        }
    }
}

/// The event that closes a stream of server-sent events.
pub open spec fn done_event() -> Seq<char> {
    "data: [DONE]\n\n"@
}

/// The frame sent in place of the rest of a stream when the engine fails
/// mid-stream: an error event naming the failure, then the closing event.
/// The failure's text is put in as it is.
pub open spec fn upstream_error_frame(detail: Seq<char>) -> Seq<char> {
    "data: {\"error\":\"upstream_error\",\"detail\":\""@ + detail + "\"}\n\n"@ + done_event()
}

/// The frame sent when the engine stops sending mid-stream.
pub open spec fn upstream_stalled_frame() -> Seq<char> {
    "data: {\"error\":\"upstream_stalled\"}\n\n"@ + done_event()
}

/// What became of the wait for the next piece of a streamed answer.
#[derive(Debug, Clone, PartialEq, Eq)]
pub enum ChunkEvent {
    /// A piece arrived.
    Data,
    /// The engine finished its answer.
    End,
    /// The engine's answer broke off with this error.
    Failed(String),
    /// Nothing arrived in time.
    Stalled,
}

/// What to do with the stream sent to the client.
#[derive(Debug, Clone, PartialEq, Eq)]
pub enum RelayAction {
    /// Pass the piece on.
    Forward,
    /// End the stream.
    Finish,
    /// Send this frame, then end the stream.
    EmitAndFinish(String),
}

/// Decides what a streamed answer does with the next event from the engine.
pub fn relay(ev: ChunkEvent) -> (a: RelayAction)
    ensures
        match ev {
            ChunkEvent::Data => a == RelayAction::Forward,
            ChunkEvent::End => a == RelayAction::Finish,
            ChunkEvent::Failed(detail) => a matches RelayAction::EmitAndFinish(f) && f@
                == upstream_error_frame(detail@),
            ChunkEvent::Stalled => a matches RelayAction::EmitAndFinish(f) && f@
                == upstream_stalled_frame(),
        },
{
    match ev {
        ChunkEvent::Data => RelayAction::Forward,
        ChunkEvent::End => RelayAction::Finish,
        ChunkEvent::Failed(detail) => {
            let frame = "data: {\"error\":\"upstream_error\",\"detail\":\"".to_owned().concat(
                detail.as_str(),
            ).concat("\"}\n\n").concat("data: [DONE]\n\n");
            RelayAction::EmitAndFinish(frame)
        },
        ChunkEvent::Stalled => {
            let frame = "data: {\"error\":\"upstream_stalled\"}\n\n".to_owned().concat(
                "data: [DONE]\n\n",
            );
            RelayAction::EmitAndFinish(frame)
        },
    }
}

/// Every frame that ends a stream early ends with the closing event, so the
/// client sees a properly closed stream whatever went wrong.
pub proof fn law_early_end_closes_stream(detail: Seq<char>)
    ensures
        upstream_error_frame(detail).len() >= done_event().len(),
        upstream_error_frame(detail).subrange(
            upstream_error_frame(detail).len() - done_event().len(),
            upstream_error_frame(detail).len() as int,
        ) == done_event(),
        upstream_stalled_frame().len() >= done_event().len(),
        upstream_stalled_frame().subrange(
            upstream_stalled_frame().len() - done_event().len(),
            upstream_stalled_frame().len() as int,
        ) == done_event(),
{
    let e = upstream_error_frame(detail);
    let s = upstream_stalled_frame();
    assert(e.subrange(e.len() - done_event().len(), e.len() as int) =~= done_event());
    assert(s.subrange(s.len() - done_event().len(), s.len() as int) =~= done_event());
}

} // verus!

//! The engine behind a queue of commands: what is answered, what is published, and which
//! trades are remembered.
use std::collections::VecDeque;
use vstd::prelude::*;

use crate::engine::{refused_for, Engine};
use crate::model::{refusal, EngineView};
use crate::queue::best_levels;
use crate::types::{
    BookDelta, EngineError, NewOrder, OrderBookSnapshot, OrderId, SubmitResult, Trade,
};

verus! {

/// How many trades are remembered.
pub const TRADE_HISTORY: usize = 10_000;

/// How many levels of each side a published book shows.
pub const PUBLISHED_DEPTH: usize = 50;

#[derive(Clone, Debug)]
pub enum MarketEvent {
    Trade(Trade),
    BookUpdate { snapshot: OrderBookSnapshot },
}

/// `event` publishes the book of an engine in this state.
pub open spec fn publishes(event: MarketEvent, state: EngineView) -> bool {
    event matches MarketEvent::BookUpdate { snapshot } && snapshot.bids@ == best_levels(
        state.book.bids,
        PUBLISHED_DEPTH as nat,
    ) && snapshot.asks@ == best_levels(state.book.asks, PUBLISHED_DEPTH as nat)
}

/// The event that publishes the engine's book.
pub fn publish_book(engine: &Engine) -> (event: MarketEvent)
    requires
        engine.wf(),
    ensures
        publishes(event, engine@),
{
    MarketEvent::BookUpdate { snapshot: engine.snapshot(PUBLISHED_DEPTH) }
}

/// Submits an order: the answer, and the events to publish, which are the trades and then the
/// book. A refused order publishes nothing.
pub fn run_submit(engine: &mut Engine, order: NewOrder) -> (outcome: (
    Result<SubmitResult, EngineError>,
    Vec<MarketEvent>,
))
    requires
        old(engine).wf(),
        refusal(order) is None ==> old(engine)@.has_room(order),
    ensures
        final(engine).wf(),
        match refusal(order) {
            Some(reason) => {
                &&& outcome.0 is Err
                &&& refused_for(outcome.0->Err_0, reason)
                &&& outcome.1@.len() == 0
                &&& final(engine)@ == old(engine)@
            },
            None => {
                let n = outcome.0->Ok_0.trades@.len();
                &&& outcome.0 is Ok
                &&& old(engine)@.submit_reported(order, outcome.0->Ok_0)
                &&& final(engine)@ == old(engine)@.submitted(order)
                &&& outcome.1@.len() == n + 1
                &&& forall|i: int|
                    0 <= i < n ==> #[trigger] outcome.1@[i] == MarketEvent::Trade(
                        outcome.0->Ok_0.trades@[i],
                    )
                &&& publishes(outcome.1@[n as int], final(engine)@)
            },
        },
{
    let mut events: Vec<MarketEvent> = Vec::new();
    match engine.submit(order) {
        Err(e) => (Err(e), events),
        Ok((result, _)) => {
            let mut i: usize = 0;
            while i < result.trades.len()
                invariant
                    i <= result.trades@.len(),
                    events@.len() == i,
                    forall|k: int|
                        0 <= k < i ==> #[trigger] events@[k] == MarketEvent::Trade(
                            result.trades@[k],
                        ),
                decreases result.trades@.len() - i,
            {
                events.push(MarketEvent::Trade(result.trades[i]));
                i = i + 1;
            }
            events.push(publish_book(engine));
            (Ok(result), events)
        },
    }
}

/// Cancels an order: the answer, and the book to publish where the order was cancelled.
pub fn run_cancel(engine: &mut Engine, order_id: OrderId) -> (outcome: (
    Result<(), EngineError>,
    Vec<MarketEvent>,
))
    requires
        old(engine).wf(),
    ensures
        final(engine).wf(),
        if !old(engine)@.orders.contains_key(order_id.0) {
            &&& outcome.0 == Err::<(), EngineError>(EngineError::OrderNotFound)
            &&& outcome.1@.len() == 0
            &&& final(engine)@ == old(engine)@
        } else if !old(engine)@.book.rests(order_id.0) {
            &&& outcome.0 == Err::<(), EngineError>(
                EngineError::NotCancellable(order_id.0, old(engine)@.orders[order_id.0].status),
            )
            &&& outcome.1@.len() == 0
            &&& final(engine)@ == old(engine)@
        } else {
            &&& outcome.0 is Ok
            &&& outcome.1@.len() == 1
            &&& publishes(outcome.1@[0], final(engine)@)
            &&& final(engine)@ == old(engine)@.cancelled(order_id.0)
        },
{
    let mut events: Vec<MarketEvent> = Vec::new();
    match engine.cancel(order_id) {
        Err(e) => (Err(e), events),
        Ok(_) => {
            events.push(publish_book(engine));
            (Ok(()), events)
        },
    }
}

/// Why a command got no answer.
#[derive(Debug, Clone, Copy, PartialEq, Eq, Structural)]
pub enum Undelivered {
    /// The engine takes no more commands.
    Stopped,
    /// The engine took the command and went away.
    Dropped,
}

/// The error for a command that got no answer.
pub fn undelivered(why: Undelivered) -> (e: EngineError)
    ensures
        refused_for(
            e,
            match why {
                Undelivered::Stopped => "engine stopped"@,
                Undelivered::Dropped => "engine dropped response"@,
            },
        ),
{
    match why {
        Undelivered::Stopped => EngineError::InvalidOrder("engine stopped".to_string()),
        Undelivered::Dropped => EngineError::InvalidOrder("engine dropped response".to_string()),
    }
}

/// The last `n` of a sequence, or all of it where it is no longer.
pub open spec fn last_of(s: Seq<Trade>, n: nat) -> Seq<Trade> {
    if s.len() <= n {
        s
    } else {
        s.skip(s.len() - n)
    }
}

/// The most recent trades, oldest first.
#[derive(Debug, Clone)]
pub struct TradeHistory {
    trades: VecDeque<Trade>,
}

impl View for TradeHistory {
    type V = Seq<Trade>;

    closed spec fn view(&self) -> Seq<Trade> {
        self.trades@
    }
}

impl TradeHistory {
    /// No more trades than are to be remembered.
    pub open spec fn wf(&self) -> bool {
        self@.len() <= TRADE_HISTORY
    }

    pub fn new() -> (history: TradeHistory)
        ensures
            history.wf(),
            history@ == Seq::<Trade>::empty(),
    {
        TradeHistory { trades: VecDeque::with_capacity(TRADE_HISTORY) }
    }

    /// Remembers a trade, and forgets the oldest one where there are too many.
    pub fn push_trade(&mut self, trade: Trade)
        requires
            old(self).wf(),
        ensures
            final(self).wf(),
            final(self)@ == last_of(old(self)@.push(trade), TRADE_HISTORY as nat),
    {
        if self.trades.len() >= TRADE_HISTORY {
            self.trades.pop_front();
        }
        self.trades.push_back(trade);
        assert(self@ =~= last_of(old(self)@.push(trade), TRADE_HISTORY as nat));
    }

    /// The last `limit` trades, oldest first.
    pub fn recent(&self, limit: usize) -> (trades: Vec<Trade>)
        ensures
            trades@ == last_of(self@, limit as nat),
    {
        let n = self.trades.len();
        let start = if n > limit {
            n - limit
        } else {
            0
        };
        let mut recent: Vec<Trade> = Vec::new();
        let mut i: usize = start;
        while i < n
            invariant
                n == self.trades@.len(),
                start <= i <= n,
                recent@ == self.trades@.subrange(start as int, i as int),
            decreases n - i,
        {
            recent.push(self.trades[i]);
            i = i + 1;
            assert(recent@ =~= self.trades@.subrange(start as int, i as int));
        }
        assert(recent@ =~= last_of(self@, limit as nat));
        recent
    }
}

/// The history of a sequence of trades, each remembered in turn.
pub open spec fn remembered(trades: Seq<Trade>) -> Seq<Trade>
    decreases trades.len(),
{
    if trades.len() == 0 {
        Seq::empty()
    } else {
        last_of(remembered(trades.drop_last()).push(trades.last()), TRADE_HISTORY as nat)
    }
}

/// However many trades there were, the history holds the last of them, in their order.
pub proof fn law_history_is_recent(trades: Seq<Trade>)
    ensures
        remembered(trades) == last_of(trades, TRADE_HISTORY as nat),
    decreases trades.len(),
{
    if trades.len() > 0 {
        law_history_is_recent(trades.drop_last());
    }
    assert(remembered(trades) =~= last_of(trades, TRADE_HISTORY as nat));
}

/// What is remembered comes back from its end: as many trades as asked for or as there are, the
/// last one last.
pub proof fn law_recent(history: TradeHistory, limit: usize, recent: Vec<Trade>)
    requires
        call_ensures(TradeHistory::recent, (&history, limit), recent),
    ensures
        recent@.len() <= limit,
        recent@.len() <= history@.len(),
        recent@.len() == limit || recent@.len() == history@.len(),
        forall|i: int|
            0 <= i < recent@.len() ==> #[trigger] recent@[recent@.len() - 1 - i]
                == history@[history@.len() - 1 - i],
{
}

/// The trade remembered last comes back last, behind what one trade less would have given before
/// it was remembered.
pub proof fn law_recent_after_push(
    history: &mut TradeHistory,
    trade: Trade,
    limit: usize,
    earlier: Vec<Trade>,
    recent: Vec<Trade>,
)
    requires
        old(history).wf(),
        call_ensures(TradeHistory::push_trade, (history, trade), ()),
        0 < limit <= 10_000,
        call_ensures(TradeHistory::recent, (&*old(history), (limit - 1) as usize), earlier),
        call_ensures(TradeHistory::recent, (&*final(history), limit), recent),
    ensures
        recent@ == earlier@.push(trade),
{
    assert(recent@ =~= earlier@.push(trade));
}

/// A trade remembered comes last, behind all that was remembered before, of which only the oldest
/// is forgotten, and only where ten thousand were remembered.
pub proof fn law_push(history: &mut TradeHistory, trade: Trade)
    requires
        old(history).wf(),
        call_ensures(TradeHistory::push_trade, (history, trade), ()),
    ensures
        final(history)@.len() > 0,
        final(history)@.last() == trade,
        old(history)@.len() < 10_000 ==> final(history)@.drop_last() == old(history)@,
        old(history)@.len() >= 10_000 ==> final(history)@.drop_last()
            == old(history)@.drop_first(),
        final(history)@.len() <= 10_000,
{
    assert(old(history)@.len() < 10_000 ==> final(history)@.drop_last() =~= old(history)@);
    assert(old(history)@.len() >= 10_000 ==> final(history)@.drop_last()
        =~= old(history)@.drop_first());
}

/// A new history remembers nothing.
pub proof fn law_new_history(history: TradeHistory, limit: usize, recent: Vec<Trade>)
    requires
        call_ensures(TradeHistory::new, (), history),
        call_ensures(TradeHistory::recent, (&history, limit), recent),
    ensures
        recent@.len() == 0,
{
}

/// The published book is the snapshot of the engine with fifty levels.
pub proof fn law_publish(engine: Engine, event: MarketEvent, snapshot: OrderBookSnapshot)
    requires
        engine.wf(),
        call_ensures(publish_book, (&engine,), event),
        call_ensures(Engine::snapshot, (&engine, 50usize), snapshot),
    ensures
        event matches MarketEvent::BookUpdate { snapshot: published } && published.bids@
            == snapshot.bids@ && published.asks@ == snapshot.asks@,
{
}

/// Two trades that differ at most in the time.
pub open spec fn same_but_time(a: Trade, b: Trade) -> bool {
    a == Trade { timestamp_ns: a.timestamp_ns, ..b }
}

/// A submit through the service does and answers what a submit to the engine does and answers,
/// the times on the trades aside.
pub proof fn law_run_submit(
    engine: &mut Engine,
    twin: &mut Engine,
    order: NewOrder,
    outcome: (Result<SubmitResult, EngineError>, Vec<MarketEvent>),
    answer: Result<(SubmitResult, Vec<BookDelta>), EngineError>,
)
    requires
        old(engine).wf(),
        *old(engine) == *old(twin),
        call_ensures(run_submit, (engine, order), outcome),
        call_ensures(Engine::submit, (twin, order), answer),
    ensures
        final(engine)@ == final(twin)@,
        outcome.0 is Ok <==> answer is Ok,
        answer is Err ==> {
            &&& outcome.0->Err_0 is InvalidOrder
            &&& answer->Err_0 is InvalidOrder
            &&& outcome.0->Err_0->InvalidOrder_0@ == answer->Err_0->InvalidOrder_0@
        },
        answer is Ok ==> {
            let a = outcome.0->Ok_0;
            let b = answer->Ok_0.0;
            &&& a.order_id == b.order_id
            &&& a.status == b.status
            &&& a.filled_qty == b.filled_qty
            &&& a.remaining_qty == b.remaining_qty
            &&& a.cancelled_qty == b.cancelled_qty
            &&& a.client_order_id == b.client_order_id
            &&& a.reject_reason is Some <==> b.reject_reason is Some
            &&& a.reject_reason is Some ==> a.reject_reason->0@ == b.reject_reason->0@
            &&& a.trades@.len() == b.trades@.len()
            &&& forall|i: int|
                0 <= i < a.trades@.len() ==> same_but_time(#[trigger] a.trades@[i], b.trades@[i])
        },
{
    if answer is Ok {
        let a = outcome.0->Ok_0;
        let b = answer->Ok_0.0;
        assert forall|i: int| 0 <= i < a.trades@.len() implies same_but_time(
            #[trigger] a.trades@[i],
            b.trades@[i],
        ) by {
            assert(b.trades@[i].id == a.trades@[i].id);
        }
    }
}

/// What a submit publishes: the trades that it answers, in their order, and then the book as it
/// is left, fifty levels of it; and nothing where the order is refused.
pub proof fn law_submit_published(
    engine: &mut Engine,
    order: NewOrder,
    outcome: (Result<SubmitResult, EngineError>, Vec<MarketEvent>),
    snapshot: OrderBookSnapshot,
)
    requires
        old(engine).wf(),
        call_ensures(run_submit, (engine, order), outcome),
        call_ensures(Engine::snapshot, (&*final(engine), 50usize), snapshot),
    ensures
        outcome.0 is Err ==> outcome.1@.len() == 0,
        outcome.0 is Ok ==> {
            let trades = outcome.0->Ok_0.trades@;
            &&& outcome.1@.len() == trades.len() + 1
            &&& forall|i: int|
                0 <= i < trades.len() ==> #[trigger] outcome.1@[i] == MarketEvent::Trade(trades[i])
            &&& outcome.1@.last() matches MarketEvent::BookUpdate { snapshot: published }
                && published.bids@ == snapshot.bids@ && published.asks@ == snapshot.asks@
        },
{
}

/// A cancellation through the service does and answers what one of the engine does and answers.
/// It publishes the book as it is left, fifty levels of it, where the order was cancelled.
pub proof fn law_run_cancel(
    engine: &mut Engine,
    twin: &mut Engine,
    id: OrderId,
    outcome: (Result<(), EngineError>, Vec<MarketEvent>),
    answer: Result<Vec<BookDelta>, EngineError>,
    snapshot: OrderBookSnapshot,
)
    requires
        old(engine).wf(),
        *old(engine) == *old(twin),
        call_ensures(run_cancel, (engine, id), outcome),
        call_ensures(Engine::cancel, (twin, id), answer),
        call_ensures(Engine::snapshot, (&*final(engine), 50usize), snapshot),
    ensures
        final(engine)@ == final(twin)@,
        outcome.0 is Ok <==> answer is Ok,
        answer is Err ==> outcome.0->Err_0 == answer->Err_0 && outcome.1@.len() == 0,
        answer is Ok ==> {
            &&& outcome.1@.len() == 1
            &&& outcome.1@[0] matches MarketEvent::BookUpdate { snapshot: published }
                && published.bids@ == snapshot.bids@ && published.asks@ == snapshot.asks@
        },
{
}

/// A command that got no answer fails with the reason why.
pub proof fn law_undelivered(why: Undelivered, e: EngineError)
    requires
        call_ensures(undelivered, (why,), e),
    ensures
        e is InvalidOrder,
        why == Undelivered::Stopped ==> e->InvalidOrder_0@ == "engine stopped"@,
        why == Undelivered::Dropped ==> e->InvalidOrder_0@ == "engine dropped response"@,
{
}

} // verus!

//! One subscriber of the market: which events it gets, and when it is let go.
use vstd::prelude::*;
use vstd::string::*;

use crate::service::MarketEvent;
use crate::text::same_text;
use crate::types::{OrderBookSnapshot, Trade};

verus! {

/// What a subscriber says.
#[derive(Debug)]
pub struct WsClientMessage {
    pub op: String,
    pub channels: Option<Vec<String>>,
}

/// What a subscriber is told.
#[derive(Debug)]
pub enum WsServerMessage {
    Trade { data: Trade },
    Book { data: OrderBookSnapshot },
}

/// What happens to a session.
pub enum SessionEvent {
    /// A text came from the subscriber; `None` where it is no message.
    Text(Option<WsClientMessage>),
    /// The subscriber has closed the connection, or it has broken.
    Gone,
    /// Something else came from the subscriber.
    Other,
    /// Something happened in the market.
    Market(MarketEvent),
    /// Events of the market were lost, because the subscriber is slow.
    Lagged,
    /// No more events will come from the market.
    MarketClosed,
}

/// What is to be done about it.
pub enum SessionAction {
    Wait,
    Send(WsServerMessage),
    Stop,
}

/// Whether one of the channels has this name.
pub open spec fn names(channels: Seq<String>, channel: Seq<char>) -> bool {
    exists|i: int| 0 <= i < channels.len() && (#[trigger] channels[i])@ == channel
}

fn has_channel(channels: &Vec<String>, channel: &str) -> (found: bool)
    ensures
        found == names(channels@, channel@),
{
    let mut i: usize = 0;
    while i < channels.len()
        invariant
            i <= channels@.len(),
            forall|k: int| 0 <= k < i ==> (#[trigger] channels@[k])@ != channel@,
        decreases channels@.len() - i,
    {
        if same_text(&channels[i], channel) {
            return true;
        }
        i = i + 1;
    }
    false
}

/// Which events a subscriber wants.
#[derive(Debug, Clone, Copy, PartialEq, Eq, Structural)]
pub struct Subscription {
    pub want_trades: bool,
    pub want_book: bool,
}

impl Subscription {
    /// A new subscriber gets everything.
    pub fn new() -> (s: Subscription)
        ensures
            s == (Subscription { want_trades: true, want_book: true }),
    {
        Subscription { want_trades: true, want_book: true }
    }

    /// What the subscriber wants after a message: a subscription that names channels replaces
    /// what was wanted by the known ones among them. Nothing else changes it.
    pub open spec fn after(self, message: Option<WsClientMessage>) -> Subscription {
        match message {
            Some(m) => if m.op@ == "subscribe"@ && m.channels is Some && m.channels->0@.len() > 0 {
                Subscription {
                    want_trades: names(m.channels->0@, "trades"@),
                    want_book: names(m.channels->0@, "book"@),
                }
            } else {
                self
            },
            None => self,
        }
    }

    /// Takes a message of the subscriber.
    pub fn heard(&mut self, message: Option<WsClientMessage>)
        ensures
            *final(self) == old(self).after(message),
    {
        if let Some(message) = message {
            if same_text(&message.op, "subscribe") {
                if let Some(channels) = message.channels {
                    if channels.len() > 0 {
                        self.want_trades = has_channel(&channels, "trades");
                        self.want_book = has_channel(&channels, "book");
                    }
                }
            }
        }
    }

    /// What is to be done about an event, for a subscriber that wants this.
    pub open spec fn reaction(self, event: SessionEvent) -> SessionAction {
        match event {
            SessionEvent::Gone => SessionAction::Stop,
            SessionEvent::MarketClosed => SessionAction::Stop,
            SessionEvent::Market(MarketEvent::Trade(trade)) => if self.want_trades {
                SessionAction::Send(WsServerMessage::Trade { data: trade })
            } else {
                SessionAction::Wait
            },
            SessionEvent::Market(MarketEvent::BookUpdate { snapshot }) => if self.want_book {
                SessionAction::Send(WsServerMessage::Book { data: snapshot })
            } else {
                SessionAction::Wait
            },
            SessionEvent::Text(_) => SessionAction::Wait,
            SessionEvent::Other => SessionAction::Wait,
            SessionEvent::Lagged => SessionAction::Wait,
        }
    }

    /// Takes the next event of the session.
    pub fn step(&mut self, event: SessionEvent) -> (action: SessionAction)
        ensures
            action == old(self).reaction(event),
            *final(self) == match event {
                SessionEvent::Text(message) => old(self).after(message),
                _ => *old(self),
            },
    {
        match event {
            SessionEvent::Text(message) => {
                self.heard(message);
                SessionAction::Wait
            },
            SessionEvent::Gone => SessionAction::Stop,
            SessionEvent::Other => SessionAction::Wait,
            SessionEvent::Market(event) => match event {
                MarketEvent::Trade(trade) => if self.want_trades {
                    SessionAction::Send(WsServerMessage::Trade { data: trade })
                } else {
                    SessionAction::Wait
                },
                MarketEvent::BookUpdate { snapshot } => if self.want_book {
                    SessionAction::Send(WsServerMessage::Book { data: snapshot })
                } else {
                    SessionAction::Wait
                },
            },
            SessionEvent::Lagged => SessionAction::Wait,
            SessionEvent::MarketClosed => SessionAction::Stop,
        }
    }
}

/// After a subscription to channels the subscriber gets the trades exactly where one of the
/// channels is for trades, and the books exactly where one is for the book, whatever else is
/// named.
pub proof fn law_subscribed(
    subscription: &mut Subscription,
    later: &mut Subscription,
    message: WsClientMessage,
    answer: SessionAction,
    event: MarketEvent,
    action: SessionAction,
)
    requires
        *old(later) == *final(subscription),
        message.op@ == "subscribe"@,
        message.channels is Some,
        message.channels->0@.len() > 0,
        call_ensures(
            Subscription::step,
            (subscription, SessionEvent::Text(Some(message))),
            answer,
        ),
        call_ensures(Subscription::step, (later, SessionEvent::Market(event)), action),
    ensures
        answer is Wait,
        *final(later) == *old(later),
        match event {
            MarketEvent::Trade(trade) => if exists|i: int|
                0 <= i < message.channels->0@.len() && (#[trigger] message.channels->0@[i])@
                    == "trades"@ {
                action == SessionAction::Send(WsServerMessage::Trade { data: trade })
            } else {
                action is Wait
            },
            MarketEvent::BookUpdate { snapshot } => if exists|i: int|
                0 <= i < message.channels->0@.len() && (#[trigger] message.channels->0@[i])@
                    == "book"@ {
                action == SessionAction::Send(WsServerMessage::Book { data: snapshot })
            } else {
                action is Wait
            },
        },
{
}

/// What a subscriber wants follows the channels of a subscription.
pub proof fn law_heard(subscription: &mut Subscription, message: Option<WsClientMessage>)
    requires
        call_ensures(Subscription::heard, (subscription, message), ()),
    ensures
        match message {
            Some(m) => if m.op@ == "subscribe"@ && m.channels is Some && m.channels->0@.len() > 0 {
                &&& final(subscription).want_trades <==> exists|i: int|
                    0 <= i < m.channels->0@.len() && (#[trigger] m.channels->0@[i])@ == "trades"@
                &&& final(subscription).want_book <==> exists|i: int|
                    0 <= i < m.channels->0@.len() && (#[trigger] m.channels->0@[i])@ == "book"@
            } else {
                *final(subscription) == *old(subscription)
            },
            None => *final(subscription) == *old(subscription),
        },
{
}

/// A subscriber goes on getting what was wanted, whatever happens but a subscription to channels.
pub proof fn law_wants_stay(
    subscription: &mut Subscription,
    event: SessionEvent,
    action: SessionAction,
)
    requires
        call_ensures(Subscription::step, (subscription, event), action),
        event matches SessionEvent::Text(Some(m)) ==> m.op@ != "subscribe"@ || m.channels is None
            || m.channels->0@.len() == 0,
    ensures
        *final(subscription) == *old(subscription),
{
}

/// The session ends exactly where the subscriber is gone or the market is closed, and nothing is
/// sent but for an event of the market.
pub proof fn law_session_ends(
    subscription: &mut Subscription,
    event: SessionEvent,
    action: SessionAction,
)
    requires
        call_ensures(Subscription::step, (subscription, event), action),
    ensures
        action is Stop <==> event is Gone || event is MarketClosed,
        action is Send ==> event is Market,
{
}

/// A subscriber who has said nothing yet gets everything, as it is.
pub proof fn law_new_subscriber(
    subscription: &mut Subscription,
    event: MarketEvent,
    action: SessionAction,
)
    requires
        call_ensures(Subscription::new, (), *old(subscription)),
        call_ensures(Subscription::step, (subscription, SessionEvent::Market(event)), action),
    ensures
        match event {
            MarketEvent::Trade(trade) => action == SessionAction::Send(
                WsServerMessage::Trade { data: trade },
            ),
            MarketEvent::BookUpdate { snapshot } => action == SessionAction::Send(
                WsServerMessage::Book { data: snapshot },
            ),
        },
{
}

} // verus!

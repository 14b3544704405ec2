//! Errors in words.
use vstd::prelude::*;
use vstd::string::*;

use crate::text::{decimal, decimal_text};
use crate::types::{EngineError, OrderStatus};

verus! {

impl OrderStatus {
    /// The name of the status.
    pub open spec fn spec_name(self) -> Seq<char> {
        match self {
            OrderStatus::New => "New"@,
            OrderStatus::PartiallyFilled => "PartiallyFilled"@,
            OrderStatus::Filled => "Filled"@,
            OrderStatus::Cancelled => "Cancelled"@,
            OrderStatus::Rejected => "Rejected"@,
        }
    }

    pub fn name(&self) -> (name: &'static str)
        ensures
            name@ == self.spec_name(),
    {
        match self {
            OrderStatus::New => "New",
            OrderStatus::PartiallyFilled => "PartiallyFilled",
            OrderStatus::Filled => "Filled",
            OrderStatus::Cancelled => "Cancelled",
            OrderStatus::Rejected => "Rejected",
        }
    }
}

impl EngineError {
    /// The error in words.
    pub open spec fn spec_message(self) -> Seq<char> {
        match self {
            EngineError::OrderNotFound => "order not found"@,
            EngineError::NotCancellable(id, status) => "order "@ + decimal(id as nat)
                + " is not cancellable in status "@ + status.spec_name(),
            EngineError::InvalidOrder(reason) => "invalid order: "@ + reason@,
        }
    }

    pub fn message(&self) -> (message: String)
        ensures
            message@ == self.spec_message(),
    {
        match self {
            EngineError::OrderNotFound => "order not found".to_string(),
            EngineError::NotCancellable(id, status) => {
                let mut message = "order ".to_string();
                message.append(decimal_text(*id).as_str());
                message.append(" is not cancellable in status ");
                message.append(status.name());
                message
            },
            EngineError::InvalidOrder(reason) => {
                let mut message = "invalid order: ".to_string();
                message.append(reason.as_str());
                message
            },
        }
    }
}

/// A status is called by its name.
pub proof fn law_status_names(status: OrderStatus, name: &'static str)
    requires
        call_ensures(OrderStatus::name, (&status,), name),
    ensures
        status is New ==> name@ == "New"@,
        status is PartiallyFilled ==> name@ == "PartiallyFilled"@,
        status is Filled ==> name@ == "Filled"@,
        status is Cancelled ==> name@ == "Cancelled"@,
        status is Rejected ==> name@ == "Rejected"@,
{
}

/// An error says what it is about: the number of the order and its status, or the reason for
/// which an order was refused.
pub proof fn law_messages(
    e: EngineError,
    message: String,
    id: u64,
    number: String,
    status: OrderStatus,
    name: &'static str,
)
    requires
        call_ensures(EngineError::message, (&e,), message),
        call_ensures(decimal_text, (id,), number),
        call_ensures(OrderStatus::name, (&status,), name),
    ensures
        e is OrderNotFound ==> message@ == "order not found"@,
        e == EngineError::NotCancellable(id, status) ==> message@ == "order "@ + number@
            + " is not cancellable in status "@ + name@,
        e matches EngineError::InvalidOrder(reason) ==> message@ == "invalid order: "@ + reason@,
{
}

} // verus!

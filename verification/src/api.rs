//! Requests and answers of the server.
use vstd::prelude::*;
use vstd::std_specs::convert::FromSpecImpl;
use vstd::string::*;

use crate::engine::{refused_for, Engine};
use crate::laws::{law_quantity_conserved, traded_qty};
use crate::service::{run_submit, MarketEvent};
use crate::text::{decimal, same_text};
use crate::types::{
    EngineError, NewOrder, OrderId, OrderRecord, OrderStatus, OrderType, Side, SubmitResult,
    Trade,
};

verus! {

/// Status of an answer to a request that makes no sense.
pub const BAD_REQUEST: u16 = 400;

/// Status of an answer about an order that nobody knows.
pub const NOT_FOUND: u16 = 404;

/// Status of an answer to a request that the state of the order does not allow.
pub const CONFLICT: u16 = 409;

#[derive(Debug)]
pub struct PlaceOrderRequest {
    pub side: Side,
    pub order_type: String,
    pub price: Option<u64>,
    pub qty: u64,
    pub client_order_id: Option<u64>,
}

#[derive(Debug)]
pub struct PlaceOrderResponse {
    pub order_id: u64,
    pub status: OrderStatus,
    pub filled_qty: u64,
    pub remaining_qty: u64,
    pub trades: Vec<Trade>,
    pub reject_reason: Option<String>,
}

/// A request that failed: the status of the answer, and what is said.
#[derive(Debug)]
pub struct ApiError {
    pub status: u16,
    pub message: String,
}

/// The status that an engine error is answered with.
pub open spec fn status_of(e: EngineError) -> u16 {
    match e {
        EngineError::OrderNotFound => NOT_FOUND,
        EngineError::NotCancellable(_, _) => CONFLICT,
        EngineError::InvalidOrder(_) => BAD_REQUEST,
    }
}

impl ApiError {
    pub fn bad_request(message: String) -> (e: ApiError)
        ensures
            e == (ApiError { status: BAD_REQUEST, message }),
    {
        ApiError { status: BAD_REQUEST, message }
    }
}

impl From<EngineError> for ApiError {
    fn from(err: EngineError) -> (e: ApiError)
        ensures
            e.status == status_of(err),
            e.message@ == err.spec_message(),
    {
        let message = err.message();
        let status = match err {
            EngineError::OrderNotFound => NOT_FOUND,
            EngineError::NotCancellable(_, _) => CONFLICT,
            EngineError::InvalidOrder(_) => BAD_REQUEST,
        };
        ApiError { status, message }
    }
}

// What `from` gives holds a text, of which a contract knows the characters only: the contract
// stands on `from` itself.
impl FromSpecImpl<EngineError> for ApiError {
    open spec fn obeys_from_spec() -> bool {
        false
    }

    open spec fn from_spec(err: EngineError) -> ApiError {
        arbitrary()
    }
}

impl From<SubmitResult> for PlaceOrderResponse {
    fn from(r: SubmitResult) -> PlaceOrderResponse {
        PlaceOrderResponse {
            order_id: r.order_id.0,
            status: r.status,
            filled_qty: r.filled_qty,
            remaining_qty: r.remaining_qty,
            trades: r.trades,
            reject_reason: r.reject_reason,
        }
    }
}

impl FromSpecImpl<SubmitResult> for PlaceOrderResponse {
    open spec fn obeys_from_spec() -> bool {
        true
    }

    open spec fn from_spec(r: SubmitResult) -> PlaceOrderResponse {
        PlaceOrderResponse {
            order_id: r.order_id.0,
            status: r.status,
            filled_qty: r.filled_qty,
            remaining_qty: r.remaining_qty,
            trades: r.trades,
            reject_reason: r.reject_reason,
        }
    }
}

/// The order that a request asks for. A limit order needs a price; a market order has none.
pub fn order_of(request: PlaceOrderRequest) -> (order: Result<NewOrder, ApiError>)
    ensures
        if request.order_type@ == "limit"@ {
            match request.price {
                Some(price) => order == Ok::<NewOrder, ApiError>(
                    NewOrder {
                        side: request.side,
                        order_type: OrderType::Limit { price },
                        qty: request.qty,
                        client_order_id: request.client_order_id,
                        max_matches: None,
                    },
                ),
                None => order is Err && order->Err_0.status == BAD_REQUEST
                    && order->Err_0.message@ == "limit orders require price"@,
            }
        } else if request.order_type@ == "market"@ {
            order == Ok::<NewOrder, ApiError>(
                NewOrder {
                    side: request.side,
                    order_type: OrderType::Market,
                    qty: request.qty,
                    client_order_id: request.client_order_id,
                    max_matches: None,
                },
            )
        } else {
            order is Err && order->Err_0.status == BAD_REQUEST && order->Err_0.message@
                == "unknown order type: "@ + request.order_type@
        },
{
    let order_type = if same_text(&request.order_type, "limit") {
        match request.price {
            Some(price) => OrderType::Limit { price },
            None => {
                return Err(ApiError::bad_request("limit orders require price".to_string()));
            },
        }
    } else if same_text(&request.order_type, "market") {
        OrderType::Market
    } else {
        let mut message = "unknown order type: ".to_string();
        message.append(request.order_type.as_str());
        return Err(ApiError::bad_request(message));
    };
    Ok(
        NewOrder {
            side: request.side,
            order_type,
            qty: request.qty,
            client_order_id: request.client_order_id,
            max_matches: None,
        },
    )
}

/// A refused order is answered as a bad request that gives the reason; an unknown order as not
/// found; and one that cannot be cancelled as a conflict that names it and its status.
pub proof fn law_errors_answered(reason: Seq<char>, id: u64, status: OrderStatus)
    ensures
        forall|e: EngineError| #[trigger]
            refused_for(e, reason) ==> status_of(e) == BAD_REQUEST && e.spec_message()
                == "invalid order: "@ + reason,
        status_of(EngineError::OrderNotFound) == NOT_FOUND,
        EngineError::OrderNotFound.spec_message() == "order not found"@,
        status_of(EngineError::NotCancellable(id, status)) == CONFLICT,
        EngineError::NotCancellable(id, status).spec_message() == "order "@ + decimal(id as nat)
            + " is not cancellable in status "@ + status.spec_name(),
{
}

/// The answer to an accepted order tells of it what the engine tells: the status in which it was
/// left, what is left of it, and the trades with all that was filled.
pub proof fn law_response(
    engine: &mut Engine,
    order: NewOrder,
    outcome: (Result<SubmitResult, EngineError>, Vec<MarketEvent>),
    response: PlaceOrderResponse,
    record: Option<OrderRecord>,
)
    requires
        old(engine).wf(),
        old(engine)@.has_room(order),
        call_ensures(run_submit, (engine, order), outcome),
        outcome.0 is Ok,
        call_ensures(
            <PlaceOrderResponse as From<SubmitResult>>::from,
            (outcome.0->Ok_0,),
            response,
        ),
        call_ensures(Engine::get_order, (&*final(engine), OrderId(response.order_id)), record),
    ensures
        record is Some,
        response.order_id == old(engine)@.next_order_id,
        response.status == record->0.status,
        response.remaining_qty == record->0.qty_remaining,
        record->0.side == order.side,
        record->0.order_type == order.order_type,
        record->0.qty_original == order.qty,
        record->0.client_order_id == order.client_order_id,
        response.trades@ == outcome.0->Ok_0.trades@,
        response.filled_qty == traded_qty(response.trades@),
        response.reject_reason is Some <==> order.order_type is Market && response.filled_qty
            < order.qty,
        response.reject_reason is Some ==> response.reject_reason->0@
            == "market order unfilled remainder cancelled"@,
{
    old(engine).lemma_wf();
    law_quantity_conserved(old(engine)@, order, outcome.0->Ok_0);
}

/// Of a result nothing is changed on the way to the answer.
pub proof fn law_response_repeats(result: SubmitResult, response: PlaceOrderResponse)
    requires
        call_ensures(<PlaceOrderResponse as From<SubmitResult>>::from, (result,), response),
    ensures
        result.order_id == OrderId(response.order_id),
        result.status == response.status,
        result.filled_qty == response.filled_qty,
        result.remaining_qty == response.remaining_qty,
        result.trades == response.trades,
        result.reject_reason == response.reject_reason,
{
}

/// An engine error is answered in its own words: one that is not known as not found, one that
/// cannot be cancelled as a conflict, and an order that is refused as a bad request.
pub proof fn law_engine_errors(e: EngineError, answer: ApiError, words: String)
    requires
        call_ensures(<ApiError as From<EngineError>>::from, (e,), answer),
        call_ensures(EngineError::message, (&e,), words),
    ensures
        answer.message@ == words@,
        answer.status == 404 <==> e is OrderNotFound,
        answer.status == 409 <==> e is NotCancellable,
        answer.status == 400 <==> e is InvalidOrder,
{
}

/// A request that makes no sense is answered with what is wrong with it.
pub proof fn law_bad_request(message: String, answer: ApiError)
    requires
        call_ensures(ApiError::bad_request, (message,), answer),
    ensures
        answer.status == 400,
        answer.message == message,
{
}

/// The order asked for has the side, the quantity and the client's id of the request. It is a
/// limit order at the price of the request, or a market order; a request for anything else, or
/// for a limit order without a price, is a bad one.
pub proof fn law_order_of(request: PlaceOrderRequest, order: Result<NewOrder, ApiError>)
    requires
        call_ensures(order_of, (request,), order),
    ensures
        order is Ok ==> {
            &&& order->Ok_0.side == request.side
            &&& order->Ok_0.qty == request.qty
            &&& order->Ok_0.client_order_id == request.client_order_id
            &&& order->Ok_0.max_matches is None
        },
        order is Ok && order->Ok_0.order_type is Limit <==> request.order_type@ == "limit"@
            && request.price is Some,
        order is Ok && order->Ok_0.order_type is Limit ==> request.price == Some(
            order->Ok_0.order_type->price,
        ),
        order is Ok && order->Ok_0.order_type is Market <==> request.order_type@ == "market"@,
        order is Err ==> order->Err_0.status == 400 && order->Err_0.message@ == (
        if request.order_type@ == "limit"@ {
            "limit orders require price"@
        } else {
            "unknown order type: "@ + request.order_type@
        }),
{
    reveal_strlit("limit");
    reveal_strlit("market");
    assert("limit"@.len() != "market"@.len());
}

} // verus!

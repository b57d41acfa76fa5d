//! The requests that arrive on the queue and the responses sent back.
//!
//! Prices and quantities are in the units that `models::store` describes.
//! The payloads that no part of the engine reads yet are kept as their JSON
//! text.
use vstd::prelude::*;

use crate::models::store;

verus! {

#[derive(Debug, Clone, Copy, PartialEq, Eq, Structural)]
pub enum OrderSide {
    Buy,
    Sell,
}

#[derive(Debug, Clone, Copy, PartialEq, Eq, Structural)]
pub enum OrderType {
    Limit,
    Market,
}

impl OrderSide {
    /// The same side, as the book names it.
    pub fn to_book_side(&self) -> (s: store::OrderSide)
        ensures
            s == book_side(*self),
    {
        match self {
            OrderSide::Buy => store::OrderSide::Buy,
            OrderSide::Sell => store::OrderSide::Sell,
        }
    }
}

impl OrderType {
    /// The same type, as the book names it.
    pub fn to_book_type(&self) -> (t: store::OrderType)
        ensures
            t == book_type(*self),
    {
        match self {
            OrderType::Limit => store::OrderType::Limit,
            OrderType::Market => store::OrderType::Market,
        }
    }
}

pub open spec fn book_side(s: OrderSide) -> store::OrderSide {
    match s {
        OrderSide::Buy => store::OrderSide::Buy,
        OrderSide::Sell => store::OrderSide::Sell,
    }
}

pub open spec fn book_type(t: OrderType) -> store::OrderType {
    match t {
        OrderType::Limit => store::OrderType::Limit,
        OrderType::Market => store::OrderType::Market,
    }
}

/// Funds a new user.
#[derive(Debug)]
pub struct InitBalancePayload {
    pub user_id: String,
}

/// An order to place.
#[derive(Debug)]
pub struct CreateOrderPayload {
    pub price: Option<i64>,
    pub qty: i64,
    pub side: OrderSide,
    pub symbol: String,
    pub order_type: OrderType,
    pub user_id: String,
}

/// A request, with the id that its response must carry and the queue that
/// the response goes to.
#[derive(Debug)]
pub enum QueueRequest {
    InitUserBalance { correlation_id: String, response_queue: String, payload: InitBalancePayload },
    CreateOrder { correlation_id: String, response_queue: String, payload: CreateOrderPayload },
    GetDepth { correlation_id: String, response_queue: String, payload: String },
    GetUserBalance { correlation_id: String, response_queue: String, payload: String },
    GetOrder { correlation_id: String, response_queue: String, payload: String },
    CancelOrder { correlation_id: String, response_queue: String, payload: String },
}

/// A response: the request's correlation id, whether it succeeded, and data.
#[derive(Debug)]
pub struct QueueResponse<T> {
    pub correlation_id: String,
    pub ok: bool,
    pub data: T,
}

impl QueueRequest {
    pub open spec fn spec_correlation_id(&self) -> Seq<char> {
        match self {
            QueueRequest::InitUserBalance { correlation_id, .. } => correlation_id@,
            QueueRequest::CreateOrder { correlation_id, .. } => correlation_id@,
            QueueRequest::GetDepth { correlation_id, .. } => correlation_id@,
            QueueRequest::GetUserBalance { correlation_id, .. } => correlation_id@,
            QueueRequest::GetOrder { correlation_id, .. } => correlation_id@,
            QueueRequest::CancelOrder { correlation_id, .. } => correlation_id@,
        }
    }

    pub open spec fn spec_response_queue(&self) -> Seq<char> {
        match self {
            QueueRequest::InitUserBalance { response_queue, .. } => response_queue@,
            QueueRequest::CreateOrder { response_queue, .. } => response_queue@,
            QueueRequest::GetDepth { response_queue, .. } => response_queue@,
            QueueRequest::GetUserBalance { response_queue, .. } => response_queue@,
            QueueRequest::GetOrder { response_queue, .. } => response_queue@,
            QueueRequest::CancelOrder { response_queue, .. } => response_queue@,
        }
    }

    /// The id that the response to this request carries.
    pub fn correlation_id(&self) -> (r: &str)
        ensures
            r@ == self.spec_correlation_id(),
    {
        match self {
            QueueRequest::InitUserBalance { correlation_id, .. } => correlation_id.as_str(),
            QueueRequest::CreateOrder { correlation_id, .. } => correlation_id.as_str(),
            QueueRequest::GetDepth { correlation_id, .. } => correlation_id.as_str(),
            QueueRequest::GetUserBalance { correlation_id, .. } => correlation_id.as_str(),
            QueueRequest::GetOrder { correlation_id, .. } => correlation_id.as_str(),
            QueueRequest::CancelOrder { correlation_id, .. } => correlation_id.as_str(),
        }
    }

    /// The queue that the response to this request goes to.
    pub fn response_queue(&self) -> (r: &str)
        ensures
            r@ == self.spec_response_queue(),
    {
        match self {
            QueueRequest::InitUserBalance { response_queue, .. } => response_queue.as_str(),
            QueueRequest::CreateOrder { response_queue, .. } => response_queue.as_str(),
            QueueRequest::GetDepth { response_queue, .. } => response_queue.as_str(),
            QueueRequest::GetUserBalance { response_queue, .. } => response_queue.as_str(),
            QueueRequest::GetOrder { response_queue, .. } => response_queue.as_str(),
            QueueRequest::CancelOrder { response_queue, .. } => response_queue.as_str(),
        }
    }
}

} // verus!

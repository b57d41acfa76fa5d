use cex_v1::requests::{CreateOrderPayload, InitBalancePayload, OrderSide, OrderType, QueueRequest};
use cex_v1::models::store;
use serde_json::Value;

fn text(v: &Value, key: &str) -> String {
    v[key].as_str().unwrap().to_string()
}

#[test]
fn parses_create_order_request() {
    let payload = r#"{
          "correlationId": "0a9e3020-d0e3-47af-b6ab-6eff55924550",
          "payload": {
            "price": 9,
            "qty": 9,
            "side": "buy",
            "symbol": "BTC",
            "type": "limit",
            "userId": "0111bb09-3bd5-4551-b35a-b6c7d9e1c350"
          },
          "responseQueue": "response-queue-2219e38e-d908-45ba-9282-59425539852b",
          "type": "create_order"
        }"#;

    let value = serde_json::from_str::<Value>(payload).unwrap();
    assert_eq!(value["type"].as_str().unwrap(), "create_order");
    let body = &value["payload"];
    let request = QueueRequest::CreateOrder {
        correlation_id: text(&value, "correlationId"),
        response_queue: text(&value, "responseQueue"),
        payload: CreateOrderPayload {
            price: body["price"].as_i64(),
            qty: body["qty"].as_i64().unwrap(),
            side: if text(body, "side") == "buy" { OrderSide::Buy } else { OrderSide::Sell },
            symbol: text(body, "symbol"),
            order_type: if text(body, "type") == "limit" { OrderType::Limit } else { OrderType::Market },
            user_id: text(body, "userId"),
        },
    };

    assert_eq!(
        request.correlation_id(),
        "0a9e3020-d0e3-47af-b6ab-6eff55924550"
    );
    assert_eq!(
        request.response_queue(),
        "response-queue-2219e38e-d908-45ba-9282-59425539852b"
    );

    let QueueRequest::CreateOrder { payload, .. } = request else {
        panic!("expected create_order request");
    };

    assert_eq!(payload.symbol, "BTC");
    assert_eq!(payload.user_id, "0111bb09-3bd5-4551-b35a-b6c7d9e1c350");
}

#[test]
fn every_request_kind_reports_its_ids() {
    let make = |k: usize| {
        let c = format!("corr-{k}");
        let q = format!("queue-{k}");
        match k {
            0 => QueueRequest::InitUserBalance {
                correlation_id: c,
                response_queue: q,
                payload: InitBalancePayload { user_id: "u".to_string() },
            },
            1 => QueueRequest::GetDepth { correlation_id: c, response_queue: q, payload: "{}".to_string() },
            2 => QueueRequest::GetUserBalance { correlation_id: c, response_queue: q, payload: "{}".to_string() },
            3 => QueueRequest::GetOrder { correlation_id: c, response_queue: q, payload: "{}".to_string() },
            _ => QueueRequest::CancelOrder { correlation_id: c, response_queue: q, payload: "{}".to_string() },
        }
    };
    for k in 0..5 {
        let r = make(k);
        assert_eq!(r.correlation_id(), format!("corr-{k}"));
        assert_eq!(r.response_queue(), format!("queue-{k}"));
    }
}

#[test]
fn request_sides_and_types_map_to_book_names() {
    assert_eq!(OrderSide::Buy.to_book_side(), store::OrderSide::Buy);
    assert_eq!(OrderSide::Sell.to_book_side(), store::OrderSide::Sell);
    assert_eq!(OrderType::Limit.to_book_type(), store::OrderType::Limit);
    assert_eq!(OrderType::Market.to_book_type(), store::OrderType::Market);
}

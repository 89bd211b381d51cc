use minihttp::{encode_response, fourohfor, plan_request, RouteTable};

#[test]
fn scenario_get_root_returns_hello() {
    let mut table = RouteTable::new();
    table.get(b"/".to_vec(), 0);
    let raw = b"GET / HTTP/1.1\r\nHost: x\r\n\r\n";
    let plan = plan_request(&table, raw).unwrap();
    assert_eq!(plan.handler, Some(0));
    assert!(!plan.gzip);
    // the registered handler returns "HELLO"
    let body = "HELLO".to_string();
    let resp = encode_response(body.as_bytes(), plan.gzip).unwrap();
    assert_eq!(
        resp,
        b"HTTP/1.1 200 OK\r\nContent-Length: 5\r\n\r\nHELLO".to_vec()
    );
}

#[test]
fn gzip_negotiation_is_seen_by_the_plan() {
    let mut table = RouteTable::new();
    table.get(b"/".to_vec(), 0);
    let raw = b"GET / HTTP/1.1\r\nAccept-Encoding: deflate, gzip\r\n\r\n";
    let plan = plan_request(&table, raw).unwrap();
    assert!(plan.gzip);
    let raw = b"GET / HTTP/1.1\r\nAccept-Encoding: deflate\r\n\r\n";
    let plan = plan_request(&table, raw).unwrap();
    assert!(!plan.gzip);
}

#[test]
fn unregistered_route_is_reported_not_fatal() {
    let mut table = RouteTable::new();
    table.get(b"/home".to_vec(), 4);
    let raw = b"GET /missing HTTP/1.1\r\nHost: x\r\n\r\n";
    let plan = plan_request(&table, raw).unwrap();
    assert_eq!(plan.handler, None);
    // the default not-found handler serves a body instead of crashing
    let body = fourohfor(&plan.request);
    assert_eq!(body, "NOT_FOUND".to_string());
    // a later request to a registered route still resolves
    let raw = b"GET /home HTTP/1.1\r\nHost: x\r\n\r\n";
    let plan = plan_request(&table, raw).unwrap();
    assert_eq!(plan.handler, Some(4));
}

#[test]
fn post_plan_does_not_take_the_get_entry() {
    let mut table = RouteTable::new();
    table.get(b"/home".to_vec(), 1);
    table.post(b"/home".to_vec(), 2);
    let raw = b"POST /home HTTP/1.1\r\nHost: x\r\n\r\n";
    let plan = plan_request(&table, raw).unwrap();
    assert_eq!(plan.handler, Some(2));
}

#[test]
fn unknown_method_plans_as_get() {
    let mut table = RouteTable::new();
    table.get(b"/home".to_vec(), 1);
    let raw = b"PUT /home HTTP/1.1\r\nHost: x\r\n\r\n";
    let plan = plan_request(&table, raw).unwrap();
    assert_eq!(plan.handler, Some(1));
}

#[test]
fn malformed_request_is_an_error_value() {
    let table = RouteTable::new();
    let raw = b"BROKEN\r\n\r\n";
    assert!(plan_request(&table, raw).is_err());
}

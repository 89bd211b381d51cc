use minihttp::{HttpMethod, RouteTable, parse_method};

#[test]
fn routing_is_exact_per_method() {
    let mut table = RouteTable::new();
    table.get(b"/home".to_vec(), 1);
    table.post(b"/home".to_vec(), 2);
    assert_eq!(table.resolve(HttpMethod::GET, b"/home"), Some(1));
    assert_eq!(table.resolve(HttpMethod::POST, b"/home"), Some(2));
}

#[test]
fn routing_is_exact_per_path() {
    let mut table = RouteTable::new();
    table.get(b"/home".to_vec(), 1);
    assert_eq!(table.resolve(HttpMethod::GET, b"/home/"), None);
    assert_eq!(table.resolve(HttpMethod::GET, b"/hom"), None);
    assert_eq!(table.resolve(HttpMethod::GET, b"/home"), Some(1));
}

#[test]
fn post_request_never_hits_get_entry() {
    let mut table = RouteTable::new();
    table.get(b"/home".to_vec(), 7);
    assert_eq!(table.resolve(HttpMethod::POST, b"/home"), None);
}

#[test]
fn registration_overwrites_same_key() {
    let mut table = RouteTable::new();
    table.get(b"/".to_vec(), 1);
    table.get(b"/".to_vec(), 9);
    assert_eq!(table.resolve(HttpMethod::GET, b"/"), Some(9));
}

#[test]
fn any_entries_do_not_answer_get() {
    let mut table = RouteTable::new();
    table.any(b"/x".to_vec(), 3);
    assert_eq!(table.resolve(HttpMethod::GET, b"/x"), None);
    assert_eq!(table.resolve(HttpMethod::ANY, b"/x"), Some(3));
}

#[test]
fn unknown_methods_default_to_get() {
    assert_eq!(parse_method(b"GET"), HttpMethod::GET);
    assert_eq!(parse_method(b"POST"), HttpMethod::POST);
    assert_eq!(parse_method(b"PUT"), HttpMethod::GET);
    assert_eq!(parse_method(b"DELETE"), HttpMethod::GET);
}

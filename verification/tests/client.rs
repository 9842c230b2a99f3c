use ql_miner::client::{connect_tcp, get_template_from_any, submit_body, ConnectStep, TemplateStep};
use ql_miner::endpoint::{node_endpoints, Endpoint, Scheme};
use ql_miner::mining::Template;

fn endpoints() -> Vec<Endpoint> {
    vec![
        Endpoint { scheme: Scheme::Tls, host: "node.example".to_string(), port: 443 },
        Endpoint { scheme: Scheme::Plain, host: "node.example".to_string(), port: 8034 },
    ]
}

fn template(h: u64) -> Template {
    Template { block_height: h, previous_block_hash: vec![1], merkle_root: vec![2], difficulty_bits: 20 }
}

#[test]
fn first_endpoint_is_asked_first() {
    assert!(matches!(get_template_from_any(&endpoints(), &[]), TemplateStep::Fetch(0)));
}

#[test]
fn next_endpoint_after_a_failure() {
    let outcomes = vec![Err("tcp connect failed".to_string())];
    assert!(matches!(get_template_from_any(&endpoints(), &outcomes), TemplateStep::Fetch(1)));
}

#[test]
fn first_template_wins() {
    let outcomes = vec![Err("refused".to_string()), Ok(template(5))];
    match get_template_from_any(&endpoints(), &outcomes) {
        TemplateStep::Found(e, t) => {
            assert_eq!(e.label(), "tcp://node.example:8034");
            assert_eq!(t.block_height, 5);
        }
        _ => panic!("the template should have been found"),
    }
    let outcomes = vec![Ok(template(1)), Ok(template(2))];
    match get_template_from_any(&endpoints(), &outcomes) {
        TemplateStep::Found(e, t) => {
            assert_eq!(e.port, 443);
            assert_eq!(t.block_height, 1);
        }
        _ => panic!("the template should have been found"),
    }
}

#[test]
fn all_failures_are_reported_together() {
    let outcomes = vec![Err("timeout".to_string()), Err("HTTP 502: bad gateway".to_string())];
    match get_template_from_any(&endpoints(), &outcomes) {
        TemplateStep::Failed(m) => assert_eq!(
            m,
            "tls://node.example:443: timeout | tcp://node.example:8034: HTTP 502: bad gateway"
        ),
        _ => panic!("every endpoint failed"),
    }
    assert!(matches!(get_template_from_any(&[], &[]), TemplateStep::Failed(m) if m.is_empty()));
}

#[test]
fn connect_without_addresses_fails() {
    match connect_tcp("node.example:8080", 0, &[], 10) {
        ConnectStep::Failed(m) => assert_eq!(m, "resolve node.example:8080: no addresses"),
        _ => panic!("expected a failure"),
    }
}

#[test]
fn connect_tries_addresses_in_order() {
    assert!(matches!(connect_tcp("h:1", 3, &[], 10), ConnectStep::Attempt(0)));
    let outcomes = vec![Err("10.0.0.1:1: refused".to_string())];
    assert!(matches!(connect_tcp("h:1", 3, &outcomes, 10), ConnectStep::Attempt(1)));
}

#[test]
fn connect_stops_at_first_success() {
    let outcomes = vec![Err("a: refused".to_string()), Ok(())];
    assert!(matches!(connect_tcp("h:1", 3, &outcomes, 10), ConnectStep::Connected(1)));
}

#[test]
fn connect_failures_are_joined() {
    let outcomes = vec![Err("a: refused".to_string()), Err("b: timed out".to_string())];
    match connect_tcp("h:1", 2, &outcomes, 10) {
        ConnectStep::Failed(m) => {
            assert_eq!(m, "tcp connect h:1 timed out/failed after 10s: a: refused | b: timed out")
        }
        _ => panic!("expected a failure"),
    }
}

#[test]
fn submit_body_is_compact_json() {
    assert_eq!(submit_body("00ff", 42), "{\"miner\":\"00ff\",\"nonce\":42}");
}

#[test]
fn submit_body_escapes_the_wallet() {
    assert_eq!(
        submit_body("a\"b\\c\n\u{1}\u{e9}", 18446744073709551615),
        "{\"miner\":\"a\\\"b\\\\c\\n\\u0001\u{e9}\",\"nonce\":18446744073709551615}"
    );
}

#[test]
fn submit_body_matches_a_json_object() {
    let mut object = serde_json::Map::new();
    object.insert("nonce".to_string(), serde_json::Value::from(7u64));
    object.insert("miner".to_string(), serde_json::Value::from("w\tallet"));
    assert_eq!(submit_body("w\tallet", 7), serde_json::Value::Object(object).to_string());
}

#[test]
fn remote_host_falls_back_from_tls_to_plain() {
    let endpoints = node_endpoints("node.example:8034").unwrap();
    assert!(matches!(get_template_from_any(&endpoints, &[]), TemplateStep::Fetch(0)));
    assert_eq!(endpoints[0].scheme, Scheme::Tls);
    assert_eq!(endpoints[0].port, 443);
    let outcomes = vec![Err("handshake failed".to_string())];
    assert!(matches!(get_template_from_any(&endpoints, &outcomes), TemplateStep::Fetch(1)));
    let outcomes = vec![Err("handshake failed".to_string()), Ok(template(9))];
    match get_template_from_any(&endpoints, &outcomes) {
        TemplateStep::Found(e, t) => {
            assert_eq!(e.scheme, Scheme::Plain);
            assert_eq!(e.host, "node.example");
            assert_eq!(e.port, 8034);
            assert_eq!(t.block_height, 9);
        }
        _ => panic!("expected the plain endpoint's template"),
    }
}

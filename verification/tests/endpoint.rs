use ql_miner::endpoint::{node_endpoints, parse_host_port, Endpoint, Scheme};

fn models(v: &[Endpoint]) -> Vec<(Scheme, String, u16)> {
    v.iter().map(|e| (e.scheme, e.host.clone(), e.port)).collect()
}

#[test]
fn host_port_split_at_last_colon() {
    assert_eq!(parse_host_port("example.com:8034"), Ok(("example.com".to_string(), 8034)));
    assert_eq!(parse_host_port("example.com:8034///"), Ok(("example.com".to_string(), 8034)));
    assert_eq!(parse_host_port("::1:443"), Ok(("::1".to_string(), 443)));
    assert_eq!(parse_host_port("h:+80"), Ok(("h".to_string(), 80)));
}

#[test]
fn host_port_errors() {
    assert_eq!(
        parse_host_port("example.com/"),
        Err("expected NODE_ADDRESS:PORT, got example.com".to_string())
    );
    assert_eq!(parse_host_port(":80"), Err("host is empty".to_string()));
    assert_eq!(parse_host_port("h:65536"), Err("invalid port in h:65536".to_string()));
    assert_eq!(parse_host_port("h:"), Err("invalid port in h:".to_string()));
    assert_eq!(parse_host_port("h:8o"), Err("invalid port in h:8o".to_string()));
}

#[test]
fn bare_remote_host_tries_tls_first() {
    let v = node_endpoints("  quantum-lattice.example:8034/ ").unwrap();
    assert_eq!(
        models(&v),
        vec![
            (Scheme::Tls, "quantum-lattice.example".to_string(), 443),
            (Scheme::Plain, "quantum-lattice.example".to_string(), 8034),
        ]
    );
}

#[test]
fn localhost_tries_plain_first() {
    for host in ["localhost", "127.0.0.1"] {
        let v = node_endpoints(&format!("{host}:8034")).unwrap();
        assert_eq!(
            models(&v),
            vec![
                (Scheme::Plain, host.to_string(), 8034),
                (Scheme::Tls, host.to_string(), 443),
            ]
        );
    }
}

#[test]
fn explicit_schemes() {
    let v = node_endpoints("https://node.example:9000/").unwrap();
    assert_eq!(models(&v), vec![(Scheme::Tls, "node.example".to_string(), 9000)]);
    let v = node_endpoints("http://localhost:8034").unwrap();
    assert_eq!(models(&v), vec![(Scheme::Plain, "localhost".to_string(), 8034)]);
    assert_eq!(node_endpoints("https://:1").err(), Some("host is empty".to_string()));
    assert_eq!(
        node_endpoints("nonsense").err(),
        Some("expected NODE_ADDRESS:PORT, got nonsense".to_string())
    );
}

#[test]
fn labels() {
    let e = Endpoint { scheme: Scheme::Tls, host: "node.example".to_string(), port: 443 };
    assert_eq!(e.label(), "tls://node.example:443");
    let e = Endpoint { scheme: Scheme::Plain, host: "127.0.0.1".to_string(), port: 8034 };
    assert_eq!(e.label(), "tcp://127.0.0.1:8034");
    assert_eq!(e.duplicate().label(), e.label());
}

#[test]
fn label_address_reads_back() {
    for (host, port) in [("h", 0u16), ("a:b", 65535), ("node.example", 8034)] {
        assert_eq!(parse_host_port(&format!("{host}:{port}")), Ok((host.to_string(), port)));
    }
}

#[test]
fn socket_address_is_host_and_port() {
    let e = Endpoint { scheme: Scheme::Tls, host: "node.example".to_string(), port: 443 };
    assert_eq!(e.socket_address(), "node.example:443");
    let e = Endpoint { scheme: Scheme::Plain, host: "::1".to_string(), port: 8034 };
    assert_eq!(e.socket_address(), "::1:8034");
}

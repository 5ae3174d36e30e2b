use mcfc::mcfd::bridge::Request;
use mcfc::mcfd::config::{AgentConfig, Capabilities, Config, HttpCaps};
use mcfc::mcfd::handlers::{
    dispatch, host_allowed, iso8601_utc, query_reply, rand_reply, row_compound, time_reply,
    HostAction,
};
use mcfc::mcfd::snbt::Value;

fn config_with(capabilities: Capabilities) -> Config {
    Config {
        protocol: 2,
        pack_id: "test".to_string(),
        namespace: "test".to_string(),
        log: None,
        datapack: ".".to_string(),
        poll_ms: 200,
        result_ttl_secs: 10,
        capabilities,
        agent: AgentConfig {
            enabled: false,
            events: Vec::new(),
            commands: Vec::new(),
            cancel_events: Vec::new(),
            deciders: Vec::new(),
        },
        secrets: Vec::new(),
        log_path: "latest.log".to_string(),
    }
}

fn request(module: &str, function: &str, args: Vec<Value>) -> Request {
    Request {
        pack_id: "test".to_string(),
        id: 1,
        module: module.to_string(),
        function: function.to_string(),
        args,
    }
}

#[test]
fn time_now_produces_unix_result() {
    let config = config_with(Capabilities {
        time: true,
        ..Default::default()
    });
    assert!(matches!(dispatch(&config, &request("time", "now", vec![])), HostAction::TimeNow));
    let result = time_reply(1_700_000_000);
    assert!(result.starts_with("{ok:1b,unix:"), "got {result}");
    assert!(result.contains("iso:"));
}

#[test]
fn disabled_capability_reports_error() {
    let config = config_with(Capabilities::default());
    match dispatch(&config, &request("time", "now", vec![])) {
        HostAction::Reply(result) => assert!(result.starts_with("{ok:0b"), "got {result}"),
        other => panic!("expected a reply, got {other:?}"),
    }
}

#[test]
fn rand_int_stays_in_range() {
    let config = config_with(Capabilities {
        rand: true,
        ..Default::default()
    });
    for draw in 0..50u64 {
        let (min, max) = match dispatch(
            &config,
            &request("rand", "int", vec![Value::Int(1), Value::Int(6)]),
        ) {
            HostAction::RandInt { min, max } => (min, max),
            other => panic!("expected a draw, got {other:?}"),
        };
        let result = rand_reply(min, max, draw.wrapping_mul(0x9e37_79b9_7f4a_7c15));
        let value: i64 = result
            .trim_start_matches("{ok:1b,value:")
            .trim_end_matches('}')
            .parse()
            .expect("value");
        assert!((1..=6).contains(&value), "out of range: {value}");
    }
}

#[test]
fn http_blocks_disallowed_domains() {
    assert!(host_allowed("https://api.example.com/x", &["api.example.com".to_string()]));
    assert!(host_allowed("https://sub.example.com/x", &["example.com".to_string()]));
    assert!(!host_allowed("https://evil.com/x", &["api.example.com".to_string()]));
}

#[test]
fn host_check_ignores_port_and_lookalikes() {
    assert!(host_allowed("http://example.com:8080/a", &["example.com".to_string()]));
    assert!(!host_allowed("https://badexample.com/", &["example.com".to_string()]));
    assert!(host_allowed("example.com?q", &["example.com".to_string()]));
}

#[test]
fn dispatch_routes_and_refuses() {
    let config = config_with(Capabilities {
        http: Some(HttpCaps { allow_domains: vec!["example.com".to_string()] }),
        ..Default::default()
    });
    let get = dispatch(&config, &request("http", "get", vec![Value::Str("https://example.com/x".to_string())]));
    assert!(matches!(get, HostAction::HttpGet { ref url } if url == "https://example.com/x"));
    match dispatch(&config, &request("http", "get", vec![Value::Str("https://evil.com".to_string())])) {
        HostAction::Reply(r) => assert_eq!(r, "{ok:0b,err:\"domain not allowed\"}"),
        other => panic!("{other:?}"),
    }
    match dispatch(&config, &request("nope", "x", vec![])) {
        HostAction::Reply(r) => assert_eq!(r, "{ok:0b,err:\"unknown host function\"}"),
        other => panic!("{other:?}"),
    }
    match dispatch(&config, &request("kv", "get", vec![])) {
        HostAction::Reply(r) => assert_eq!(r, "{ok:0b,err:\"kv capability disabled\"}"),
        other => panic!("{other:?}"),
    }
}

#[test]
fn iso_dates() {
    assert_eq!(iso8601_utc(0), "1970-01-01T00:00:00Z");
    assert_eq!(iso8601_utc(951_782_400), "2000-02-29T00:00:00Z");
    assert_eq!(iso8601_utc(-1), "1969-12-31T23:59:59Z");
    assert_eq!(time_reply(0), "{ok:1b,unix:0,iso:\"1970-01-01T00:00:00Z\"}");
}

#[test]
fn query_rows() {
    let row = row_compound(&["a b".to_string(), "c".to_string()], &["1".to_string(), "x\"y".to_string()]);
    assert_eq!(row, "{a_b:\"1\",c:\"x\\\"y\"}");
    assert_eq!(query_reply(&[row.clone(), row.clone()]), format!("{{ok:1b,rows_affected:2,rows:[{row},{row}]}}"));
}

#[test]
fn rand_int_truncates_float_bounds() {
    let config = config_with(Capabilities {
        rand: true,
        ..Default::default()
    });
    match dispatch(
        &config,
        &request("rand", "int", vec![Value::Float("1.5".to_string()), Value::Float("6.0".to_string())]),
    ) {
        HostAction::RandInt { min, max } => assert_eq!((min, max), (1, 6)),
        other => panic!("expected a draw, got {other:?}"),
    }
}

use mcfc::mcfd::bridge::{
    attach_plan, new_lines, resume_offset, route_line, LineAction,
    agent_options, inbox_body, normalize_windows_path, parse_agent_event, parse_java_processes,
    parse_marker, process_matches_pack, run_entry_command, scheduled_task_action,
    should_attempt_agent_attach, startup_script_body, status_body, JavaProcess, Pack,
};
use mcfc::mcfd::config::{AgentConfig, Capabilities, Config};
use mcfc::mcfd::snbt::Value;
use std::collections::HashMap;

fn pack_config(namespace: &str, agent: AgentConfig) -> Config {
    Config {
        protocol: 2,
        pack_id: namespace.to_string(),
        namespace: namespace.to_string(),
        log: None,
        datapack: namespace.to_string(),
        poll_ms: 200,
        result_ttl_secs: 300,
        capabilities: Capabilities::default(),
        agent,
        secrets: Vec::new(),
        log_path: String::new(),
    }
}

#[test]
fn scheduled_task_action_quotes_the_executable_without_backslashes() {
    let exe = r"C:\Program Files\MCFC\mcfd\mcfd.exe";
    let task = scheduled_task_action(exe);
    assert_eq!(task, r#""C:\Program Files\MCFC\mcfd\mcfd.exe" service run"#);
}

#[test]
fn run_entry_uses_a_hidden_wscript_launcher() {
    let exe = r"C:\Program Files\MCFC\mcfd\mcfd.exe";
    assert_eq!(
        startup_script_body(exe),
        "Set shell = CreateObject(\"WScript.Shell\")\nshell.Run \"\"\"C:\\Program Files\\MCFC\\mcfd\\mcfd.exe\"\" service run\", 0, False\n"
    );

    let script = r"C:\Users\Oliver\AppData\Local\MCFC\mcfd\mcfd-startup.vbs";
    assert_eq!(
        run_entry_command(script),
        r#"wscript.exe //B //Nologo "C:\Users\Oliver\AppData\Local\MCFC\mcfd\mcfd-startup.vbs""#
    );
}

#[test]
fn parses_entity_death_marker() {
    let request = parse_marker(r#"[12:00:00] [Server thread/INFO]: [mcfc_rpc] {mcpipe:1,protocol:2,pack:"demo",id:5,mod:"time",fn:"now",args:[]} was killed"#).unwrap();
    assert_eq!(request.pack_id, "demo");
    assert_eq!(request.id, 5);
}

#[test]
fn rejects_unmarked_log_line() {
    assert!(parse_marker(r#"{id:5,mod:"time",fn:"now"}"#).is_none());
    assert!(parse_marker(
        r#"[12:00:00] [Server thread/INFO]: {mcpipe:1,protocol:2,pack:"demo",id:5,mod:"time",fn:"now",args:[]}"#
    )
    .is_none());
}

#[test]
fn parses_versioned_agent_event_record() {
    let line = r#"[21:55:26] [Netty Local IO #2/INFO]: [STDERR]: [mcfd-agent] event=chat source=ServerGamePacketListenerImpl payload=ServerboundChatPacket cancelled=false record={"protocol":1,"event":"chat","source":"ServerGamePacketListenerImpl","payload":"ServerboundChatPacket","cancelled":false,"cancellable":true}"#;
    let event = parse_agent_event(line).expect("agent record should parse");
    assert_eq!(event.event, "chat");
    assert_eq!(event.source, "ServerGamePacketListenerImpl");
    assert_eq!(event.payload, "ServerboundChatPacket");
    assert!(event.cancellable);
    assert!(!event.cancelled);
}

#[test]
fn rejects_unknown_agent_event_protocol() {
    let line = r#"[mcfd-agent] event=chat record={"protocol":2,"event":"chat","source":"x","payload":"y","cancelled":false,"cancellable":true}"#;
    assert!(parse_agent_event(line).is_none());
}

#[test]
fn parses_whole_compound_marker_with_nested_args() {
    let line = r#"[15:23:01] [Server thread/INFO]: [mcfc_rpc] {args:["https://munin-sou.se/api/v1/cyber/quotes/random",["quote.text","quote.author.name","quote.source"]],fn:"get_json_strings",id:9,mcpipe:1b,mod:"http",namespace:"cyber_quotes",pack:"cyber_quotes",protocol:2,v:1} was killed by magic"#;
    let request = parse_marker(line).expect("whole-compound marker should parse");
    assert_eq!(request.pack_id, "cyber_quotes");
    assert_eq!(request.id, 9);
    assert_eq!(request.module, "http");
    assert_eq!(request.function, "get_json_strings");
    assert_eq!(request.args.len(), 2);
    assert_eq!(
        request.args[0].as_str(),
        Some("https://munin-sou.se/api/v1/cyber/quotes/random")
    );
    match &request.args[1] {
        Value::List(paths) => assert_eq!(paths.len(), 3),
        other => panic!("expected nested path list, got {other:?}"),
    }
}

#[test]
fn rejects_marker_with_missing_colon() {
    assert!(parse_marker(r#"[mcfc_rpc] {mcpipe,1,protocol:2,pack:"demo",id:5}"#).is_none());
}

#[test]
fn agent_process_matching_is_scoped_to_the_pack_instance() {
    let pack = Pack {
        config: pack_config(
            "demo",
            AgentConfig {
                enabled: true,
                events: Vec::new(),
                commands: Vec::new(),
                cancel_events: Vec::new(),
                deciders: Vec::new(),
            },
        ),
        descriptor: "mcfd.pack.toml".to_string(),
        log: r"C:\Users\Oliver\AppData\Roaming\PrismLauncher\instances\26.2\minecraft\logs\latest.log".to_string(),
    };
    let matching = JavaProcess {
        pid: 42,
        command_line: "javaw.exe -Djava.library.path=C:/Users/Oliver/AppData/Roaming/PrismLauncher/instances/26.2/natives".to_string(),
    };
    let other = JavaProcess {
        pid: 43,
        command_line: "javaw.exe -Djava.library.path=C:/Users/Oliver/AppData/Roaming/PrismLauncher/instances/other/minecraft/natives".to_string(),
    };
    assert!(process_matches_pack(&matching, &pack));
    assert!(!process_matches_pack(&other, &pack));
}

#[test]
fn parses_tab_delimited_java_process_output() {
    let processes = parse_java_processes(
        "42\tjavaw.exe -Djava.library.path=C:/Prism/instances/demo/natives\n",
    );
    assert_eq!(
        processes,
        vec![JavaProcess {
            pid: 42,
            command_line: "javaw.exe -Djava.library.path=C:/Prism/instances/demo/natives".to_string(),
        }]
    );
}

#[test]
fn agent_options_merge_cancellation_and_pack_event_routes() {
    let first = Pack {
        config: pack_config(
            "first",
            AgentConfig {
                enabled: true,
                events: vec!["chat".to_string(), "block_break".to_string()],
                commands: vec!["first_command".to_string()],
                cancel_events: Vec::new(),
                deciders: vec!["chat".to_string()],
            },
        ),
        descriptor: "first/mcfd.pack.toml".to_string(),
        log: "first/logs/latest.log".to_string(),
    };
    let second = Pack {
        config: Config {
            namespace: "second".to_string(),
            agent: AgentConfig {
                enabled: true,
                events: vec!["inventory_click".to_string()],
                commands: vec!["second_command".to_string()],
                cancel_events: Vec::new(),
                deciders: vec!["block_break".to_string()],
            },
            ..first.config.clone()
        },
        descriptor: "second/mcfd.pack.toml".to_string(),
        log: "second/logs/latest.log".to_string(),
    };
    assert_eq!(
        agent_options(&[&first, &second]),
        "deciders=first:chat|second:block_break;routes=first:chat,block_break|second:inventory_click;commands=first:first_command|second:second_command"
    );
}

#[test]
fn agent_attach_attempts_repeat_when_options_change() {
    let mut attempts = HashMap::new();
    assert!(should_attempt_agent_attach(&mut attempts, 42, "routes=first:chat"));
    assert!(!should_attempt_agent_attach(&mut attempts, 42, "routes=first:chat"));
    assert!(should_attempt_agent_attach(
        &mut attempts,
        42,
        "routes=first:chat;commands=first:status"
    ));
    assert!(!should_attempt_agent_attach(
        &mut attempts,
        42,
        "routes=first:chat;commands=first:status"
    ));
}

#[test]
fn windows_paths_compare_case_and_separator_blind() {
    assert_eq!(normalize_windows_path(r"\\?\C:/Games/MC"), r"c:\games\mc");
    assert_eq!(normalize_windows_path("plain"), "plain");
}

#[test]
fn inbox_lists_results_by_id() {
    let body = inbox_body(&[(7, "{ok:1b}".to_string()), (-2, "{ok:0b}".to_string())]);
    assert_eq!(
        body,
        "# generated by mcfd service\ndata modify storage mcfc:rpc results.-2 set value {ok:0b}\ndata modify storage mcfc:rpc results.7 set value {ok:1b}\n"
    );
}

#[test]
fn status_counts_agent_requests() {
    let agent = |enabled| AgentConfig {
        enabled,
        events: Vec::new(),
        commands: Vec::new(),
        cancel_events: Vec::new(),
        deciders: Vec::new(),
    };
    let packs = vec![
        Pack { config: pack_config("a", agent(true)), descriptor: String::new(), log: String::new() },
        Pack { config: pack_config("b", agent(false)), descriptor: String::new(), log: String::new() },
    ];
    assert_eq!(status_body(&packs), "running\ndiscovered_packs=2\nagent_requests=1\n");
}

#[test]
fn agent_record_field_types_are_checked() {
    let line = r#"[mcfd-agent] record={"protocol":1,"event":"chat","source":"x","payload":"y","cancelled":"no","cancellable":true}"#;
    assert!(parse_agent_event(line).is_none());
    assert!(parse_agent_event("[mcfd-agent] nothing here").is_none());
}

fn agent_pack(namespace: &str, enabled: bool, instance: &str) -> Pack {
    Pack {
        config: pack_config(
            namespace,
            AgentConfig {
                enabled,
                events: Vec::new(),
                commands: Vec::new(),
                cancel_events: Vec::new(),
                deciders: Vec::new(),
            },
        ),
        descriptor: format!("{namespace}.toml"),
        log: format!(r"C:\Prism\instances\{instance}\minecraft\logs\latest.log"),
    }
}

fn java(pid: u32, instance: &str) -> JavaProcess {
    JavaProcess {
        pid,
        command_line: format!("javaw.exe -Djava.library.path=C:/Prism/instances/{instance}/natives"),
    }
}

#[test]
fn attach_plan_groups_packs_by_their_only_process() {
    let packs = vec![
        agent_pack("a", true, "one"),
        agent_pack("b", true, "two"),
        agent_pack("c", false, "one"),
        agent_pack("d", true, "one"),
        agent_pack("e", true, "none"),
        agent_pack("f", true, "twice"),
    ];
    let procs = vec![java(9, "two"), java(4, "one"), java(5, "twice"), java(6, "twice")];
    let plan = attach_plan(&procs, &packs);
    assert_eq!(plan.requests, vec![(4, vec![0, 3]), (9, vec![1])]);
    assert_eq!(plan.unattached, vec![(4, 0), (5, 2)]);
}

#[test]
fn new_lines_take_complete_lines_only() {
    let (lines, used) = new_lines(b"first line  \r\nsecond\npartial");
    assert_eq!(lines, vec!["first line".to_string(), "second".to_string()]);
    assert_eq!(used, 21);
    let (lines, used) = new_lines(b"ok\n\xff\xfe\nlater\n");
    assert_eq!(lines, vec!["ok".to_string()]);
    assert_eq!(used, 3);
    assert_eq!(new_lines(b"").1, 0);
    assert_eq!(resume_offset(10, 20), 0);
    assert_eq!(resume_offset(30, 20), 20);
}

#[test]
fn route_line_sorts_events_requests_and_noise() {
    let ids = vec!["alpha".to_string(), "demo".to_string()];
    let line = r#"[Server thread/INFO]: [mcfc_rpc] {mcpipe:1,protocol:2,pack:"demo",id:7,mod:"http",fn:"get",args:[]}"#;
    match route_line(line, &ids) {
        LineAction::Call(index, request) => {
            assert_eq!(index, 1);
            assert_eq!(request.id, 7);
            assert_eq!(request.module, "http");
        }
        _ => panic!("expected a request"),
    }
    let foreign = r#"[mcfc_rpc] {mcpipe:1,protocol:2,pack:"other",id:7,mod:"http",fn:"get",args:[]}"#;
    assert!(matches!(route_line(foreign, &ids), LineAction::Skip));
    assert!(matches!(route_line("plain chat line", &ids), LineAction::Skip));
    let event = r#"[mcfd-agent] record={"protocol":1,"event":"chat","source":"Steve","payload":"hi","cancelled":false,"cancellable":true}"#;
    match route_line(event, &ids) {
        LineAction::Event(e) => assert_eq!(e.event, "chat"),
        _ => panic!("expected an event"),
    }
}

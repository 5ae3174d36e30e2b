use mcfc::compiler::{merge_project_sources, canonicalize_output_path};
use mcfc::compiler::{
    normalize_bukkit_declarations_source, prepare_source, AgentConfig, CompileOptions,
    HelperConfig,
};

#[test]
fn agent_event_requires_agent_manifest_capability() {
    let error = prepare_source(
        "event chat(event: chat_event):\n    debug(event.message)\n",
        &CompileOptions::default(),
    )
    .unwrap_err()
    .to_display_string();
    assert!(error.contains("helper.agent"));
}

#[test]
fn rejects_cancelling_observation_only_agent_events() {
    let options = CompileOptions {
        helper: Some(HelperConfig {
            agent: Some(AgentConfig {
                enabled: true,
                events: Vec::new(),
                commands: Vec::new(),
                cancel_events: vec!["player_damage".to_string()],
            }),
            ..Default::default()
        }),
        ..CompileOptions::default()
    };
    let error = prepare_source("fn main() -> void:\n    return\n", &options)
        .unwrap_err()
        .to_display_string();
    assert!(error.contains("observation-only"));
}

#[test]
fn prepared_source_is_the_lowered_source() {
    let source = "fn main() -> void:\n    return\n";
    let prepared = prepare_source(source, &CompileOptions::default()).unwrap();
    assert_eq!(prepared, normalize_bukkit_declarations_source(source));
}

#[test]
fn lowering_leaves_plain_functions_alone() {
    let source = "fn main() -> void:\n    let x = 1\n";
    assert_eq!(normalize_bukkit_declarations_source(source), source);
}

#[test]
fn project_sources_merge_with_headers() {
    let files = vec![
        ("a.mcfc".to_string(), "x".to_string()),
        ("b.mcfc".to_string(), "y\n".to_string()),
        ("c.mcfc".to_string(), String::new()),
    ];
    assert_eq!(
        merge_project_sources(&files),
        "# source: a.mcfc\nx\n\n# source: b.mcfc\ny\n\n# source: c.mcfc\n\n\n"
    );
    assert_eq!(merge_project_sources(&[]), "");
}

#[test]
fn output_paths_are_kept_as_given() {
    assert_eq!(canonicalize_output_path("out/pack"), "out/pack");
}

#[test]
fn normalizing_keeps_the_newline_count() {
    for source in [
        "event tick:\n    say(\"hi\")\n",
        "command heal(amount: int):\n  data player.mana: int = 0\n\n",
        "task beat every_ticks(20):\r\n    x.data.y = 1",
        "",
    ] {
        let normalized = normalize_bukkit_declarations_source(source);
        assert_eq!(normalized.matches('\n').count(), source.matches('\n').count());
        assert_eq!(normalized.ends_with('\n'), source.ends_with('\n'));
    }
}

use mcfc::cli::{select_command, Subcommand};
use mcfc::cli::{
    infer_namespace, manifest_template, parse_compile_command, parse_helper_choice,
    parse_helper_runtime, parse_new_command, sanitize_namespace, usage, HelperRuntime,
    NewProjectConfig,
};
use std::path::PathBuf;

#[test]
fn parse_compile_command_collects_shared_flags() {
    let parsed = parse_compile_command(&[
        "demo.mcf".into(),
        "--out".into(),
        "build/out".into(),
        "--namespace".into(),
        "demo".into(),
        "--emit-ast".into(),
        "--emit-ir".into(),
        "--no-optimize".into(),
        "--clean".into(),
    ])
    .expect("arguments should parse");

    assert_eq!(PathBuf::from(&parsed.input), PathBuf::from("demo.mcf"));
    assert_eq!(parsed.out_dir.as_ref().map(PathBuf::from), Some(PathBuf::from("build/out")));
    assert!(parsed.namespace_overridden);
    assert_eq!(parsed.options.namespace, "demo");
    assert!(parsed.options.emit_ast);
    assert!(parsed.options.emit_ir);
    assert!(!parsed.options.optimize);
    assert!(parsed.options.clean);
}

#[test]
fn infer_namespace_normalizes_filename() {
    assert_eq!(infer_namespace("Test Pack!.mcf"), "test_pack_");
}

#[test]
fn sanitize_namespace_normalizes_project_name() {
    assert_eq!(sanitize_namespace("My Pack!"), Some("my_pack_".to_string()));
    assert_eq!(sanitize_namespace("Æøå"), None);
}

#[test]
fn compile_command_errors() {
    let missing = parse_compile_command(&[]).unwrap_err();
    assert_eq!(missing, format!("missing input path\n\n{}", usage()));
    let err = parse_compile_command(&["a.mcf".into(), "--out".into()]).unwrap_err();
    assert_eq!(err, "expected path after '--out'");
    let err = parse_compile_command(&["a.mcf".into(), "--namespace".into()]).unwrap_err();
    assert_eq!(err, "expected namespace after '--namespace'");
    let err = parse_compile_command(&["a.mcf".into(), "--fast".into()]).unwrap_err();
    assert_eq!(err, "unknown flag '--fast'");
    let parsed = parse_compile_command(&["a.mcf".into()]).unwrap();
    assert_eq!(parsed.options.namespace, "mcfc");
    assert!(!parsed.namespace_overridden);
    assert!(parsed.options.optimize);
}

#[test]
fn helper_values_and_choices() {
    assert_eq!(parse_helper_runtime("plain"), Ok(HelperRuntime::NoHelper));
    assert_eq!(parse_helper_runtime("mcfd-agent"), Ok(HelperRuntime::McfdAgent));
    assert_eq!(
        parse_helper_runtime("x"),
        Err("unknown helper 'x'; expected 'none', 'mcfd', or 'mcfd-agent'".to_string())
    );
    assert_eq!(parse_helper_choice(" 2\n"), Ok(HelperRuntime::Mcfd));
    assert_eq!(parse_helper_choice("mcfd + mcfd-agent"), Ok(HelperRuntime::McfdAgent));
    assert_eq!(
        parse_helper_choice(" 9 "),
        Err("unknown helper choice '9'; expected 1, 2, 3, none, mcfd, or mcfd-agent".to_string())
    );
}

#[test]
fn new_command_reads_name_and_flags() {
    let parsed = parse_new_command(&["My Pack".into(), "--helper".into(), "mcfd".into(), "--force".into()])
        .unwrap();
    assert_eq!(parsed.name, "My Pack");
    assert_eq!(parsed.namespace, "my_pack");
    assert_eq!(parsed.helper, Some(HelperRuntime::Mcfd));
    assert!(parsed.force);
    let err = parse_new_command(&["!!!".into()]).unwrap_err();
    assert_eq!(err, "project name '!!!' cannot be used as a namespace");
}

#[test]
fn manifest_for_agent_projects() {
    let config = NewProjectConfig {
        name: "demo".to_string(),
        namespace: "demo".to_string(),
        path: "demo".to_string(),
        helper: HelperRuntime::McfdAgent,
        force: false,
    };
    assert_eq!(
        manifest_template(&config),
        "namespace = \"demo\"\nsource_dir = \"src\"\nasset_dir = \"assets\"\nout_dir = \"dist\"\n\n[helper]\nbackend = \"mcfd\"\n\n[helper.agent]\nenabled = true\n\n[helper.capabilities]\ntime = true\nrand = true\n"
    );
}

#[test]
fn subcommands_are_selected_by_their_word() {
    let args = |words: &[&str]| words.iter().map(|w| w.to_string()).collect::<Vec<_>>();
    assert_eq!(select_command(&args(&["mcfc", "new", "demo"])), Ok(Subcommand::New));
    assert_eq!(select_command(&args(&["mcfc", "build"])), Ok(Subcommand::Build));
    assert_eq!(select_command(&args(&["mcfc", "watch", "x"])), Ok(Subcommand::Watch));
    assert_eq!(select_command(&args(&["mcfc", "-h"])), Ok(Subcommand::Help));
    assert_eq!(select_command(&args(&["mcfc"])), Err(usage()));
    assert_eq!(
        select_command(&args(&["mcfc", "fly"])),
        Err(format!("unknown command 'fly'\n\n{}", usage()))
    );
}

#[test]
fn plain_names_give_their_own_namespace_and_project_name() {
    assert_eq!(infer_namespace("Pack_One"), "pack_one");
    let parsed = parse_new_command(&["Demo".into()]).unwrap();
    assert_eq!(parsed.name, "Demo");
    let nested = parse_new_command(&["worlds/Demo".into()]).unwrap();
    assert_eq!(nested.name, "Demo");
}

#[test]
fn namespaces_and_project_names_come_from_the_final_component() {
    assert_eq!(infer_namespace("packs/My.Pack.mcf"), "my_pack");
    assert_eq!(infer_namespace(".hidden"), "_hidden");
    let parsed = parse_new_command(&["worlds/Demo/.".into()]).unwrap();
    assert_eq!(parsed.name, "Demo");
}

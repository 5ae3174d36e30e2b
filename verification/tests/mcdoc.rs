use mcfc::mcdoc::parser::{resolve_in, FileParser, ParsedRepo, SymbolKind, TypeExpr};
use mcfc::mcdoc::reduce::{
    merge_fields, merge_schema_nodes, push_or_replace_field, ReduceState, SchemaReducer,
};
use mcfc::mcdoc::{
    build_nbt_schema_snapshot_from_tarball, module_path_for_file, path_segments,
    snapshot_from_reducer,
    read_mcdoc_files_from_tarball, tail_name, Lexer, Metadata, SchemaField, SchemaNode, TokenKind,
    Version, TARGET_MINECRAFT_VERSION,
};

fn tarball(files: &[(&str, &str)]) -> Vec<u8> {
    let encoder = flate2::write::GzEncoder::new(Vec::new(), flate2::Compression::default());
    let mut builder = tar::Builder::new(encoder);
    for (path, body) in files {
        let mut header = tar::Header::new_gnu();
        header.set_size(body.len() as u64);
        header.set_mode(0o644);
        header.set_cksum();
        builder.append_data(&mut header, path, body.as_bytes()).unwrap();
    }
    builder.into_inner().unwrap().finish().unwrap()
}

const MOB: &str = "/// Base of mobs
struct MobBase {
    /// Health points
    Health?: float,
    Tags?: [string],
}

dispatch minecraft:entity[zombie] to struct Zombie {
    ...MobBase,
    IsBaby?: boolean,
}
";

fn words(tokens: &[mcfc::mcdoc::Token]) -> Vec<String> {
    tokens
        .iter()
        .map(|token| match &token.kind {
            TokenKind::Word(w) => format!("w:{w}"),
            TokenKind::String(s) => format!("s:{s}"),
            TokenKind::Doc(d) => format!("d:{d}"),
            TokenKind::AttrStart => "#[".to_string(),
            TokenKind::Spread => "...".to_string(),
            TokenKind::OptionalColon => "?:".to_string(),
            TokenKind::Symbol(c) => format!("{c}"),
        })
        .collect()
}

#[test]
fn lexer_reads_docs_attributes_strings_and_namespaced_words() {
    let source = "///  Doc line  \n#[since=\"1.20\"] struct A { // note\n b?: minecraft:item, 'it\\'s', ...super::C }";
    let tokens = Lexer::new(source).tokenize().unwrap();
    assert_eq!(
        words(&tokens),
        vec![
            "d:Doc line", "#[", "w:since", "=", "s:1.20", "]", "w:struct", "w:A", "{", "w:b", "?:",
            "w:minecraft:item", ",", "s:it's", ",", "...", "w:super::C", "}",
        ]
    );
}

#[test]
fn lexer_rejects_unterminated_string() {
    let error = Lexer::new("struct A { b: \"open }").tokenize().unwrap_err();
    assert_eq!(error, "unterminated string literal in mcdoc");
}

#[test]
fn version_parse_reads_numbers_and_reports_bad_parts() {
    assert_eq!(Version::parse(" 1.20.5 ").unwrap().0, vec![1, 20, 5]);
    assert_eq!(Version::parse(TARGET_MINECRAFT_VERSION).unwrap().0, vec![26, 1, 2]);
    assert_eq!(Version::parse("  ").unwrap_err(), "version must not be empty");
    assert_eq!(
        Version::parse("1.x").unwrap_err(),
        "invalid version component 'x' in '1.x'"
    );
}

#[test]
fn metadata_is_active_between_since_and_until() {
    let mut meta = Metadata::empty();
    meta.since = Some(Version(vec![1, 20]));
    meta.until = Some(Version(vec![1, 21]));
    assert!(meta.is_active(&Version(vec![1, 20, 5])));
    assert!(meta.is_active(&Version(vec![1, 20])));
    assert!(!meta.is_active(&Version(vec![1, 21])));
    assert!(!meta.is_active(&Version(vec![1, 19, 4])));
    assert!(Metadata::empty().is_active(&Version(vec![0])));
}

#[test]
fn module_paths_follow_file_paths() {
    assert_eq!(module_path_for_file("java/world/mod.mcdoc"), "::java::world");
    assert_eq!(module_path_for_file("java/util/avatar.mcdoc"), "::java::util::avatar");
    assert_eq!(module_path_for_file("mod.mcdoc"), "::");
}

#[test]
fn tail_name_takes_the_last_path_segment() {
    assert_eq!(tail_name("::java::world::Item"), "Item");
    assert_eq!(tail_name("a::b::"), "b");
    assert_eq!(tail_name("plain"), "plain");
    assert_eq!(tail_name("::"), "::");
    assert_eq!(path_segments("::a::::b"), vec!["a".to_string(), "b".to_string()]);
}

#[test]
fn names_resolve_against_module_and_imports() {
    let uses = vec![("Item".to_string(), "::java::world::item::Item".to_string())];
    assert_eq!(resolve_in("::x::Y", "::a::b", &uses, true), "::x::Y");
    assert_eq!(resolve_in("super::Z", "::a::b", &uses, true), "::a::Z");
    assert_eq!(resolve_in("super::super::Z", "::a::b", &uses, false), "::Z");
    assert_eq!(resolve_in("super::", "::a::b", &uses, true), "::a");
    assert_eq!(resolve_in("super::", "::a::b", &uses, false), "::a::");
    assert_eq!(resolve_in("Item", "::a", &uses, true), "::java::world::item::Item");
    assert_eq!(resolve_in("Item::Sub", "::a", &uses, true), "::java::world::item::Item::Sub");
    assert_eq!(resolve_in("Local", "::a", &uses, true), "::a::Local");
    assert_eq!(resolve_in("Local", "::", &uses, true), "::Local");
}

#[test]
fn file_parser_reads_structs_dispatches_and_uses() {
    let source = "use ::java::world::item::ItemBase\ntype Count = int\nenum(string) Color { Red = \"red\" }\n".to_string()
        + MOB;
    let mut parser = FileParser::new(
        "java/world/entity/mob.mcdoc",
        &source,
        "::java::world::entity::mob",
        ParsedRepo::new(),
    )
    .unwrap();
    parser.parse().unwrap();
    assert_eq!(parser.uses, vec![("ItemBase".to_string(), "::java::world::item::ItemBase".to_string())]);
    let repo = parser.repo;
    let keys: Vec<&str> = repo.symbols.iter().map(|(k, _)| k.as_str()).collect();
    assert_eq!(
        keys,
        vec![
            "::java::world::entity::mob::Count",
            "::java::world::entity::mob::Color",
            "::java::world::entity::mob::MobBase",
            "::java::world::entity::mob::Zombie",
        ]
    );
    assert!(matches!(&repo.symbols[1].1.kind, SymbolKind::Enum { underlying } if underlying == "string"));
    match &repo.symbols[0].1.kind {
        SymbolKind::Alias(TypeExpr::Primitive(p)) => assert_eq!(p, "int"),
        _ => panic!("alias expected"),
    }
    assert_eq!(repo.symbols[2].1.meta.documentation, "Base of mobs");
    assert_eq!(repo.dispatches.len(), 1);
    assert_eq!(repo.dispatches[0].0, "minecraft:entity");
    assert_eq!(repo.dispatches[0].1, "zombie");
    assert_eq!(repo.dispatches[0].2, vec![0]);
}

#[test]
fn file_parser_reports_missing_symbols() {
    let mut parser =
        FileParser::new("x.mcdoc", "struct A b: int }", "::x", ParsedRepo::new()).unwrap();
    assert_eq!(parser.parse().unwrap_err(), "expected symbol '{' in x.mcdoc");
    assert!(FileParser::new("x.mcdoc", "'open", "::x", ParsedRepo::new()).is_err());
}

#[test]
fn reducer_follows_spreads_and_dispatches() {
    let files = vec![("java/world/entity/mob.mcdoc".to_string(), MOB.to_string())];
    let repo = ParsedRepo::parse(&files).unwrap();
    let reducer = SchemaReducer::new(repo, Version(vec![26, 1, 2]));
    let base = reducer
        .schema_for_symbol("::java::world::entity::mob::MobBase")
        .unwrap();
    assert_eq!(base.detail, "MobBase");
    assert_eq!(base.documentation, "Base of mobs");
    let names: Vec<(&str, &str, &str)> = base
        .fields
        .iter()
        .map(|f| (f.name.as_str(), f.detail.as_str(), f.documentation.as_str()))
        .collect();
    assert_eq!(
        names,
        vec![("Health", "float", "Health points"), ("Tags", "list<string>", "")]
    );
    let zombie = reducer
        .schema_for_dispatch("minecraft:entity", "minecraft:zombie")
        .unwrap();
    assert_eq!(zombie.detail, "Zombie");
    let names: Vec<&str> = zombie.fields.iter().map(|f| f.name.as_str()).collect();
    assert_eq!(names, vec!["Health", "Tags", "IsBaby"]);
    assert!(reducer.schema_for_dispatch("minecraft:entity", "creeper").is_none());
    let mut st = ReduceState::new();
    assert!(reducer.reduce_symbol(&mut st, "::missing::Thing").is_none());
}

#[test]
fn reducer_cuts_cycles_and_skips_inactive_definitions() {
    let source = "struct Loop { next?: Loop }\n#[until=\"1.0\"]\nstruct Old { a: int }\n";
    let files = vec![("java/world/x.mcdoc".to_string(), source.to_string())];
    let reducer = SchemaReducer::new(ParsedRepo::parse(&files).unwrap(), Version(vec![26, 1, 2]));
    let node = reducer.schema_for_symbol("::java::world::x::Loop").unwrap();
    assert_eq!(node.fields.len(), 1);
    assert_eq!(node.fields[0].name, "next");
    assert_eq!(node.fields[0].detail, "Loop");
    assert!(node.fields[0].node.is_none());
    assert!(reducer.schema_for_symbol("::java::world::x::Old").is_none());
}

fn field(name: &str, detail: &str, doc: &str, node: Option<SchemaNode>) -> SchemaField {
    SchemaField {
        name: name.to_string(),
        detail: detail.to_string(),
        documentation: doc.to_string(),
        node,
    }
}

fn node(detail: &str, doc: &str, fields: Vec<SchemaField>) -> SchemaNode {
    SchemaNode { detail: detail.to_string(), documentation: doc.to_string(), fields }
}

#[test]
fn merged_fields_prefer_known_details_and_documentation() {
    let merged = merge_fields(
        field("a", "nbt", "", Some(node("L", "left", vec![field("x", "int", "", None)]))),
        field(
            "other",
            "int",
            "doc",
            Some(node("R", "right", vec![field("y", "byte", "", None), field("x", "long", "", None)])),
        ),
    );
    assert_eq!(merged.name, "a");
    assert_eq!(merged.detail, "int");
    assert_eq!(merged.documentation, "doc");
    let inner = merged.node.unwrap();
    assert_eq!(inner.detail, "L");
    assert_eq!(inner.documentation, "left");
    let names: Vec<&str> = inner.fields.iter().map(|f| f.name.as_str()).collect();
    assert_eq!(names, vec!["x", "y"]);
    assert_eq!(inner.fields[0].detail, "int");

    let kept = merge_fields(field("a", "string", "kept", None), field("a", "int", "new", None));
    assert_eq!(kept.detail, "string");
    assert_eq!(kept.documentation, "kept");
    assert!(kept.node.is_none());
}

#[test]
fn merged_nodes_take_documentation_from_the_first_that_has_it() {
    let mut doc_meta = Metadata::empty();
    doc_meta.documentation = "from meta".to_string();
    let merged = merge_schema_nodes(vec![
        (Metadata::empty(), node("A", "", vec![field("a", "int", "", None)])),
        (doc_meta, node("B", "ignored", vec![field("b", "int", "", None), field("a", "long", "", None)])),
    ])
    .unwrap();
    assert_eq!(merged.detail, "A");
    assert_eq!(merged.documentation, "from meta");
    let names: Vec<&str> = merged.fields.iter().map(|f| f.name.as_str()).collect();
    assert_eq!(names, vec!["a", "b"]);
    assert!(merge_schema_nodes(Vec::new()).is_none());

    let mut fields = vec![field("a", "int", "", None)];
    push_or_replace_field(&mut fields, field("b", "int", "", None));
    push_or_replace_field(&mut fields, field("a", "long", "doc", None));
    assert_eq!(fields.len(), 2);
    assert_eq!(fields[0].documentation, "doc");
}

#[test]
fn tarball_files_are_selected_and_sorted() {
    let bytes = tarball(&[
        ("repo/java/world/z.mcdoc", "struct Z {}"),
        ("repo/README.md", "readme"),
        ("repo/java/other/x.mcdoc", "struct X {}"),
        ("repo/java/util/avatar.mcdoc", "struct Avatar {}"),
        ("repo/java/world/a.mcdoc", "struct A {}"),
    ]);
    let files = read_mcdoc_files_from_tarball(&bytes).unwrap();
    let paths: Vec<&str> = files.iter().map(|(p, _)| p.as_str()).collect();
    assert_eq!(paths, vec!["java/util/avatar.mcdoc", "java/world/a.mcdoc", "java/world/z.mcdoc"]);
    assert_eq!(files[1].1, "struct A {}");
}

#[test]
fn tarball_without_mcdoc_files_is_rejected() {
    let bytes = tarball(&[("repo/README.md", "readme")]);
    assert_eq!(
        read_mcdoc_files_from_tarball(&bytes).unwrap_err(),
        "vanilla-mcdoc tarball did not contain any .mcdoc files"
    );
    assert!(read_mcdoc_files_from_tarball(b"not a tarball").is_err());
}

#[test]
fn snapshot_holds_defaults_and_dispatched_ids() {
    let bytes = tarball(&[("vanilla-mcdoc/java/world/entity/mob.mcdoc", MOB)]);
    let snapshot = build_nbt_schema_snapshot_from_tarball(
        &bytes,
        &["stone".to_string()],
        &[],
        &["zombie".to_string(), "creeper".to_string()],
    )
    .unwrap();
    let keys: Vec<&str> = snapshot.entity.iter().map(|(k, _)| k.as_str()).collect();
    assert_eq!(keys, vec!["__default__", "minecraft:zombie"]);
    assert_eq!(snapshot.entity[0].1.detail, "MobBase");
    assert_eq!(snapshot.entity[1].1.fields.len(), 3);
    assert!(snapshot.block.is_empty());
    assert!(snapshot.item.is_empty());
    assert!(build_nbt_schema_snapshot_from_tarball(&[], &[], &[], &[]).is_err());
}

#[test]
fn reducing_again_gives_the_remembered_schema() {
    let source = "struct A { x: int, y?: A }\n";
    let files = vec![("java/world/x.mcdoc".to_string(), source.to_string())];
    let reducer = SchemaReducer::new(ParsedRepo::parse(&files).unwrap(), Version(vec![26, 1, 2]));
    let mut st = ReduceState::new();
    let first = reducer.reduce_symbol(&mut st, "::java::world::x::A").unwrap();
    let remembered = st.symbol_cache.len();
    let second = reducer.reduce_symbol(&mut st, "::java::world::x::A").unwrap();
    assert_eq!(st.symbol_cache.len(), remembered);
    assert_eq!(first.detail, second.detail);
    let names = |n: &SchemaNode| n.fields.iter().map(|f| f.name.clone()).collect::<Vec<_>>();
    assert_eq!(names(&first), names(&second));
    assert_eq!(names(&first), vec!["x".to_string(), "y".to_string()]);
    assert_eq!(first.fields[1].detail, "A");
}

#[test]
fn snapshot_from_reducer_keys_defaults_and_ids() {
    let files = vec![("java/world/entity/mob.mcdoc".to_string(), MOB.to_string())];
    let reducer = SchemaReducer::new(ParsedRepo::parse(&files).unwrap(), Version(vec![26, 1, 2]));
    let snapshot = snapshot_from_reducer(
        &reducer,
        &[],
        &["stick".to_string()],
        &["minecraft:zombie".to_string(), "zombie".to_string()],
    );
    let keys: Vec<&str> = snapshot.entity.iter().map(|(k, _)| k.as_str()).collect();
    assert_eq!(keys, vec!["__default__", "minecraft:minecraft:zombie", "minecraft:zombie"]);
    assert!(snapshot.item.is_empty());
}

#[test]
fn later_definition_of_a_path_replaces_the_earlier() {
    let mut parser = FileParser::new(
        "x.mcdoc",
        "use ::y::B\ntype A = int\ntype A = string\n",
        "::x",
        ParsedRepo::new(),
    )
    .unwrap();
    parser.parse().unwrap();
    let repo = parser.repo;
    assert_eq!(repo.symbols.len(), 1);
    assert_eq!(repo.symbols[0].0, "::x::A");
    match &repo.symbols[0].1.kind {
        SymbolKind::Alias(TypeExpr::Primitive(p)) => assert_eq!(p, "string"),
        _ => panic!("alias expected"),
    }
    assert_eq!(repo.symbols[0].1.context.module, "::x");
    assert_eq!(repo.symbols[0].1.context.uses, vec![("B".to_string(), "::y::B".to_string())]);
}

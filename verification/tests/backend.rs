use mcfc::ast::{ContextKind, Expr, ExprKind, PathSegment, Type};
use mcfc::backend::{
    context_execute_keyword, control_slot, display_text_components, entity_state_objective,
    equipment_slot_name, expand_display_text_sugar, expand_json_text_command_sugar,
    expand_say_sugar, infer_dynamic_nbt_index_type, local_slot, macro_storage_base,
    normalize_runtime_nbt_segments, numeric_return_slot, numeric_slot, parse_display_message,
    parse_quoted_message, player_item_command_slot, player_slot_nbt_index,
    player_state_objective, push_path_name, push_quoted_macro_path_name, push_quoted_path_name,
    quoted, quoted_message_to_selector_json, render_nbt_path_segments, render_path_segments,
    render_tag_file, return_slot, rewrite_macro_template, sanitize,
    selector_text_components, selector_token_len, split_first_word, string_return_slot,
    string_slot, Guard, LoopContext,
};
use mcfc::diagnostics::{Span, TextRange};
use mcfc::ir::{IrFunction, IrMacroPlaceholder};

fn expr(kind: ExprKind) -> Expr {
    Expr {
        kind,
        span: Span {
            line: 1,
            column: 1,
            range: TextRange { start: 0, end: 0 },
        },
    }
}

fn field(name: &str) -> PathSegment {
    PathSegment::Field(name.to_string())
}

fn index(kind: ExprKind) -> PathSegment {
    PathSegment::Index(Box::new(expr(kind)))
}

#[test]
fn sanitize_keeps_only_name_characters() {
    assert_eq!(sanitize("my-func.x_1"), "my_func_x_1");
    assert_eq!(sanitize("é"), "_");
}

#[test]
fn slot_names_follow_depth_and_function() {
    assert_eq!(control_slot(2, "main"), "$d2_main__ctrl");
    assert_eq!(numeric_slot(0, "f-1", "x"), "$d0_f_1_x");
    assert_eq!(numeric_return_slot(1, "g"), "$d1_g__ret");
    assert_eq!(string_slot(3, "f", "name"), "frames.d3.f.name");
    assert_eq!(string_return_slot(0, "f"), "frames.d0.f.__ret");
    assert_eq!(macro_storage_base(1, "f", 7), "frames.d1.f.__macro7");
}

#[test]
fn local_and_return_slots_by_type() {
    assert_eq!(local_slot(0, "f", "x", &Type::Int).name, "$d0_f_x");
    assert_eq!(local_slot(0, "f", "b", &Type::Bool).numeric_name(), "$d0_f_b");
    assert_eq!(local_slot(0, "f", "s", &Type::String).storage_path(), "frames.d0.f.s");
    assert_eq!(local_slot(0, "f", "v", &Type::Void).name, "__void");
    assert_eq!(return_slot(2, "f", &Type::Int).name, "$d2_f__ret");
    assert_eq!(return_slot(2, "f", &Type::Nbt).name, "frames.d2.f.__ret");
    assert_eq!(return_slot(2, "f", &Type::Void).name, "__void");
}

#[test]
fn equipment_and_context_names() {
    assert_eq!(equipment_slot_name("head"), "armor.head");
    assert_eq!(equipment_slot_name("offhand"), "weapon.offhand");
    assert_eq!(equipment_slot_name("bogus"), "weapon.mainhand");
    assert_eq!(context_execute_keyword(ContextKind::As), "as");
    assert_eq!(context_execute_keyword(ContextKind::At), "at");
}

#[test]
fn player_item_slots() {
    assert_eq!(player_slot_nbt_index("inventory", 3), 12);
    assert_eq!(player_slot_nbt_index("hotbar", 3), 3);
    assert_eq!(player_item_command_slot("inventory", 2), "inventory.2");
    assert_eq!(player_item_command_slot("hotbar", -1), "hotbar.-1");
}

#[test]
fn tag_files_list_their_values() {
    assert_eq!(
        render_tag_file(&["a:b".to_string(), "c:d".to_string()]),
        "{\n  \"values\": [\n    \"a:b\",\n    \"c:d\"\n  ]\n}\n"
    );
    assert_eq!(render_tag_file(&[]), "{\n  \"values\": [\n\n  ]\n}\n");
}

#[test]
fn quoting_and_path_names() {
    assert_eq!(quoted("a\"b"), "\"a\\\"b\"");
    let mut rendered = String::new();
    push_path_name(&mut rendered, "a");
    push_path_name(&mut rendered, "b");
    assert_eq!(rendered, "a.b");
    push_quoted_path_name(&mut rendered, "c d");
    assert_eq!(rendered, "a.b.\"c d\"");
    let mut macro_path = String::new();
    push_quoted_macro_path_name(&mut macro_path, "key");
    assert_eq!(macro_path, "\"$(key)\"");
}

#[test]
fn paths_render_fields_and_indices() {
    let segments = vec![
        field("inventory"),
        index(ExprKind::Int(2)),
        field("count"),
        index(ExprKind::String("x y".to_string())),
        index(ExprKind::Bool(true)),
    ];
    assert_eq!(render_path_segments(&segments), "inventory[2].count[0][0]");
    assert_eq!(render_nbt_path_segments(&segments), "inventory[2].count.\"x y\"[0]");
    assert_eq!(player_state_objective(&[field("stats"), field("kills")]), "mcfs_stats_kills");
    assert_eq!(entity_state_objective(&[field("hp"), index(ExprKind::Int(1))]), "mcfe_hp_1_");
}

#[test]
fn runtime_nbt_paths_lose_their_nbt_field() {
    let segments = vec![field("nbt"), field("Health")];
    assert_eq!(normalize_runtime_nbt_segments(&Type::EntityRef, &segments).len(), 1);
    assert_eq!(normalize_runtime_nbt_segments(&Type::Int, &segments).len(), 2);
    let short = vec![field("nbt")];
    assert_eq!(normalize_runtime_nbt_segments(&Type::PlayerRef, &short).len(), 1);
}

#[test]
fn words_and_quoted_messages() {
    assert_eq!(split_first_word("tellraw @a hi"), Some(("tellraw", " @a hi")));
    assert_eq!(split_first_word("single"), None);
    assert_eq!(
        parse_quoted_message("\"he\\\"llo\" rest"),
        Some(("he\"llo".to_string(), " rest"))
    );
    assert_eq!(parse_quoted_message("no quote"), None);
    assert_eq!(parse_quoted_message("\"open"), None);
    assert_eq!(parse_display_message("\"hi\"  "), Some("hi".to_string()));
    assert_eq!(parse_display_message("\"hi\" x"), Some("\"hi\" x".to_string()));
    assert_eq!(parse_display_message("hi there"), Some("hi there".to_string()));
}

#[test]
fn selector_lengths() {
    assert_eq!(selector_token_len("@a[tag=x] hi"), Some(9));
    assert_eq!(selector_token_len("@p hi"), Some(2));
    assert_eq!(selector_token_len("@x"), None);
    assert_eq!(selector_token_len("@"), None);
    assert_eq!(selector_token_len("@a[unclosed"), Some(2));
    assert_eq!(selector_token_len("@e[name=\"a]b\"]!"), Some(14));
    assert_eq!(selector_token_len("@s[nbt={a:[1]}]x"), Some(15));
}

#[test]
fn selectors_become_text_components() {
    assert_eq!(
        selector_text_components("Hello @p!"),
        Some("[\"Hello \",{\"selector\":\"@p\"},\"!\"]".to_string())
    );
    assert_eq!(selector_text_components("plain"), None);
    assert_eq!(
        display_text_components("@s wins"),
        Some("[{\"selector\":\"$(selector)\"},\" wins\"]".to_string())
    );
    assert_eq!(
        quoted_message_to_selector_json("\"Hi @a\"  "),
        Some("[\"Hi \",{\"selector\":\"@a\"}]".to_string())
    );
    assert_eq!(quoted_message_to_selector_json("\"Hi @a\" x"), None);
}

#[test]
fn display_sugar_expands() {
    assert_eq!(
        expand_say_sugar("say hi @a"),
        Some("tellraw @a [\"hi \",{\"selector\":\"@a\"}]".to_string())
    );
    assert_eq!(expand_say_sugar("say hello"), None);
    assert_eq!(
        expand_json_text_command_sugar("tellraw @a \"Hi @p\""),
        Some("tellraw @a [\"Hi \",{\"selector\":\"@p\"}]".to_string())
    );
    assert_eq!(
        expand_json_text_command_sugar("title @a actionbar \"@s!\""),
        Some("title @a actionbar [{\"selector\":\"@s\"},\"!\"]".to_string())
    );
    assert_eq!(expand_json_text_command_sugar("title @a foo \"@s\""), None);
    assert_eq!(expand_display_text_sugar("say plain"), "say plain");
    assert_eq!(
        expand_display_text_sugar("say \"@p\""),
        "tellraw @a [{\"selector\":\"@p\"}]"
    );
}

#[test]
fn guards_wrap_commands() {
    let guard = Guard::for_function(1, "f");
    assert_eq!(guard.wrap("say hi"), "execute if score $d1_f__ctrl mcfc matches 0 run say hi");
    let looped = guard.within_loop(&LoopContext {
        break_slot: "$b".to_string(),
        continue_slot: "$c".to_string(),
        continue_target: "t".to_string(),
    });
    assert_eq!(
        looped.wrap("x"),
        "execute if score $d1_f__ctrl mcfc matches 0 if score $b mcfc matches 0 if score $c mcfc matches 0 run x"
    );
    assert_eq!(
        looped.wrap_allow_continue("x"),
        "execute if score $d1_f__ctrl mcfc matches 0 if score $b mcfc matches 0 run x"
    );
    assert_eq!(
        looped.wrap_with_options("x", false, true),
        "execute if score $d1_f__ctrl mcfc matches 0 if score $c mcfc matches 0 run x"
    );
}

fn placeholder(name: &str) -> IrMacroPlaceholder {
    IrMacroPlaceholder {
        name: name.to_string(),
        ty: Type::String,
    }
}

#[test]
fn macro_templates_take_placeholder_names() {
    let template = "say $(a.b) and $(f(\"x)\"))!";
    assert_eq!(
        rewrite_macro_template(template, &[placeholder("one"), placeholder("two")]),
        "say $(one) and $(two)!"
    );
    assert_eq!(
        rewrite_macro_template(template, &[placeholder("one")]),
        "say $(one) and !"
    );
    assert_eq!(rewrite_macro_template("plain", &[]), "plain");
}

#[test]
fn dynamic_index_types() {
    let function = IrFunction {
        name: "f".to_string(),
        params: Vec::new(),
        return_type: Type::Void,
        body: Vec::new(),
        locals: vec![("i".to_string(), Type::Int), ("s".to_string(), Type::String)],
        book_exposed: false,
    };
    assert_eq!(
        infer_dynamic_nbt_index_type(&function, &expr(ExprKind::Variable("s".to_string()))),
        Some(Type::String)
    );
    assert_eq!(
        infer_dynamic_nbt_index_type(&function, &expr(ExprKind::Variable("z".to_string()))),
        None
    );
    assert_eq!(infer_dynamic_nbt_index_type(&function, &expr(ExprKind::Int(1))), Some(Type::Int));
    assert_eq!(infer_dynamic_nbt_index_type(&function, &expr(ExprKind::Bool(true))), None);
}

#[test]
fn macro_templates_keep_multibyte_text() {
    assert_eq!(
        rewrite_macro_template("\u{201c}$(q)\u{201d} \u{2014} done", &[placeholder("p1")]),
        "\u{201c}$(p1)\u{201d} \u{2014} done"
    );
}

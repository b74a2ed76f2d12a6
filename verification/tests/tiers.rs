use aider_patcher::{
    find_declared_entities, parse_diff_blocks, parse_syntax_tree, perfect_replace, prep,
    replace_closest_edit_distance, replace_part_with_missing_leading_whitespace,
    replace_via_ast_fallback, try_dotdotdots,
};

// --- Helper function tests ---
#[test]
fn test_prep_adds_missing_newline() {
    let (adjusted, lines) = prep("hello\nworld");
    assert_eq!(adjusted, "hello\nworld\n");
    assert_eq!(lines, vec!["hello\n".to_string(), "world\n".to_string()]);
}

#[test]
fn test_prep_preserves_existing_newline() {
    let (adjusted, lines) = prep("hello\nworld\n");
    assert_eq!(adjusted, "hello\nworld\n");
    assert_eq!(lines, vec!["hello\n".to_string(), "world\n".to_string()]);
}

// --- Tier 1 Match Tests ---
#[test]
fn test_perfect_replace_exact_match() {
    let whole = vec![
        "line_1\n".to_string(),
        "target_line\n".to_string(),
        "line_3\n".to_string(),
    ];
    let part = vec!["target_line\n".to_string()];
    let replace = vec![
        "replacement_line_a\n".to_string(),
        "replacement_line_b\n".to_string(),
    ];

    let result = perfect_replace(&whole, &part, &replace);
    assert_eq!(
        result,
        Some("line_1\nreplacement_line_a\nreplacement_line_b\nline_3\n".to_string())
    );
}

#[test]
fn test_perfect_replace_fails_when_part_missing() {
    let whole = vec!["line_1\n".to_string(), "line_2\n".to_string()];
    let part = vec!["target_not_present\n".to_string()];
    let replace = vec!["replacement\n".to_string()];

    let result = perfect_replace(&whole, &part, &replace);
    assert_eq!(result, None);
}

// --- Tier 2 Indentation-adjusted Match Tests ---
#[test]
fn test_replace_part_with_missing_leading_whitespace() {
    let whole = vec![
        "    class Temp {\n".to_string(),
        "        fn inner() {}\n".to_string(),
        "    }\n".to_string(),
    ];
    let part = vec!["fn inner() {}\n".to_string()];
    let replace = vec!["fn adjusted_inner() {}\n".to_string()];

    let result = replace_part_with_missing_leading_whitespace(&whole, &part, &replace);
    assert_eq!(
        result,
        Some("    class Temp {\n        fn adjusted_inner() {}\n    }\n".to_string())
    );
}

// --- Tier 2.5 Elision Match Tests ---
#[test]
fn test_try_dotdotdots_success() {
    let whole = "fn test() {\n    let x = 1;\n    let y = 2;\n    println!(\"{}\", x);\n}";
    let part = "fn test() {\n...\n    println!(\"{}\", x);\n}";
    let replace = "fn test() {\n...\n    println!(\"patched\");\n}";

    let result = try_dotdotdots(whole, part, replace);
    assert!(result.is_some());
    assert_eq!(
        result.unwrap(),
        "fn test() {\n    let x = 1;\n    let y = 2;\n    println!(\"patched\");\n}"
    );
}

#[test]
fn test_try_dotdotdots_uniqueness_check() {
    let whole = "let x = 1;\nlet y = 2;\nlet x = 1;\nlet z = 3;";
    let part = "let x = 1;\n...\nlet z = 3;";
    let replace = "let mutated = 1;\n...\nlet z = 3;";

    let result = try_dotdotdots(whole, part, replace);
    assert_eq!(result, None);
}

// --- Tier 3 Fuzzy Sequence Match Tests ---
#[test]
fn test_replace_closest_edit_distance() {
    let whole_lines = vec![
        "fn evaluate_model() {\n".to_string(),
        "    let a = 100;\n".to_string(),
        "    let b = 200;\n".to_string(),
        "    let c = 300;\n".to_string(),
        "    let d = 400;\n".to_string(),
        "    let e = 500;\n".to_string(),
        "    let f = 600;\n".to_string(),
        "    let g = 700;\n".to_string(),
        "    let h = 800;\n".to_string(),
        "}\n".to_string(),
    ];
    let part = "fn evaluate_model() {\n    let a = 100;\n    let b = 200;\n    let c = 300;\n    let d = 400;\n    let e = 505;\n    let f = 600;\n    let g = 700;\n    let h = 800;\n}\n";
    let part_lines = vec![
        "fn evaluate_model() {\n".to_string(),
        "    let a = 100;\n".to_string(),
        "    let b = 200;\n".to_string(),
        "    let c = 300;\n".to_string(),
        "    let d = 400;\n".to_string(),
        "    let e = 505;\n".to_string(),
        "    let f = 600;\n".to_string(),
        "    let g = 700;\n".to_string(),
        "    let h = 800;\n".to_string(),
        "}\n".to_string(),
    ];
    let replace_lines = vec![
        "fn evaluate_model() {\n".to_string(),
        "    let a = 1000;\n".to_string(),
        "}\n".to_string(),
    ];

    let result = replace_closest_edit_distance(&whole_lines, part, &part_lines, &replace_lines);
    assert!(result.is_some());
    assert_eq!(
        result.unwrap(),
        "fn evaluate_model() {\n    let a = 1000;\n}\n"
    );
}

// --- SEARCH/REPLACE Parser Tests ---
#[test]
fn test_parse_diff_blocks_multiple() {
    let diff_payload = r#"
Some descriptive text before the block.

<<<<<<< SEARCH
old_func_1();
=======
new_func_1();
>>>>>>> REPLACE

Middle text...

<<<<<<< SEARCH
old_func_2();
=======
new_func_2();
>>>>>>> REPLACE
"#;
    let blocks = parse_diff_blocks(diff_payload);
    assert_eq!(blocks.len(), 2);
    assert_eq!(blocks[0].0, "old_func_1();");
    assert_eq!(blocks[0].1, "new_func_1();");
    assert_eq!(blocks[1].0, "old_func_2();");
    assert_eq!(blocks[1].1, "new_func_2();");
}

// --- Tree-Sitter / AST Logic Tests ---
#[test]
fn test_tree_sitter_rust_ast_declarations() {
    let src = r#"
            struct Config {
                port: u16,
            }

            impl Config {
                fn init() -> Self {
                    Config { port: 8080 }
                }
            }

            fn execute_task() {}
        "#;

    let tree = parse_syntax_tree(src, true);
    let entities = find_declared_entities(&tree, src, true);

    let has_struct = entities
        .iter()
        .any(|(kind, name)| kind == "struct_item" && name == "Config");
    let has_impl = entities
        .iter()
        .any(|(kind, name)| kind == "impl_item" && name == "Config");
    let has_fn = entities.iter().any(|(kind, name)| {
        kind == "function_item" && name == "init" || name == "execute_task"
    });

    assert!(has_struct, "Failed to resolve struct_item: 'Config'");
    assert!(has_impl, "Failed to resolve impl_item: 'Config'");
    assert!(has_fn, "Failed to resolve function_item signatures");
}

#[test]
fn test_tree_sitter_tsx_ast_declarations() {
    let src = r#"
            class UserProfile extends React.Component {
                render() {
                    return <div>Profile</div>;
                }
            }

            function getUserID() {}
        "#;

    let tree = parse_syntax_tree(src, false);
    let entities = find_declared_entities(&tree, src, false);

    let has_class = entities
        .iter()
        .any(|(kind, name)| kind == "class_declaration" && name == "UserProfile");
    let has_method = entities
        .iter()
        .any(|(kind, name)| kind == "method_definition" && name == "render");
    let has_fn = entities
        .iter()
        .any(|(kind, name)| kind == "function_declaration" && name == "getUserID");

    assert!(has_class, "Failed to find class_declaration: 'UserProfile'");
    assert!(has_method, "Failed to find method_definition: 'render'");
    assert!(has_fn, "Failed to find function_declaration: 'getUserID'");
}

// --- AST Fallback (Tier 3.5) Integration Tests ---
#[test]
fn test_ts_ast_fallback_success() {
    let target = "class ConnectionManager {\n    public connect() {\n        console.log(\"attempting old\");\n    }\n}";
    let search = "   public connect() {\n        console.log(\"attempting old\");\n    }";
    let replacement = "    public connect() {\n        console.log(\"attempting new\");\n    }";

    let result = replace_via_ast_fallback(target, search, replacement, false);
    assert!(result.is_some());

    let updated = result.unwrap();
    assert!(updated.contains("attempting new"));
    assert!(!updated.contains("attempting old"));
}

#[test]
fn test_rust_ast_fallback_success() {
    let target = "impl State {\n    fn transition(&mut self) {\n        self.step = Step::First;\n    }\n}";
    let search = "fn transition  ( &mut self ) {\n        self.step = Step::First;\n    }";
    let replacement =
        "    fn transition(&mut self) {\n        self.step = Step::Second;\n    }";

    let result = replace_via_ast_fallback(target, search, replacement, true);
    assert!(result.is_some());

    let updated = result.unwrap();
    assert!(updated.contains("self.step = Step::Second;"));
    assert!(!updated.contains("self.step = Step::First;"));
}

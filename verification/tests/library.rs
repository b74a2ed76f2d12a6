use aider_patcher::blocks::parse_diff_blocks;
use aider_patcher::chunk::replace_most_similar_chunk;
use aider_patcher::elision::try_dotdotdots;
use aider_patcher::fuzzy::{find_closest_match_context, most_similar_start, most_similar_window};
use aider_patcher::indent::{match_but_for_leading_whitespace, replace_part_with_missing_leading_whitespace};
use aider_patcher::lines::{perfect_replace, prep};
use aider_patcher::patch::{apply_diff, file_kind, files_to_write, FileKind, PatchOutcome};
use aider_patcher::syntax::{
    find_identifier_name, find_matching_node, parse_syntax_tree, parses_cleanly,
    replace_matching_declaration, replace_on_trees, replace_via_ast_fallback, SyntaxNode,
    SyntaxTree,
};

fn lines(v: &[&str]) -> Vec<String> {
    v.iter().map(|s| s.to_string()).collect()
}

#[test]
fn prep_of_empty_text_has_no_lines() {
    let (adjusted, ls) = prep("");
    assert_eq!(adjusted, "");
    assert!(ls.is_empty());
}

#[test]
fn prep_keeps_blank_lines() {
    let (adjusted, ls) = prep("a\n\nb");
    assert_eq!(adjusted, "a\n\nb\n");
    assert_eq!(ls, lines(&["a\n", "\n", "b\n"]));
}

#[test]
fn perfect_replace_with_empty_search_prepends() {
    let whole = lines(&["b\n"]);
    let result = perfect_replace(&whole, &[], &lines(&["a\n"]));
    assert_eq!(result, Some("a\nb\n".to_string()));
}

#[test]
fn perfect_replace_takes_first_occurrence() {
    let whole = lines(&["x\n", "y\n", "x\n"]);
    let result = perfect_replace(&whole, &lines(&["x\n"]), &lines(&["z\n"]));
    assert_eq!(result, Some("z\ny\nx\n".to_string()));
}

#[test]
fn identity_block_leaves_text_unchanged() {
    let (out, strategy) = replace_most_similar_chunk("a\nb\nc", "b", "b");
    assert_eq!(out, Some("a\nb\nc\n".to_string()));
    assert_eq!(strategy, "Exact match (Tier 1)");
}

#[test]
fn match_but_for_leading_whitespace_finds_common_indent() {
    let whole = lines(&["    a\n", "\n", "    b\n"]);
    let part = lines(&["a\n", "  \n", "b\n"]);
    assert_eq!(
        match_but_for_leading_whitespace(&whole, &part),
        Some("    ".to_string())
    );
}

#[test]
fn match_but_for_leading_whitespace_rejects_mixed_indent() {
    let whole = lines(&["    a\n", "  b\n"]);
    let part = lines(&["a\n", "b\n"]);
    assert_eq!(match_but_for_leading_whitespace(&whole, &part), None);
}

#[test]
fn match_but_for_leading_whitespace_rejects_other_text() {
    let whole = lines(&["    a\n"]);
    let part = lines(&["b\n"]);
    assert_eq!(match_but_for_leading_whitespace(&whole, &part), None);
}

#[test]
fn match_but_for_leading_whitespace_needs_a_non_blank_line() {
    let whole = lines(&["  \n"]);
    let part = lines(&["\n"]);
    assert_eq!(match_but_for_leading_whitespace(&whole, &part), None);
}

#[test]
fn ladder_initializes_new_file() {
    let (out, strategy) = replace_most_similar_chunk("", "  \n", "fn a() {}");
    assert_eq!(out, Some("fn a() {}".to_string()));
    assert_eq!(strategy, "New file initialization");
}

#[test]
fn ladder_appends_on_empty_search() {
    let (out, strategy) = replace_most_similar_chunk("fn a() {}\n\n", "", "fn b() {}");
    assert_eq!(out, Some("fn a() {}\nfn b() {}\n".to_string()));
    assert_eq!(strategy, "Empty search block append");
}

#[test]
fn ladder_exact_match() {
    let (out, strategy) = replace_most_similar_chunk("a\nb\nc", "b", "x");
    assert_eq!(out, Some("a\nx\nc\n".to_string()));
    assert_eq!(strategy, "Exact match (Tier 1)");
}

#[test]
fn ladder_indentation_adjusted() {
    let whole = "fn f() {\n    let a = 1;\n}\n";
    let (out, strategy) = replace_most_similar_chunk(whole, "let a = 1;", "let a = 2;");
    assert_eq!(out, Some("fn f() {\n    let a = 2;\n}\n".to_string()));
    assert_eq!(strategy, "Indentation-adjusted match (Tier 2)");
}

#[test]
fn ladder_skips_leading_blank_search_line() {
    let whole = "fn f() {\n    let a = 1;\n}\n";
    let (out, strategy) = replace_most_similar_chunk(whole, "\n  let a = 1;", "  let a = 2;");
    assert_eq!(out, Some("fn f() {\n    let a = 2;\n}\n".to_string()));
    assert_eq!(strategy, "Skipped leading blank line match (Tier 2.1)");
}

#[test]
fn ladder_elision() {
    let whole = "fn test() {\n    let x = 1;\n    let y = 2;\n    println!(\"{}\", x);\n}";
    let part = "fn test() {\n...\n    println!(\"{}\", x);\n}";
    let replace = "fn test() {\n...\n    println!(\"patched\");\n}";
    let (out, strategy) = replace_most_similar_chunk(whole, part, replace);
    assert_eq!(
        out,
        Some("fn test() {\n    let x = 1;\n    let y = 2;\n    println!(\"patched\");\n}".to_string())
    );
    assert_eq!(strategy, "Elision (...) match (Tier 2.5)");
}

#[test]
fn ladder_fuzzy_window() {
    let whole = "fn evaluate_model() {\n    let a = 100;\n    let b = 200;\n    let c = 300;\n    let d = 400;\n    let e = 500;\n    let f = 600;\n    let g = 700;\n    let h = 800;\n}\n";
    let part = "fn evaluate_model() {\n    let a = 100;\n    let b = 200;\n    let c = 300;\n    let d = 400;\n    let e = 505;\n    let f = 600;\n    let g = 700;\n    let h = 800;\n}\n";
    let replace = "fn evaluate_model() {\n    let a = 1000;\n}";
    let (out, strategy) = replace_most_similar_chunk(whole, part, replace);
    assert_eq!(
        out,
        Some("fn evaluate_model() {\n    let a = 1000;\n}\n".to_string())
    );
    assert_eq!(strategy, "Fuzzy sequence match (Tier 3)");
}

#[test]
fn ladder_fails_on_unrelated_search() {
    let (out, strategy) = replace_most_similar_chunk("a\n", "zzz", "y");
    assert_eq!(out, None);
    assert_eq!(strategy, "Failed to match");
}

#[test]
fn elision_needs_markers_in_both_texts() {
    assert_eq!(try_dotdotdots("a\nb\n", "a\nb\n", "a\n...\nb\n"), None);
    assert_eq!(try_dotdotdots("a\nb\n", "a\n...\nb\n", "a\nb\n"), None);
}

#[test]
fn elision_needs_equal_segment_counts() {
    assert_eq!(try_dotdotdots("a\nb\nc\n", "a\n...\nb\n...\nc", "x\n...\ny"), None);
}

#[test]
fn elision_empty_search_segment_appends() {
    assert_eq!(
        try_dotdotdots("a\n", "a\n...", "a\n...\nb"),
        Some("a\n\nb".to_string())
    );
}

#[test]
fn elision_missing_segment_fails() {
    assert_eq!(try_dotdotdots("a\n", "q\n...\nb", "r\n...\nb"), None);
}

#[test]
fn diff_blocks_accept_crlf() {
    let blocks = parse_diff_blocks("<<<<<<< SEARCH\r\nold\r\n=======\r\nnew\r\n>>>>>>> REPLACE\r\n");
    assert_eq!(blocks, vec![("old".to_string(), "new".to_string())]);
}

#[test]
fn diff_block_without_closing_line_runs_to_end() {
    let blocks = parse_diff_blocks("<<<<<<< SEARCH\na\n=======\nb\nc");
    assert_eq!(blocks, vec![("a".to_string(), "b\nc".to_string())]);
}

#[test]
fn diff_block_without_divider_is_dropped() {
    let blocks = parse_diff_blocks("<<<<<<< SEARCH\na\nb\n");
    assert!(blocks.is_empty());
}

#[test]
fn diff_text_without_blocks_gives_none() {
    assert!(parse_diff_blocks("just prose\n=======\n").is_empty());
}

#[test]
fn closest_context_shows_lines_around_best_window() {
    let whole = "l1\nl2\nl3\nl4\nl5\nl6\nl7\n";
    assert_eq!(find_closest_match_context(whole, "l4"), "l2\nl3\nl4\nl5\nl6\n");
}

#[test]
fn closest_context_of_empty_search_is_text_start() {
    assert_eq!(find_closest_match_context("abc", ""), "abc");
    let long = "x".repeat(600);
    assert_eq!(find_closest_match_context(&long, "").len(), 500);
}

#[test]
fn file_kinds_follow_extensions() {
    assert!(matches!(file_kind("src/main.rs"), FileKind::Rust));
    assert!(matches!(file_kind("web/app.tsx"), FileKind::Script));
    assert!(matches!(file_kind("web/app.js"), FileKind::Script));
    assert!(matches!(file_kind("README.md"), FileKind::Other));
}

#[test]
fn apply_diff_applies_blocks_in_order() {
    let diff = "<<<<<<< SEARCH\na\n=======\nb\n>>>>>>> REPLACE\n<<<<<<< SEARCH\nb\n=======\nc\n>>>>>>> REPLACE\n";
    match apply_diff("a\n", diff, FileKind::Other) {
        PatchOutcome::Applied {
            content,
            strategies,
        } => {
            assert_eq!(content, "c\n");
            assert_eq!(
                strategies,
                vec!["Exact match (Tier 1)", "Exact match (Tier 1)"]
            );
        }
        _ => panic!("expected the blocks to apply"),
    }
}

#[test]
fn apply_diff_stops_at_first_failure() {
    let diff = "<<<<<<< SEARCH\na\n=======\nb\n>>>>>>> REPLACE\n<<<<<<< SEARCH\nzzz\n=======\nc\n>>>>>>> REPLACE\n";
    match apply_diff("a\n", diff, FileKind::Other) {
        PatchOutcome::Failed {
            content,
            strategies,
            failed,
        } => {
            assert_eq!(content, "b\n");
            assert_eq!(strategies.len(), 1);
            assert_eq!(failed, 1);
        }
        _ => panic!("expected the second block to fail"),
    }
}

#[test]
fn apply_diff_without_blocks() {
    assert!(matches!(
        apply_diff("a\n", "no blocks here", FileKind::Other),
        PatchOutcome::NoBlocks
    ));
}

#[test]
fn apply_diff_reports_misaligned_indentation() {
    let diff = "<<<<<<< SEARCH\n\u{a0}a\n=======\n b\n>>>>>>> REPLACE\n";
    assert!(matches!(
        apply_diff("x\n", diff, FileKind::Other),
        PatchOutcome::Misaligned { block: 0, .. }
    ));
}

#[test]
fn apply_diff_uses_syntax_tree_tier() {
    let target = "impl State {\n    fn transition(&mut self) {\n        self.step = Step::First;\n    }\n}";
    let diff = "<<<<<<< SEARCH\nfn transition  ( &mut self ) {\n        self.step = Step::First;\n    }\n=======\n    fn transition(&mut self) {\n        self.step = Step::Second;\n    }\n>>>>>>> REPLACE\n";
    match apply_diff(target, diff, FileKind::Rust) {
        PatchOutcome::Applied {
            content,
            strategies,
        } => {
            assert_eq!(
                content,
                "impl State {\n        fn transition(&mut self) {\n        self.step = Step::Second;\n    }\n}"
            );
            assert_eq!(strategies, vec!["AST-Node Replacement (Tier 3.6)"]);
        }
        _ => panic!("expected the syntax-tree tier to apply"),
    }
}

#[test]
fn syntax_tree_replacement_takes_export_statement() {
    let target = "export function foo() {\n  return 1;\n}\n";
    let result = replace_via_ast_fallback(
        target,
        "function foo() { return 0; }",
        "function foo() {\n  return 2;\n}",
        false,
    );
    assert_eq!(result, Some("function foo() {\n  return 2;\n}\n".to_string()));
}

#[test]
fn matching_node_and_its_name() {
    let src = "struct A {}\nfn b() {}\n";
    let tree = parse_syntax_tree(src, true);
    let i = find_matching_node(&tree, "function_item", "b", src).unwrap();
    assert_eq!(tree.nodes[i].kind, "function_item");
    assert_eq!(find_identifier_name(&tree, src, i), Some("b".to_string()));
    assert_eq!(find_matching_node(&tree, "struct_item", "b", src), None);
}

#[test]
fn declaration_replacement_on_a_given_tree() {
    let source = "fn b() {}\n";
    let node = |kind: &str, start_byte, end_byte, depth| SyntaxNode {
        kind: kind.to_string(),
        start_byte,
        end_byte,
        depth,
    };
    let tree = SyntaxTree {
        nodes: vec![
            node("source_file", 0, 10, 0),
            node("function_item", 0, 9, 1),
            node("identifier", 3, 4, 2),
        ],
    };
    let entities = vec![("function_item".to_string(), "b".to_string())];
    assert_eq!(
        replace_matching_declaration(&tree, source, &entities, "fn c() {}", true),
        Some("fn c() {}\n".to_string())
    );
    let missing = vec![("function_item".to_string(), "q".to_string())];
    assert_eq!(
        replace_matching_declaration(&tree, source, &missing, "fn c() {}", true),
        None
    );
}

#[test]
fn written_block_reads_back() {
    let text = "<<<<<<< SEARCH\na\nb\n=======\nc\n>>>>>>> REPLACE\n";
    assert_eq!(
        parse_diff_blocks(text),
        vec![("a\nb".to_string(), "c".to_string())]
    );
}

#[test]
fn elision_with_identical_texts_changes_nothing() {
    let whole = "fn f() {\n    body();\n}\n";
    let part = "fn f() {\n...\n}\n";
    assert_eq!(try_dotdotdots(whole, part, part), Some(whole.to_string()));
}

#[test]
fn prepared_lines_end_with_newlines() {
    let (adjusted, ls) = prep("x\ny");
    assert!(ls.iter().all(|l| l.ends_with('\n')));
    assert_eq!(ls.concat(), adjusted);
    let (again, _) = prep(&adjusted);
    assert_eq!(again, adjusted);
}

#[test]
fn indentation_found_restores_lines() {
    let whole = lines(&["  a\n", "  b\n"]);
    let part = lines(&["a\n", "b\n"]);
    let add = match_but_for_leading_whitespace(&whole, &part).unwrap();
    for (w, p) in whole.iter().zip(part.iter()) {
        assert_eq!(*w, format!("{}{}", add, p.trim_start()));
    }
}

#[test]
fn name_lookup_skips_unreadable_identifier() {
    let source = "fn é(x) {}";
    let node = |kind: &str, start_byte, end_byte, depth| SyntaxNode {
        kind: kind.to_string(),
        start_byte,
        end_byte,
        depth,
    };
    let tree = SyntaxTree {
        nodes: vec![
            node("function_item", 0, 11, 0),
            node("identifier", 3, 4, 1),
            node("identifier", 6, 7, 1),
            node("identifier", 100, 200, 1),
        ],
    };
    assert_eq!(find_identifier_name(&tree, source, 0), Some("x".to_string()));
}

#[test]
fn apply_diff_rejects_broken_syntax() {
    let diff = "<<<<<<< SEARCH\nfn a() {}\n=======\nfn a( {\n>>>>>>> REPLACE\n";
    match apply_diff("fn a() {}\n", diff, FileKind::Rust) {
        PatchOutcome::SyntaxError {
            content,
            strategies,
        } => {
            assert_eq!(content, "fn a( {\n");
            assert_eq!(strategies, vec!["Exact match (Tier 1)"]);
        }
        _ => panic!("expected a syntax error"),
    }
}

#[test]
fn syntax_check_accepts_valid_code() {
    assert!(parses_cleanly("fn a() {}\n", true));
    assert!(!parses_cleanly("fn a( {\n", true));
    assert!(parses_cleanly("export function f() { return 1; }\n", false));
    assert!(!parses_cleanly("function f( {\n", false));
}

#[test]
fn apply_diff_names_script_syntax_tree_tier() {
    let target = "class ConnectionManager {\n    public connect() {\n        console.log(\"attempting old\");\n    }\n}";
    let diff = "<<<<<<< SEARCH\n   public connect() {\n        console.log(\"attempting old\");\n    }\n=======\n    public connect() {\n        console.log(\"attempting new\");\n    }\n>>>>>>> REPLACE\n";
    match apply_diff(target, diff, FileKind::Script) {
        PatchOutcome::Applied {
            content,
            strategies,
        } => {
            assert_eq!(
                content,
                "class ConnectionManager {\n        public connect() {\n        console.log(\"attempting new\");\n    }\n}"
            );
            assert_eq!(strategies, vec!["AST-Node Replacement (Tier 3.5)"]);
        }
        _ => panic!("expected the syntax-tree tier to apply"),
    }
}

fn applied(text: &str) -> Option<PatchOutcome> {
    Some(PatchOutcome::Applied {
        content: text.to_string(),
        strategies: vec!["Exact match (Tier 1)"],
    })
}

#[test]
fn all_files_through_are_written() {
    let results = vec![applied("a"), Some(PatchOutcome::NoBlocks), applied("b")];
    assert_eq!(files_to_write(&results), Some(vec![0, 2]));
    assert_eq!(files_to_write(&[]), Some(vec![]));
}

#[test]
fn any_failure_writes_nothing() {
    let failed = Some(PatchOutcome::Failed {
        content: "x".to_string(),
        strategies: vec![],
        failed: 0,
    });
    assert_eq!(files_to_write(&[applied("a"), failed]), None);
    assert_eq!(files_to_write(&[None, applied("a")]), None);
    let broken = Some(PatchOutcome::SyntaxError {
        content: "fn a( {".to_string(),
        strategies: vec!["Exact match (Tier 1)"],
    });
    assert_eq!(files_to_write(&[applied("a"), broken]), None);
}

#[test]
fn syntax_tier_on_given_trees() {
    let node = |kind: &str, start_byte, end_byte, depth| SyntaxNode {
        kind: kind.to_string(),
        start_byte,
        end_byte,
        depth,
    };
    let content = "fn b() {}\n";
    let whole = SyntaxTree {
        nodes: vec![
            node("source_file", 0, 10, 0),
            node("function_item", 0, 9, 1),
            node("identifier", 3, 4, 2),
        ],
    };
    let replacement = "fn b() { 1 }";
    let rep_tree = SyntaxTree {
        nodes: vec![
            node("source_file", 0, 12, 0),
            node("function_item", 0, 12, 1),
            node("identifier", 3, 4, 2),
        ],
    };
    let search = "fn b() {}";
    let search_tree = SyntaxTree {
        nodes: vec![
            node("source_file", 0, 9, 0),
            node("function_item", 0, 9, 1),
            node("identifier", 3, 4, 2),
        ],
    };
    let empty = SyntaxTree { nodes: vec![] };
    assert_eq!(
        replace_on_trees(&whole, content, &rep_tree, replacement, &search_tree, search, &empty, &empty, true),
        Some("fn b() { 1 }\n".to_string())
    );
    let bad_rep = SyntaxTree {
        nodes: vec![node("source_file", 0, 12, 0), node("identifier", 3, 100, 1)],
    };
    assert_eq!(
        replace_on_trees(&whole, content, &bad_rep, replacement, &search_tree, search, &empty, &empty, true),
        None
    );
}

#[test]
fn most_similar_window_takes_first_greatest() {
    let table = vec![vec![3, 7, 7], vec![], vec![7, 2]];
    assert_eq!(most_similar_window(&table), Some((0, 1)));
    let table = vec![vec![1, 2], vec![9]];
    assert_eq!(most_similar_window(&table), Some((1, 0)));
}

#[test]
fn most_similar_window_needs_a_positive_ratio() {
    assert_eq!(most_similar_window(&[vec![0, 0], vec![0]]), None);
    assert_eq!(most_similar_window(&[]), None);
}

#[test]
fn most_similar_start_takes_first_greatest() {
    assert_eq!(most_similar_start(&[4, 9, 1, 9]), 1);
    assert_eq!(most_similar_start(&[0, 0]), 0);
    assert_eq!(most_similar_start(&[5]), 0);
}

#[test]
fn same_extra_indentation_changes_nothing() {
    let whole = lines(&["fn a() {\n", "    x();\n", "    z();\n", "}\n"]);
    let part = lines(&["x();\n", "z();\n"]);
    let replace = lines(&["y();\n", "\n", "w();\n"]);
    let shifted_part = lines(&["   x();\n", "   z();\n"]);
    let shifted_replace = lines(&["   y();\n", "\n", "   w();\n"]);
    let plain = replace_part_with_missing_leading_whitespace(&whole, &part, &replace);
    assert_eq!(plain, Some("fn a() {\n    y();\n\n    w();\n}\n".to_string()));
    assert_eq!(
        replace_part_with_missing_leading_whitespace(&whole, &shifted_part, &shifted_replace),
        plain
    );
}

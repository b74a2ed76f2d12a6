//! The syntax-tree tier: declarations named in the search or replacement
//! text are looked up in the syntax tree of the file, and the first one found
//! is replaced whole.
//!
//! A tree is held as its nodes in pre-order, each with its kind, byte span
//! and depth; the subtree of a node is the run of deeper nodes that follows
//! it. The trees come from tree-sitter, with the Rust grammar or the TSX
//! grammar (which also reads TypeScript and JavaScript).
use vstd::prelude::*;
use tree_sitter::{Parser, Tree};
use crate::text::{byte_len, char_width, chars_of, opt_int, str_eq, string_of_range, lemma_byte_len_append};
use crate::lines::{first_where, lemma_first_where, lemma_first_where_is};
use crate::indent::{chars_in_bytes, lemma_chars_in_bytes, char_count_for_bytes};

verus! {

broadcast use vstd::seq_lib::group_seq_properties;

#[verifier::external_type_specification]
#[verifier::external_body]
pub struct ExTree(Tree);

/// A node as tree-sitter reports it: its kind, start byte, end byte, depth
/// below the root, and whether it is or holds a syntax error.
pub type ParsedNode = (Seq<char>, usize, usize, usize, bool);

/// The nodes of a tree, in pre-order (the order of `TreeCursor::goto_descendant`
/// from the root, index 0 being the root), as tree-sitter reports them.
pub uninterp spec fn tree_nodes(t: Tree) -> Seq<ParsedNode>;

/// The nodes of the tree that tree-sitter's Rust grammar gives for `text`.
pub uninterp spec fn rust_parse(text: Seq<char>) -> Seq<ParsedNode>;

/// The nodes of the tree that tree-sitter's TSX grammar gives for `text`.
pub uninterp spec fn script_parse(text: Seq<char>) -> Seq<ParsedNode>;

/// The nodes of the parse of `text` with the Rust grammar or the TSX grammar.
pub open spec fn parsed(is_rust: bool, text: Seq<char>) -> Seq<ParsedNode> {
    if is_rust {
        rust_parse(text)
    } else {
        script_parse(text)
    }
}

/// `Parser::parse` of `text` by a parser given tree-sitter-rust's `LANGUAGE`.
/// The contract claims that the tree's nodes are a function of the text
/// (parsing is deterministic, with no old tree and no time limit). Setting a
/// bundled grammar succeeds and a parser with a language always gives a tree.
#[verifier::external_body]
fn ts_parse_rust(text: &str) -> (t: Tree)
    ensures
        tree_nodes(t) == rust_parse(text@),
{
    let mut parser = Parser::new();
    parser.set_language(&tree_sitter_rust::LANGUAGE.into()).unwrap();
    parser.parse(text, None).unwrap()
}

/// `Parser::parse` of `text` by a parser given tree-sitter-typescript's
/// `LANGUAGE_TSX`. The contract claims that the tree's nodes are a function
/// of the text, as for the Rust grammar.
#[verifier::external_body]
fn ts_parse_script(text: &str) -> (t: Tree)
    ensures
        tree_nodes(t) == script_parse(text@),
{
    let mut parser = Parser::new();
    parser.set_language(&tree_sitter_typescript::LANGUAGE_TSX.into()).unwrap();
    parser.parse(text, None).unwrap()
}

/// `Node::descendant_count` of the root: the number of nodes of the tree,
/// which counts the root itself.
#[verifier::external_body]
fn ts_node_count(tree: &Tree) -> (n: usize)
    ensures
        n == tree_nodes(*tree).len(),
        n >= 1,
{
    tree.root_node().descendant_count()
}

/// Node `i` of the tree in pre-order, read through a cursor on the root that
/// `TreeCursor::goto_descendant` moves there: `Node::kind`, `start_byte`,
/// `end_byte`, the cursor's `depth`, and `Node::has_error`.
#[verifier::external_body]
fn ts_node_at(tree: &Tree, i: usize) -> (r: (String, usize, usize, usize, bool))
    requires
        i < tree_nodes(*tree).len(),
    ensures
        (r.0@, r.1, r.2, r.3, r.4) == tree_nodes(*tree)[i as int],
{
    let mut cursor = tree.walk();
    cursor.goto_descendant(i);
    let node = cursor.node();
    (node.kind().to_string(), node.start_byte(), node.end_byte(), cursor.depth() as usize, node.has_error())
}

/// The parse of a text, with the Rust grammar or the TSX grammar.
fn parse_tree(text: &str, is_rust: bool) -> (t: Tree)
    ensures
        tree_nodes(t) == parsed(is_rust, text@),
{
    if is_rust {
        ts_parse_rust(text)
    } else {
        ts_parse_script(text)
    }
}

/// The parse of `text` has a syntax error: the root is or holds one.
pub open spec fn parse_has_error(is_rust: bool, text: Seq<char>) -> bool {
    parsed(is_rust, text).len() > 0 && parsed(is_rust, text)[0].4
}

/// Whether `text` parses without a syntax error anywhere in it.
pub fn parses_cleanly(text: &str, is_rust: bool) -> (r: bool)
    ensures
        r == !parse_has_error(is_rust, text@),
{
    let tree = parse_tree(text, is_rust);
    let _ = ts_node_count(&tree);
    let root = ts_node_at(&tree, 0);
    !root.4
}

/// A node of a syntax tree: its kind, its byte span in the source, and its
/// depth below the root.
pub struct SyntaxNode {
    pub kind: String,
    pub start_byte: usize,
    pub end_byte: usize,
    pub depth: usize,
}

/// A node as the tree logic reads it: kind, start byte, end byte, depth.
pub type NodeView = (Seq<char>, usize, usize, usize);

/// A syntax tree as its nodes in pre-order.
pub struct SyntaxTree {
    pub nodes: Vec<SyntaxNode>,
}

impl View for SyntaxTree {
    type V = Seq<NodeView>;

    open spec fn view(&self) -> Seq<NodeView> {
        self.nodes@.map_values(|n: SyntaxNode| (n.kind@, n.start_byte, n.end_byte, n.depth))
    }
}

/// The nodes of a parse as the tree logic reads them.
pub open spec fn node_views(ns: Seq<ParsedNode>) -> Seq<NodeView> {
    ns.map_values(|n: ParsedNode| (n.0, n.1, n.2, n.3))
}

/// The text between two byte offsets of `src`, as `Node::utf8_text` gives it:
/// present when both offsets fall on character boundaries (or the span is
/// empty).
pub open spec fn text_at_bytes(src: Seq<char>, s: int, e: int) -> Option<Seq<char>> {
    match (chars_in_bytes(src, s), chars_in_bytes(src, e)) {
        (Some(a), Some(b)) => Some(src.subrange(a, b)),
        _ => if s == e {
            Some(seq![])
        } else {
            None
        },
    }
}

/// The kinds whose text names a declaration.
pub open spec fn is_ident_kind(k: Seq<char>) -> bool {
    k == "identifier"@ || k == "type_identifier"@ || k == "property_identifier"@
}

/// The declaration kinds looked up: Rust items, or TypeScript/JavaScript
/// declarations.
pub open spec fn is_target_kind(k: Seq<char>, is_rust: bool) -> bool {
    if is_rust {
        k == "function_item"@ || k == "struct_item"@ || k == "enum_item"@ || k == "trait_item"@ || k
            == "impl_item"@ || k == "mod_item"@
    } else {
        k == "function_declaration"@ || k == "class_declaration"@ || k == "interface_declaration"@
            || k == "method_definition"@ || k == "generator_function_declaration"@
    }
}

/// Where the subtree of node `i` ends: the next node no deeper than it.
pub open spec fn subtree_end(t: Seq<NodeView>, i: int) -> int {
    match first_where(i + 1, t.len() as int, |j: int| t[j].3 <= t[i].3) {
        Some(j) => j,
        None => t.len() as int,
    }
}

/// Node `j` is an identifier whose text can be read.
pub open spec fn is_named_ident(t: Seq<NodeView>, src: Seq<char>, j: int) -> bool {
    is_ident_kind(t[j].0) && text_at_bytes(src, t[j].1 as int, t[j].2 as int) is Some
}

/// The name of node `i`: the text of the first identifier of its subtree in
/// pre-order.
pub open spec fn ident_name(t: Seq<NodeView>, src: Seq<char>, i: int) -> Option<Seq<char>> {
    match first_where(i, subtree_end(t, i), |j: int| is_named_ident(t, src, j)) {
        Some(j) => text_at_bytes(src, t[j].1 as int, t[j].2 as int),
        None => None,
    }
}

/// The byte span of node `j` can be sliced out of the source.
pub open spec fn span_fits(t: Seq<NodeView>, src: Seq<char>, j: int) -> bool {
    t[j].1 <= t[j].2 <= byte_len(src)
}

/// Reading the text of any identifier node does not panic.
pub open spec fn ident_spans_ok(t: Seq<NodeView>, src: Seq<char>) -> bool {
    forall|j: int| 0 <= j < t.len() && is_ident_kind(#[trigger] t[j].0) ==> span_fits(t, src, j)
}

/// Looking up the name of node `i` does not panic: every identifier that the
/// lookup reads (those of the subtree up to the first one with a readable
/// text) can be sliced out of the source.
pub open spec fn name_reads_ok(t: Seq<NodeView>, src: Seq<char>, i: int) -> bool {
    forall|j: int|
        i <= j < subtree_end(t, i) && is_ident_kind(#[trigger] t[j].0) && (forall|k: int|
            i <= k < j ==> !is_named_ident(t, src, k)) ==> span_fits(t, src, j)
}

/// Collecting the declarations does not panic: the name of every node of a
/// declaration kind can be looked up.
pub open spec fn declared_reads_ok(t: Seq<NodeView>, src: Seq<char>, is_rust: bool) -> bool {
    forall|i: int|
        0 <= i < t.len() && is_target_kind(#[trigger] t[i].0, is_rust) ==> name_reads_ok(
            t,
            src,
            i,
        )
}

/// Node `i` has the given kind and name.
pub open spec fn is_match(t: Seq<NodeView>, src: Seq<char>, kind: Seq<char>, name: Seq<char>, i: int) -> bool {
    t[i].0 == kind && ident_name(t, src, i) == Some(name)
}

/// Searching for a node of the given kind and name does not panic: the name
/// of every node of that kind up to the first match can be looked up.
pub open spec fn match_reads_ok(t: Seq<NodeView>, src: Seq<char>, kind: Seq<char>, name: Seq<char>) -> bool {
    forall|i: int|
        0 <= i < t.len() && #[trigger] t[i].0 == kind && (forall|k: int|
            0 <= k < i ==> !is_match(t, src, kind, name, k)) ==> name_reads_ok(t, src, i)
}

/// Searching for the entities in order does not panic: the search for each
/// entity up to the first that the tree holds reads only what it can.
pub open spec fn target_reads_ok(t: Seq<NodeView>, src: Seq<char>, ents: Seq<(Seq<char>, Seq<char>)>) -> bool {
    forall|e: int|
        0 <= e < ents.len() && (forall|k: int|
            0 <= k < e ==> matching_node(t, src, ents[k].0, ents[k].1) is None) ==> match_reads_ok(
            t,
            src,
            #[trigger] ents[e].0,
            ents[e].1,
        )
}

/// Identifier spans that all fit make every lookup safe.
pub proof fn lemma_spans_ok_reads(t: Seq<NodeView>, src: Seq<char>)
    requires
        ident_spans_ok(t, src),
    ensures
        forall|i: int| 0 <= i < t.len() ==> #[trigger] name_reads_ok(t, src, i),
        forall|r: bool| #[trigger] declared_reads_ok(t, src, r),
        forall|kind: Seq<char>, name: Seq<char>| #[trigger] match_reads_ok(t, src, kind, name),
        forall|ents: Seq<(Seq<char>, Seq<char>)>| #[trigger] target_reads_ok(t, src, ents),
{
    assert forall|i: int| 0 <= i < t.len() implies #[trigger] name_reads_ok(t, src, i) by {
        lemma_first_where(i + 1, t.len() as int, |j: int| t[j].3 <= t[i].3);
    }
}

/// The declarations among the first `n` nodes, in pre-order, with their
/// names.
pub open spec fn declared_upto(t: Seq<NodeView>, src: Seq<char>, is_rust: bool, n: int) -> Seq<
    (Seq<char>, Seq<char>),
>
    decreases n,
{
    if n <= 0 || n > t.len() {
        seq![]
    } else {
        let rest = declared_upto(t, src, is_rust, n - 1);
        let k = t[n - 1].0;
        if is_target_kind(k, is_rust) && ident_name(t, src, n - 1) is Some {
            rest.push((k, ident_name(t, src, n - 1)->0))
        } else {
            rest
        }
    }
}

/// The declarations of a tree, in pre-order, with their names.
pub open spec fn declared_entities(t: Seq<NodeView>, src: Seq<char>, is_rust: bool) -> Seq<
    (Seq<char>, Seq<char>),
> {
    declared_upto(t, src, is_rust, t.len() as int)
}

/// The first node, in pre-order, of the given kind and name.
pub open spec fn matching_node(t: Seq<NodeView>, src: Seq<char>, kind: Seq<char>, name: Seq<char>) -> Option<int> {
    first_where(0, t.len() as int, |i: int| t[i].0 == kind && ident_name(t, src, i) == Some(name))
}

/// The parent of node `i`, looking back from `j`: the nearest earlier node
/// that is shallower.
pub open spec fn parent_from(t: Seq<NodeView>, i: int, j: int) -> Option<int>
    decreases j + 1,
{
    if j < 0 {
        None
    } else if t[j].3 < t[i].3 {
        Some(j)
    } else {
        parent_from(t, i, j - 1)
    }
}

/// The parent of node `i`.
pub open spec fn parent_of(t: Seq<NodeView>, i: int) -> Option<int> {
    parent_from(t, i, i - 1)
}

/// The node replaced for a match at `i`: outside Rust, an enclosing
/// `export_statement` is replaced with it.
pub open spec fn replaced_node(t: Seq<NodeView>, i: int, is_rust: bool) -> int {
    if !is_rust && parent_of(t, i) is Some && t[parent_of(t, i)->0].0 == "export_statement"@ {
        parent_of(t, i)->0
    } else {
        i
    }
}

/// The node of the first entity, in order, that the tree holds.
pub open spec fn declaration_target(
    t: Seq<NodeView>,
    src: Seq<char>,
    ents: Seq<(Seq<char>, Seq<char>)>,
) -> Option<int> {
    match first_where(0, ents.len() as int, |e: int| matching_node(t, src, ents[e].0, ents[e].1) is Some) {
        Some(e) => matching_node(t, src, ents[e].0, ents[e].1),
        None => None,
    }
}

/// The byte span of the replaced node is ordered and falls on character
/// boundaries of the source (slicing there does not panic).
pub open spec fn target_span_ok(
    t: Seq<NodeView>,
    src: Seq<char>,
    ents: Seq<(Seq<char>, Seq<char>)>,
    is_rust: bool,
) -> bool {
    match declaration_target(t, src, ents) {
        None => true,
        Some(i) => {
            let n = replaced_node(t, i, is_rust);
            t[n].1 <= t[n].2 && chars_in_bytes(src, t[n].1 as int) is Some && chars_in_bytes(
                src,
                t[n].2 as int,
            ) is Some
        },
    }
}

/// The source with the span of the replaced node swapped for the replacement.
pub open spec fn declaration_replace_result(
    t: Seq<NodeView>,
    src: Seq<char>,
    ents: Seq<(Seq<char>, Seq<char>)>,
    replacement: Seq<char>,
    is_rust: bool,
) -> Option<Seq<char>> {
    match declaration_target(t, src, ents) {
        None => None,
        Some(i) => {
            let n = replaced_node(t, i, is_rust);
            Some(
                src.take(chars_in_bytes(src, t[n].1 as int)->0) + replacement + src.skip(
                    chars_in_bytes(src, t[n].2 as int)->0,
                ),
            )
        },
    }
}

/// Text at character boundaries.
proof fn lemma_text_bounds(src: Seq<char>, s: int, e: int)
    requires
        s <= e,
    ensures
        chars_in_bytes(src, s) matches Some(a) ==> chars_in_bytes(src, e) matches Some(b) ==> 0 <= a
            <= b <= src.len(),
{
    lemma_chars_in_bytes(src, s);
    lemma_chars_in_bytes(src, e);
    if let (Some(a), Some(b)) = (chars_in_bytes(src, s), chars_in_bytes(src, e)) {
        if a > b {
            assert(src.take(a) =~= src.take(b) + src.subrange(b, a));
            lemma_byte_len_append(src.take(b), src.subrange(b, a));
            let mid = src.subrange(b, a);
            assert(byte_len(mid) >= char_width(mid.last()));
        }
    }
}

/// The text between two byte offsets.
fn text_between(src: &[char], s: usize, e: usize) -> (r: Option<String>)
    requires
        s <= e,
    ensures
        r.deep_view() == text_at_bytes(src@, s as int, e as int),
{
    proof {
        lemma_text_bounds(src@, s as int, e as int);
    }
    match (char_count_for_bytes(src, s), char_count_for_bytes(src, e)) {
        (Some(a), Some(b)) => Some(string_of_range(src, a, b)),
        _ => {
            if s == e {
                Some(String::new())
            } else {
                None
            }
        },
    }
}

fn kind_is(kind: &String, lit: &str) -> (r: bool)
    ensures
        r == (kind@ == lit@),
{
    str_eq(kind.as_str(), lit)
}

fn ident_kind(kind: &String) -> (r: bool)
    ensures
        r == is_ident_kind(kind@),
{
    kind_is(kind, "identifier") || kind_is(kind, "type_identifier") || kind_is(
        kind,
        "property_identifier",
    )
}

fn target_kind(kind: &String, is_rust: bool) -> (r: bool)
    ensures
        r == is_target_kind(kind@, is_rust),
{
    if is_rust {
        kind_is(kind, "function_item") || kind_is(kind, "struct_item") || kind_is(kind, "enum_item")
            || kind_is(kind, "trait_item") || kind_is(kind, "impl_item") || kind_is(kind, "mod_item")
    } else {
        kind_is(kind, "function_declaration") || kind_is(kind, "class_declaration") || kind_is(
            kind,
            "interface_declaration",
        ) || kind_is(kind, "method_definition") || kind_is(kind, "generator_function_declaration")
    }
}

/// Where the subtree of node `i` ends.
fn subtree_end_of(t: &SyntaxTree, i: usize) -> (e: usize)
    requires
        i < t@.len(),
    ensures
        e == subtree_end(t@, i as int),
        i < e <= t@.len(),
{
    let ghost f = |j: int| t@[j].3 <= t@[i as int].3;
    let n = t.nodes.len();
    let d = t.nodes[i].depth;
    let mut j = i + 1;
    while j < n && t.nodes[j].depth > d
        invariant
            i < j <= n == t@.len(),
            d == t@[i as int].3,
            f == (|j: int| t@[j].3 <= t@[i as int].3),
            first_where(i + 1, n as int, f) == first_where(j as int, n as int, f),
        decreases n - j,
    {
        j = j + 1;
    }
    proof {
        lemma_first_where(j as int, n as int, f);
    }
    j
}

/// The name of node `i`: the text of the first identifier in its subtree.
fn ident_name_of(t: &SyntaxTree, src: &[char], i: usize) -> (r: Option<String>)
    requires
        i < t@.len(),
        name_reads_ok(t@, src@, i as int),
    ensures
        r.deep_view() == ident_name(t@, src@, i as int),
{
    let ghost tn = t@;
    let ghost f = |j: int| is_named_ident(tn, src@, j);
    let end = subtree_end_of(t, i);
    let mut j = i;
    while j < end
        invariant
            i <= j <= end <= tn.len(),
            tn == t@,
            end == subtree_end(tn, i as int),
            name_reads_ok(tn, src@, i as int),
            f == (|j: int| is_named_ident(tn, src@, j)),
            first_where(i as int, end as int, f) == first_where(j as int, end as int, f),
            forall|k: int| i <= k < j ==> !is_named_ident(tn, src@, k),
        decreases end - j,
    {
        let node = &t.nodes[j];
        if ident_kind(&node.kind) {
            assert(is_ident_kind(tn[j as int].0));
            assert(span_fits(tn, src@, j as int));
            let text = text_between(src, node.start_byte, node.end_byte);
            if text.is_some() {
                assert(f(j as int));
                return text;
            }
        }
        assert(!is_named_ident(tn, src@, j as int));
        j = j + 1;
    }
    proof {
        lemma_first_where(j as int, end as int, f);
    }
    None
}

/// The name of node `node`: the text of the first identifier in its subtree,
/// in pre-order.
pub fn find_identifier_name(tree: &SyntaxTree, source: &str, node: usize) -> (r: Option<String>)
    requires
        node < tree@.len(),
        name_reads_ok(tree@, source@, node as int),
    ensures
        r.deep_view() == ident_name(tree@, source@, node as int),
{
    let src = chars_of(source);
    ident_name_of(tree, src.as_slice(), node)
}

/// Whether the identifier spans of a tree lie within the source.
pub fn ident_spans_within(t: &SyntaxTree, src: &[char]) -> (r: bool)
    ensures
        r == ident_spans_ok(t@, src@),
{
    let total = crate::text::utf8_len_checked(src);
    let mut j: usize = 0;
    while j < t.nodes.len()
        invariant
            0 <= j <= t@.len(),
            total matches Some(b) ==> b == byte_len(src@),
            total is None ==> byte_len(src@) > usize::MAX,
            forall|k: int|
                0 <= k < j && is_ident_kind(#[trigger] t@[k].0) ==> t@[k].1
                    <= t@[k].2 <= byte_len(src@),
        decreases t@.len() - j,
    {
        let node = &t.nodes[j];
        if ident_kind(&node.kind) {
            let ok = match total {
                Some(b) => node.start_byte <= node.end_byte && node.end_byte <= b,
                None => node.start_byte <= node.end_byte,
            };
            if !ok {
                assert(is_ident_kind(t@[j as int].0));
                assert(!span_fits(t@, src@, j as int));
                return false;
            }
        }
        j = j + 1;
    }
    true
}

/// The declarations of a tree (Rust items, or TypeScript/JavaScript
/// declarations), in pre-order, each with the text of its first identifier.
pub fn find_declared_entities(tree: &SyntaxTree, source: &str, is_rust: bool) -> (ents: Vec<
    (String, String),
>)
    requires
        declared_reads_ok(tree@, source@, is_rust),
    ensures
        ents.deep_view() == declared_entities(tree@, source@, is_rust),
{
    let src = chars_of(source);
    declared_in(tree, src.as_slice(), is_rust)
}

fn declared_in(tree: &SyntaxTree, src: &[char], is_rust: bool) -> (ents: Vec<(String, String)>)
    requires
        declared_reads_ok(tree@, src@, is_rust),
    ensures
        ents.deep_view() == declared_entities(tree@, src@, is_rust),
{
    let ghost tn = tree@;
    let mut ents: Vec<(String, String)> = Vec::new();
    let mut i: usize = 0;
    while i < tree.nodes.len()
        invariant
            0 <= i <= tn.len(),
            tn == tree@,
            declared_reads_ok(tn, src@, is_rust),
            ents.deep_view() == declared_upto(tn, src@, is_rust, i as int),
        decreases tn.len() - i,
    {
        let node = &tree.nodes[i];
        if target_kind(&node.kind, is_rust) {
            assert(is_target_kind(tn[i as int].0, is_rust));
            if let Some(name) = ident_name_of(tree, src, i) {
                let ghost before = ents.deep_view();
                let ghost pair = (node.kind@, name@);
                ents.push((node.kind.clone(), name));
                assert(ents.deep_view() =~= before.push(pair));
            }
        }
        i = i + 1;
    }
    ents
}

/// The first node, in pre-order, of the given kind whose name is `name`.
pub fn find_matching_node(tree: &SyntaxTree, kind: &str, name: &str, source: &str) -> (r: Option<usize>)
    requires
        match_reads_ok(tree@, source@, kind@, name@),
    ensures
        opt_int(r) == matching_node(tree@, source@, kind@, name@),
{
    let src = chars_of(source);
    matching_in(tree, kind, name, src.as_slice())
}

fn matching_in(tree: &SyntaxTree, kind: &str, name: &str, src: &[char]) -> (r: Option<usize>)
    requires
        match_reads_ok(tree@, src@, kind@, name@),
    ensures
        opt_int(r) == matching_node(tree@, src@, kind@, name@),
{
    let ghost tn = tree@;
    let ghost f = |i: int| tn[i].0 == kind@ && ident_name(tn, src@, i) == Some(name@);
    let mut i: usize = 0;
    while i < tree.nodes.len()
        invariant
            0 <= i <= tn.len(),
            tn == tree@,
            match_reads_ok(tn, src@, kind@, name@),
            f == (|i: int| tn[i].0 == kind@ && ident_name(tn, src@, i) == Some(name@)),
            first_where(0, tn.len() as int, f) == first_where(i as int, tn.len() as int, f),
            forall|k: int| 0 <= k < i ==> !is_match(tn, src@, kind@, name@, k),
        decreases tn.len() - i,
    {
        let node = &tree.nodes[i];
        if str_eq(node.kind.as_str(), kind) {
            match ident_name_of(tree, src, i) {
                Some(n) => {
                    if str_eq(n.as_str(), name) {
                        assert(f(i as int));
                        return Some(i);
                    }
                },
                None => {},
            }
        }
        assert(!is_match(tn, src@, kind@, name@, i as int));
        i = i + 1;
    }
    None
}

/// The parent of node `i`: the nearest earlier node that is shallower.
fn parent_of_node(t: &SyntaxTree, i: usize) -> (r: Option<usize>)
    requires
        i < t@.len(),
    ensures
        opt_int(r) == parent_of(t@, i as int),
        r matches Some(p) ==> p < i,
{
    let d = t.nodes[i].depth;
    let mut j = i;
    while j > 0
        invariant
            0 <= j <= i < t@.len(),
            d == t@[i as int].3,
            parent_of(t@, i as int) == parent_from(t@, i as int, j - 1),
        decreases j,
    {
        if t.nodes[j - 1].depth < d {
            return Some(j - 1);
        }
        j = j - 1;
    }
    None
}

/// Whether the source can be cut at the span of the replaced node.
pub fn target_span_aligned(
    tree: &SyntaxTree,
    source: &str,
    entities: &[(String, String)],
    is_rust: bool,
) -> (r: bool)
    requires
        target_reads_ok(tree@, source@, entities.deep_view()),
    ensures
        r == target_span_ok(tree@, source@, entities.deep_view(), is_rust),
{
    let src = chars_of(source);
    match target_in(tree, src.as_slice(), entities) {
        None => true,
        Some(i) => {
            let n = replaced_in(tree, i, is_rust);
            tree.nodes[n].start_byte <= tree.nodes[n].end_byte && char_count_for_bytes(
                src.as_slice(),
                tree.nodes[n].start_byte,
            ).is_some() && char_count_for_bytes(src.as_slice(), tree.nodes[n].end_byte).is_some()
        },
    }
}

/// The node replaced for a match at `i`.
fn replaced_in(tree: &SyntaxTree, i: usize, is_rust: bool) -> (n: usize)
    requires
        i < tree@.len(),
    ensures
        n == replaced_node(tree@, i as int, is_rust),
        n < tree@.len(),
{
    if !is_rust {
        if let Some(p) = parent_of_node(tree, i) {
            if kind_is(&tree.nodes[p].kind, "export_statement") {
                return p;
            }
        }
    }
    i
}

/// The node of the first entity that the tree holds.
fn target_in(tree: &SyntaxTree, src: &[char], entities: &[(String, String)]) -> (r: Option<usize>)
    requires
        target_reads_ok(tree@, src@, entities.deep_view()),
    ensures
        opt_int(r) == declaration_target(tree@, src@, entities.deep_view()),
        r matches Some(i) ==> i < tree@.len(),
{
    let ghost tn = tree@;
    let ghost ents = entities.deep_view();
    let ghost f = |e: int| matching_node(tn, src@, ents[e].0, ents[e].1) is Some;
    let mut e: usize = 0;
    while e < entities.len()
        invariant
            0 <= e <= ents.len(),
            tn == tree@,
            ents == entities.deep_view(),
            target_reads_ok(tn, src@, ents),
            forall|k: int| 0 <= k < e ==> matching_node(tn, src@, ents[k].0, ents[k].1) is None,
            f == (|e: int| matching_node(tn, src@, ents[e].0, ents[e].1) is Some),
            first_where(0, ents.len() as int, f) == first_where(e as int, ents.len() as int, f),
        decreases ents.len() - e,
    {
        let (kind, name) = &entities[e];
        assert(kind@ == ents[e as int].0 && name@ == ents[e as int].1);
        let found = matching_in(tree, kind.as_str(), name.as_str(), src);
        if let Some(i) = found {
            proof {
                assert(f(e as int));
                lemma_first_where(
                    0,
                    tn.len() as int,
                    |i: int| tn[i].0 == kind@ && ident_name(tn, src@, i) == Some(name@),
                );
            }
            return Some(i);
        }
        assert(matching_node(tn, src@, ents[e as int].0, ents[e as int].1) is None);
        e = e + 1;
    }
    None
}

/// Replaces, in the source, the first declaration of the tree that one of
/// the entities names (by kind and name, tried in order) by the replacement
/// text; outside Rust an enclosing `export_statement` is replaced with it.
pub fn replace_matching_declaration(
    tree: &SyntaxTree,
    source: &str,
    entities: &[(String, String)],
    replacement: &str,
    is_rust: bool,
) -> (res: Option<String>)
    requires
        target_reads_ok(tree@, source@, entities.deep_view()),
        target_span_ok(tree@, source@, entities.deep_view(), is_rust),
    ensures
        res.deep_view() == declaration_replace_result(
            tree@,
            source@,
            entities.deep_view(),
            replacement@,
            is_rust,
        ),
{
    let src = chars_of(source);
    match target_in(tree, src.as_slice(), entities) {
        None => None,
        Some(i) => {
            let n = replaced_in(tree, i, is_rust);
            let a = char_count_for_bytes(src.as_slice(), tree.nodes[n].start_byte);
            let b = char_count_for_bytes(src.as_slice(), tree.nodes[n].end_byte);
            match (a, b) {
                (Some(a), Some(b)) => {
                    proof {
                        lemma_chars_in_bytes(src@, tree@[n as int].1 as int);
                        lemma_chars_in_bytes(src@, tree@[n as int].2 as int);
                    }
                    let mut updated = string_of_range(src.as_slice(), 0, a);
                    updated.append(replacement);
                    let tail = string_of_range(src.as_slice(), b, src.len());
                    updated.append(tail.as_str());
                    assert(src@.subrange(0, a as int) =~= src@.take(a as int));
                    assert(src@.subrange(b as int, src@.len() as int) =~= src@.skip(b as int));
                    Some(updated)
                },
                _ => None,
            }
        },
    }
}

/// The nodes of a tree-sitter tree in pre-order, with kinds, spans and
/// depths.
pub fn syntax_tree_of(tree: &Tree) -> (t: SyntaxTree)
    ensures
        t@ == node_views(tree_nodes(*tree)),
{
    let ghost ns = tree_nodes(*tree);
    let count = ts_node_count(tree);
    let mut nodes: Vec<SyntaxNode> = Vec::new();
    let mut i: usize = 0;
    while i < count
        invariant
            i <= count == ns.len(),
            ns == tree_nodes(*tree),
            nodes@.len() == i,
            forall|k: int|
                0 <= k < i ==> (#[trigger] nodes@[k]).kind@ == ns[k].0 && nodes@[k].start_byte
                    == ns[k].1 && nodes@[k].end_byte == ns[k].2 && nodes@[k].depth == ns[k].3,
        decreases count - i,
    {
        let (kind, start_byte, end_byte, depth, _) = ts_node_at(tree, i);
        nodes.push(SyntaxNode { kind, start_byte, end_byte, depth });
        i = i + 1;
    }
    let t = SyntaxTree { nodes };
    assert(t@ =~= node_views(ns));
    t
}

/// The syntax tree of a text, with the Rust grammar or the TSX grammar.
pub fn parse_syntax_tree(text: &str, is_rust: bool) -> (t: SyntaxTree)
    ensures
        t@ == node_views(parsed(is_rust, text@)),
{
    let tree = parse_tree(text, is_rust);
    syntax_tree_of(&tree)
}

/// `text` wrapped in an empty Rust impl block or TypeScript class, so that
/// bare methods parse as members.
pub open spec fn wrapped_text(text: Seq<char>, is_rust: bool) -> Seq<char> {
    if is_rust {
        "impl _DummyImpl {\n"@ + text + "\n}"@
    } else {
        "class _DummyClass {\n"@ + text + "\n}"@
    }
}

fn wrap_text(text: &str, is_rust: bool) -> (r: String)
    ensures
        r@ == wrapped_text(text@, is_rust),
{
    let mut r = if is_rust {
        "impl _DummyImpl {\n".to_owned()
    } else {
        "class _DummyClass {\n".to_owned()
    };
    r.append(text);
    r.append("\n}");
    r
}

/// The declarations of the replacement and then of the search text, with
/// their trees checked against their texts first.
fn entities_of_trees(
    rep_tree: &SyntaxTree,
    rep_text: &str,
    search_tree: &SyntaxTree,
    search_text: &str,
    is_rust: bool,
) -> (r: Option<(Vec<(String, String)>, Vec<(String, String)>)>)
    ensures
        r is Some <==> ident_spans_ok(rep_tree@, rep_text@) && ident_spans_ok(
            search_tree@,
            search_text@,
        ),
        r matches Some(p) ==> {
            &&& p.0.deep_view() == declared_entities(rep_tree@, rep_text@, is_rust)
            &&& p.1.deep_view() == declared_entities(search_tree@, search_text@, is_rust)
        },
{
    let rv = chars_of(rep_text);
    let sv = chars_of(search_text);
    if !ident_spans_within(rep_tree, rv.as_slice()) || !ident_spans_within(search_tree, sv.as_slice()) {
        return None;
    }
    proof {
        lemma_spans_ok_reads(rep_tree@, rv@);
        lemma_spans_ok_reads(search_tree@, sv@);
    }
    let a = declared_in(rep_tree, rv.as_slice(), is_rust);
    let b = declared_in(search_tree, sv.as_slice(), is_rust);
    Some((a, b))
}

/// The declarations the syntax-tree tier looks for, given the trees of the
/// replacement and search texts (`tr`, `ts`) and of the same texts wrapped
/// (`trw`, `tsw`): those of the replacement and then of the search text, or,
/// when neither declares anything, those of the wrapped texts.
pub open spec fn fallback_entities(
    tr: Seq<NodeView>,
    rep: Seq<char>,
    ts: Seq<NodeView>,
    search: Seq<char>,
    trw: Seq<NodeView>,
    tsw: Seq<NodeView>,
    is_rust: bool,
) -> Seq<(Seq<char>, Seq<char>)> {
    let er = declared_entities(tr, rep, is_rust);
    let es = declared_entities(ts, search, is_rust);
    if er.len() == 0 && es.len() == 0 {
        declared_entities(trw, wrapped_text(rep, is_rust), is_rust) + declared_entities(
            tsw,
            wrapped_text(search, is_rust),
            is_rust,
        )
    } else {
        er + es
    }
}

/// What the syntax-tree tier gives on the trees the parser produced.
pub open spec fn fallback_result(
    tw: Seq<NodeView>,
    content: Seq<char>,
    tr: Seq<NodeView>,
    rep: Seq<char>,
    ts: Seq<NodeView>,
    search: Seq<char>,
    trw: Seq<NodeView>,
    tsw: Seq<NodeView>,
    is_rust: bool,
) -> Option<Seq<char>> {
    declaration_replace_result(
        tw,
        content,
        fallback_entities(tr, rep, ts, search, trw, tsw, is_rust),
        rep,
        is_rust,
    )
}

/// The trees fit their texts wherever the tree logic reads them: the
/// identifier spans of the replacement and search trees (and, when neither
/// declares anything, of the wrapped trees) and of the file's tree, and the
/// span of the node to be replaced.
pub open spec fn trees_fit(
    tw: Seq<NodeView>,
    content: Seq<char>,
    tr: Seq<NodeView>,
    rep: Seq<char>,
    ts: Seq<NodeView>,
    search: Seq<char>,
    trw: Seq<NodeView>,
    tsw: Seq<NodeView>,
    is_rust: bool,
) -> bool {
    &&& ident_spans_ok(tr, rep)
    &&& ident_spans_ok(ts, search)
    &&& declared_entities(tr, rep, is_rust).len() == 0 && declared_entities(ts, search, is_rust).len()
        == 0 ==> ident_spans_ok(trw, wrapped_text(rep, is_rust)) && ident_spans_ok(
        tsw,
        wrapped_text(search, is_rust),
    )
    &&& ident_spans_ok(tw, content)
    &&& target_span_ok(tw, content, fallback_entities(tr, rep, ts, search, trw, tsw, is_rust), is_rust)
}

/// The syntax-tree tier on given trees: the tree of the file (`whole`), of the
/// replacement and of the search text, and of the two texts wrapped in an
/// impl block or class (read only when neither text declares anything).
/// Collects the declarations of the replacement and then of the search text,
/// and replaces the first of them that the file declares; nothing when the
/// trees do not fit their texts.
pub fn replace_on_trees(
    whole: &SyntaxTree,
    content: &str,
    rep_tree: &SyntaxTree,
    replacement: &str,
    search_tree: &SyntaxTree,
    search_part: &str,
    rep_wrapped: &SyntaxTree,
    search_wrapped: &SyntaxTree,
    is_rust: bool,
) -> (res: Option<String>)
    ensures
        res.deep_view() == if trees_fit(
            whole@,
            content@,
            rep_tree@,
            replacement@,
            search_tree@,
            search_part@,
            rep_wrapped@,
            search_wrapped@,
            is_rust,
        ) {
            fallback_result(
                whole@,
                content@,
                rep_tree@,
                replacement@,
                search_tree@,
                search_part@,
                rep_wrapped@,
                search_wrapped@,
                is_rust,
            )
        } else {
            None
        },
        res matches Some(s) ==> one_span_replaced(content@, replacement@, s@),
{
    let ghost tw = whole@;
    let ghost tr = rep_tree@;
    let ghost ts = search_tree@;
    let ghost trw = rep_wrapped@;
    let ghost tsw = search_wrapped@;
    let ghost fits = trees_fit(tw, content@, tr, replacement@, ts, search_part@, trw, tsw, is_rust);
    let (mut replacement_entities, mut search_entities) = match entities_of_trees(
        rep_tree,
        replacement,
        search_tree,
        search_part,
        is_rust,
    ) {
        Some(p) => p,
        None => return None,
    };
    if replacement_entities.len() == 0 && search_entities.len() == 0 {
        let wrapped_replacement = wrap_text(replacement, is_rust);
        let wrapped_search = wrap_text(search_part, is_rust);
        let (a, b) = match entities_of_trees(
            rep_wrapped,
            wrapped_replacement.as_str(),
            search_wrapped,
            wrapped_search.as_str(),
            is_rust,
        ) {
            Some(p) => p,
            None => return None,
        };
        replacement_entities = a;
        search_entities = b;
    }
    let ghost ents = replacement_entities.deep_view() + search_entities.deep_view();
    assert(ents == fallback_entities(tr, replacement@, ts, search_part@, trw, tsw, is_rust));
    let mut all_entities = replacement_entities;
    all_entities.append(&mut search_entities);
    assert(all_entities.deep_view() =~= ents);
    let src = chars_of(content);
    if !ident_spans_within(whole, src.as_slice()) {
        return None;
    }
    proof {
        lemma_spans_ok_reads(tw, src@);
        assert(target_reads_ok(tw, content@, all_entities.deep_view()));
    }
    if !target_span_aligned(whole, content, all_entities.as_slice(), is_rust) {
        return None;
    }
    assert(fits);
    let res = replace_matching_declaration(
        whole,
        content,
        all_entities.as_slice(),
        replacement,
        is_rust,
    );
    proof {
        if res is Some {
            let s = res->0;
            assert(fallback_result(tw, content@, tr, replacement@, ts, search_part@, trw, tsw, is_rust) == Some(s@));
            let i = declaration_target(tw, content@, all_entities.deep_view())->0;
            let n = replaced_node(tw, i, is_rust);
            lemma_chars_in_bytes(content@, tw[n].1 as int);
            lemma_chars_in_bytes(content@, tw[n].2 as int);
            let a = chars_in_bytes(content@, tw[n].1 as int)->0;
            let b = chars_in_bytes(content@, tw[n].2 as int)->0;
            lemma_text_bounds(content@, tw[n].1 as int, tw[n].2 as int);
            assert(s@ == content@.take(a) + replacement@ + content@.skip(b));
            assert(0 <= a <= b <= content@.len());
        }
    }
    res
}

/// What the syntax-tree tier gives: the tree logic on the parses of the
/// file, the replacement, the search text and the two wrapped texts (the
/// wrapped ones are read only when neither text declares anything), or
/// nothing when those trees do not fit their texts.
pub open spec fn ast_result(
    content: Seq<char>,
    search: Seq<char>,
    replacement: Seq<char>,
    is_rust: bool,
) -> Option<Seq<char>> {
    let tw = node_views(parsed(is_rust, content));
    let tr = node_views(parsed(is_rust, replacement));
    let ts = node_views(parsed(is_rust, search));
    let trw = node_views(parsed(is_rust, wrapped_text(replacement, is_rust)));
    let tsw = node_views(parsed(is_rust, wrapped_text(search, is_rust)));
    if trees_fit(tw, content, tr, replacement, ts, search, trw, tsw, is_rust) {
        fallback_result(tw, content, tr, replacement, ts, search, trw, tsw, is_rust)
    } else {
        None
    }
}

/// `after` is `content` with the characters between two offsets `a <= b`
/// swapped for `replacement`.
pub open spec fn one_span_replaced(content: Seq<char>, replacement: Seq<char>, after: Seq<char>) -> bool {
    exists|a: int, b: int|
        0 <= a <= b <= content.len() && after == content.take(a) + replacement + content.skip(b)
}

/// Syntax-tree tier: parses the file, the replacement and the search text
/// (and, when neither text declares anything, both texts wrapped in an impl
/// block or class) with the Rust grammar or the TSX grammar, and replaces
/// the first declaration of the replacement and then of the search text
/// that the file declares: the text with that node's span swapped for the
/// replacement (outside Rust, an enclosing `export_statement` goes with it).
pub fn replace_via_ast_fallback(
    current_content: &str,
    search_part: &str,
    replacement: &str,
    is_rust: bool,
) -> (res: Option<String>)
    ensures
        res.deep_view() == ast_result(current_content@, search_part@, replacement@, is_rust),
        res matches Some(s) ==> one_span_replaced(current_content@, replacement@, s@),
{
    let whole_tree = parse_syntax_tree(current_content, is_rust);
    let replacement_tree = parse_syntax_tree(replacement, is_rust);
    let search_tree = parse_syntax_tree(search_part, is_rust);
    let declares = match entities_of_trees(
        &replacement_tree,
        replacement,
        &search_tree,
        search_part,
        is_rust,
    ) {
        Some(p) => p.0.len() > 0 || p.1.len() > 0,
        None => return None,
    };
    if declares {
        replace_on_trees(
            &whole_tree,
            current_content,
            &replacement_tree,
            replacement,
            &search_tree,
            search_part,
            &replacement_tree,
            &search_tree,
            is_rust,
        )
    } else {
        let wrapped_replacement = wrap_text(replacement, is_rust);
        let wrapped_search = wrap_text(search_part, is_rust);
        let rep_tree_wrapped = parse_syntax_tree(wrapped_replacement.as_str(), is_rust);
        let s_tree_wrapped = parse_syntax_tree(wrapped_search.as_str(), is_rust);
        replace_on_trees(
            &whole_tree,
            current_content,
            &replacement_tree,
            replacement,
            &search_tree,
            search_part,
            &rep_tree_wrapped,
            &s_tree_wrapped,
            is_rust,
        )
    }
}

/// The declarations of the search text are tried after those of the
/// replacement, not dropped: when no declaration of the replacement is in the
/// file and the search text's `k`-th declaration is the first of its own that
/// the file holds, that node of the file is the one replaced.
pub proof fn law_search_declarations_follow(
    tw: Seq<NodeView>,
    content: Seq<char>,
    tr: Seq<NodeView>,
    rep: Seq<char>,
    ts: Seq<NodeView>,
    search: Seq<char>,
    trw: Seq<NodeView>,
    tsw: Seq<NodeView>,
    is_rust: bool,
    k: int,
)
    requires
        forall|e: int|
            0 <= e < declared_entities(tr, rep, is_rust).len() ==> #[trigger] matching_node(
                tw,
                content,
                declared_entities(tr, rep, is_rust)[e].0,
                declared_entities(tr, rep, is_rust)[e].1,
            ) is None,
        0 <= k < declared_entities(ts, search, is_rust).len(),
        matching_node(
            tw,
            content,
            declared_entities(ts, search, is_rust)[k].0,
            declared_entities(ts, search, is_rust)[k].1,
        ) is Some,
        forall|j: int|
            0 <= j < k ==> #[trigger] matching_node(
                tw,
                content,
                declared_entities(ts, search, is_rust)[j].0,
                declared_entities(ts, search, is_rust)[j].1,
            ) is None,
    ensures
        declaration_target(tw, content, fallback_entities(tr, rep, ts, search, trw, tsw, is_rust))
            == matching_node(
            tw,
            content,
            declared_entities(ts, search, is_rust)[k].0,
            declared_entities(ts, search, is_rust)[k].1,
        ),
{
    let er = declared_entities(tr, rep, is_rust);
    let es = declared_entities(ts, search, is_rust);
    let ents = fallback_entities(tr, rep, ts, search, trw, tsw, is_rust);
    assert(ents == er + es);
    let g = |e: int| matching_node(tw, content, ents[e].0, ents[e].1) is Some;
    let at = er.len() + k;
    assert(ents[at] == es[k]);
    assert forall|j: int| 0 <= j < at implies !#[trigger] g(j) by {
        if j < er.len() {
            assert(ents[j] == er[j]);
        } else {
            assert(ents[j] == es[j - er.len()]);
        }
    }
    lemma_first_where_is(0, ents.len() as int, g, at);
}

} // verus!

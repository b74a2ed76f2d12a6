//! Applying all blocks of one file's diff in order: the matching ladder
//! first, the syntax-tree tier when the ladder fails and the file has a
//! grammar, and a stop at the first block that cannot be placed; then the
//! all-or-nothing choice of the files to write.
use vstd::prelude::*;
use crate::text::chars_of;
use crate::blocks::{parse_diff_blocks, diff_blocks};
use crate::chunk::{replace_most_similar_chunk, similar_chunk_result, chunk_cuts_ok, chunk_cuts_aligned};
use crate::syntax::{replace_via_ast_fallback, ast_result, parses_cleanly, parse_has_error};

verus! {

broadcast use vstd::seq_lib::group_seq_properties;

/// Which grammar a file gets, by its name.
pub enum FileKind {
    Rust,
    Script,
    Other,
}

/// `s` ends with `suffix`.
pub open spec fn ends_with(s: Seq<char>, suffix: Seq<char>) -> bool {
    suffix.len() <= s.len() && s.skip(s.len() - suffix.len()) == suffix
}

/// The grammar of a file: Rust for `.rs`, TypeScript/JavaScript for `.ts`,
/// `.tsx`, `.js` and `.jsx`, none otherwise.
pub open spec fn file_kind_of(path: Seq<char>) -> FileKind {
    if ends_with(path, ".rs"@) {
        FileKind::Rust
    } else if ends_with(path, ".ts"@) || ends_with(path, ".tsx"@) || ends_with(path, ".js"@)
        || ends_with(path, ".jsx"@) {
        FileKind::Script
    } else {
        FileKind::Other
    }
}

fn ends_with_str(s: &[char], suffix: &str) -> (r: bool)
    ensures
        r == ends_with(s@, suffix@),
{
    let x = chars_of(suffix);
    if x.len() > s.len() {
        return false;
    }
    let tail = crate::text::subvec(s, s.len() - x.len(), s.len());
    assert(tail@ =~= s@.skip(s@.len() - x@.len()));
    crate::text::chars_eq(tail.as_slice(), x.as_slice())
}

/// The grammar of a file, by its name.
pub fn file_kind(path: &str) -> (k: FileKind)
    ensures
        k == file_kind_of(path@),
{
    let p = chars_of(path);
    if ends_with_str(p.as_slice(), ".rs") {
        FileKind::Rust
    } else if ends_with_str(p.as_slice(), ".ts") || ends_with_str(p.as_slice(), ".tsx")
        || ends_with_str(p.as_slice(), ".js") || ends_with_str(p.as_slice(), ".jsx") {
        FileKind::Script
    } else {
        FileKind::Other
    }
}

/// The name of the syntax-tree tier: tier 3.6 for Rust, 3.5 for
/// TypeScript/JavaScript.
pub open spec fn ast_strategy(is_rust: bool) -> Seq<char> {
    if is_rust {
        "AST-Node Replacement (Tier 3.6)"@
    } else {
        "AST-Node Replacement (Tier 3.5)"@
    }
}

/// One block taken from `before` to `after` under the named tier: the ladder
/// placed it, or the ladder found nothing, the file has a grammar, and the
/// syntax-tree tier gave `after`.
pub open spec fn block_step(
    before: Seq<char>,
    search: Seq<char>,
    replacement: Seq<char>,
    strategy: Seq<char>,
    after: Seq<char>,
    syntax: bool,
    is_rust: bool,
) -> bool {
    let ladder = similar_chunk_result(before, search, replacement);
    ||| (ladder.0 == Some(after) && strategy == ladder.1)
    ||| (ladder.0 is None && syntax && strategy == ast_strategy(is_rust) && ast_result(
        before,
        search,
        replacement,
        is_rust,
    ) == Some(after))
}

/// The texts `cs` are what the first `cs.len() - 1` blocks made of
/// `cs[0]`, under the named tiers (the syntax-tree tier only where `syntax`
/// says the file has a grammar).
pub open spec fn steps_through(
    cs: Seq<Seq<char>>,
    blocks: Seq<(Seq<char>, Seq<char>)>,
    strategies: Seq<&str>,
    syntax: bool,
    is_rust: bool,
) -> bool {
    &&& cs.len() == strategies.len() + 1
    &&& strategies.len() <= blocks.len()
    &&& forall|k: int|
        0 <= k < strategies.len() ==> block_step(
            cs[k],
            blocks[k].0,
            blocks[k].1,
            (#[trigger] strategies[k])@,
            cs[k + 1],
            syntax,
            is_rust,
        )
}

/// What came of a file's diff.
pub enum PatchOutcome {
    /// The diff holds no block.
    NoBlocks,
    /// Every block was placed: the new text, and the tier of each block.
    Applied { content: String, strategies: Vec<&'static str> },
    /// Every block was placed, but the parser finds a syntax error in the new
    /// text `content`; `strategies` names the tier of each block.
    SyntaxError { content: String, strategies: Vec<&'static str> },
    /// Block `failed` (counted from 0) could not be placed in `content`, the
    /// text the earlier blocks made; `strategies` names their tiers.
    Failed { content: String, strategies: Vec<&'static str>, failed: usize },
    /// The re-indenting tier would cut the indentation of block `block` inside
    /// a character of `content` (slicing there panics).
    Misaligned { content: String, strategies: Vec<&'static str>, block: usize },
}

/// The file has a grammar: the syntax-tree tier and the syntax check apply.
pub open spec fn has_grammar(kind: FileKind) -> bool {
    !(kind is Other)
}

/// Applies the blocks of a diff to the text of a file of the given kind, in
/// order. Each block goes through the matching ladder; when that finds
/// nothing and the file has a grammar, the syntax-tree tier is tried. The
/// first block that cannot be placed stops the run. With a grammar, a text
/// that every block was placed in must then parse without a syntax error.
pub fn apply_diff(content: &str, code_diff: &str, kind: FileKind) -> (out: PatchOutcome)
    ensures
        out is NoBlocks <==> diff_blocks(code_diff@).len() == 0,
        out matches PatchOutcome::Applied { content: c, strategies: st } ==> {
            &&& st@.len() == diff_blocks(code_diff@).len()
            &&& exists|cs: Seq<Seq<char>>|
                #![trigger cs.len()]
                steps_through(cs, diff_blocks(code_diff@), st@, has_grammar(kind), kind is Rust) && cs[0] == content@ && cs.last()
                    == c@
            &&& has_grammar(kind) ==> !parse_has_error(kind is Rust, c@)
        },
        out matches PatchOutcome::SyntaxError { content: c, strategies: st } ==> {
            &&& has_grammar(kind)
            &&& parse_has_error(kind is Rust, c@)
            &&& st@.len() == diff_blocks(code_diff@).len()
            &&& exists|cs: Seq<Seq<char>>|
                #![trigger cs.len()]
                steps_through(cs, diff_blocks(code_diff@), st@, has_grammar(kind), kind is Rust) && cs[0] == content@ && cs.last()
                    == c@
        },
        out matches PatchOutcome::Failed { content: c, strategies: st, failed: f } ==> {
            &&& f == st@.len() < diff_blocks(code_diff@).len()
            &&& exists|cs: Seq<Seq<char>>|
                #![trigger cs.len()]
                steps_through(cs, diff_blocks(code_diff@), st@, has_grammar(kind), kind is Rust) && cs[0] == content@ && cs.last()
                    == c@
            &&& chunk_cuts_ok(c@, diff_blocks(code_diff@)[f as int].0, diff_blocks(code_diff@)[f as int].1)
            &&& similar_chunk_result(c@, diff_blocks(code_diff@)[f as int].0, diff_blocks(code_diff@)[f as int].1).0 is None
            &&& has_grammar(kind) ==> ast_result(
                c@,
                diff_blocks(code_diff@)[f as int].0,
                diff_blocks(code_diff@)[f as int].1,
                kind is Rust,
            ) is None
        },
        out matches PatchOutcome::Misaligned { content: c, strategies: st, block: f } ==> {
            &&& f == st@.len() < diff_blocks(code_diff@).len()
            &&& exists|cs: Seq<Seq<char>>|
                #![trigger cs.len()]
                steps_through(cs, diff_blocks(code_diff@), st@, has_grammar(kind), kind is Rust) && cs[0] == content@ && cs.last()
                    == c@
            &&& !chunk_cuts_ok(c@, diff_blocks(code_diff@)[f as int].0, diff_blocks(code_diff@)[f as int].1)
        },
{
    let blocks = parse_diff_blocks(code_diff);
    let ghost bs = blocks.deep_view();
    if blocks.len() == 0 {
        return PatchOutcome::NoBlocks;
    }
    let (has_parser, is_rust) = match kind {
        FileKind::Rust => (true, true),
        FileKind::Script => (true, false),
        FileKind::Other => (false, false),
    };
    let mut current = content.to_owned();
    let mut strategies: Vec<&'static str> = Vec::new();
    let ghost mut cs: Seq<Seq<char>> = seq![content@];
    let mut idx: usize = 0;
    while idx < blocks.len()
        invariant
            0 <= idx <= bs.len(),
            bs == blocks.deep_view(),
            bs == diff_blocks(code_diff@),
            strategies@.len() == idx,
            has_parser == has_grammar(kind),
            is_rust == (kind is Rust),
            steps_through(cs, bs, strategies@, has_parser, is_rust),
            cs[0] == content@,
            cs.last() == current@,
        decreases bs.len() - idx,
    {
        let search_part = &blocks[idx].0;
        let replacement = &blocks[idx].1;
        assert(search_part@ == bs[idx as int].0 && replacement@ == bs[idx as int].1);
        if !chunk_cuts_aligned(current.as_str(), search_part.as_str(), replacement.as_str()) {
            return PatchOutcome::Misaligned { content: current, strategies, block: idx };
        }
        let (new_content, strategy) = replace_most_similar_chunk(
            current.as_str(),
            search_part.as_str(),
            replacement.as_str(),
        );
        let next: String;
        let used: &'static str;
        match new_content {
            Some(c) => {
                next = c;
                used = strategy;
            },
            None => {
                let ast = if has_parser {
                    replace_via_ast_fallback(
                        current.as_str(),
                        search_part.as_str(),
                        replacement.as_str(),
                        is_rust,
                    )
                } else {
                    None
                };
                match ast {
                    Some(c) => {
                        next = c;
                        used = if is_rust {
                            "AST-Node Replacement (Tier 3.6)"
                        } else {
                            "AST-Node Replacement (Tier 3.5)"
                        };
                    },
                    None => {
                        return PatchOutcome::Failed { content: current, strategies, failed: idx };
                    },
                }
            },
        }
        let ghost prev = strategies@;
        strategies.push(used);
        proof {
            let old_cs = cs;
            cs = cs.push(next@);
            assert(block_step(old_cs.last(), bs[idx as int].0, bs[idx as int].1, used@, next@, has_parser, is_rust));
            assert forall|k: int| 0 <= k < strategies@.len() implies block_step(
                cs[k],
                bs[k].0,
                bs[k].1,
                (#[trigger] strategies@[k])@,
                cs[k + 1],
                has_parser,
                is_rust,
            ) by {
                if k < idx {
                    assert(strategies@[k] == prev[k]);
                    assert(cs[k] == old_cs[k] && cs[k + 1] == old_cs[k + 1]);
                }
            }
        }
        current = next;
        idx = idx + 1;
    }
    if has_parser {
        if !parses_cleanly(current.as_str(), is_rust) {
            return PatchOutcome::SyntaxError { content: current, strategies };
        }
    }
    PatchOutcome::Applied { content: current, strategies }
}

/// A file's diff went through: it was read, and every block was placed (or
/// it had none) with no syntax error found.
pub open spec fn went_through(r: Option<PatchOutcome>) -> bool {
    r matches Some(o) && (o is NoBlocks || o is Applied)
}

/// The positions, among the first `n` results, of the files whose blocks were
/// all placed, in order.
pub open spec fn applied_upto(rs: Seq<Option<PatchOutcome>>, n: int) -> Seq<int>
    decreases n,
{
    if n <= 0 {
        seq![]
    } else if rs[n - 1] matches Some(o) && o is Applied {
        applied_upto(rs, n - 1).push(n - 1)
    } else {
        applied_upto(rs, n - 1)
    }
}

/// Decides, once every file's diff has been tried, which files to write. The
/// patch is all or nothing: when a file could not be read (`None`), or a
/// block of any file was not placed, or a patched file has a syntax error,
/// nothing is written (`None`); otherwise the files whose blocks were placed
/// are written, given by position, in order.
pub fn files_to_write(results: &[Option<PatchOutcome>]) -> (w: Option<Vec<usize>>)
    ensures
        w is Some <==> forall|i: int| 0 <= i < results@.len() ==> #[trigger] went_through(results@[i]),
        w matches Some(v) ==> v@.map_values(|k: usize| k as int) == applied_upto(
            results@,
            results@.len() as int,
        ),
{
    let mut chosen: Vec<usize> = Vec::new();
    let mut i: usize = 0;
    while i < results.len()
        invariant
            0 <= i <= results@.len(),
            forall|k: int| 0 <= k < i ==> #[trigger] went_through(results@[k]),
            chosen@.map_values(|k: usize| k as int) == applied_upto(results@, i as int),
        decreases results@.len() - i,
    {
        match &results[i] {
            Some(PatchOutcome::Applied { .. }) => {
                let ghost before = chosen@;
                chosen.push(i);
                assert(chosen@.map_values(|k: usize| k as int) =~= before.map_values(
                    |k: usize| k as int,
                ).push(i as int));
            },
            Some(PatchOutcome::NoBlocks) => {},
            _ => {
                assert(!went_through(results@[i as int]));
                return None;
            },
        }
        i = i + 1;
    }
    Some(chosen)
}

} // verus!

//! The matching ladder: each tier is tried in turn and the first that
//! succeeds gives the new text, with the name of the tier.
use vstd::prelude::*;
use crate::text::{is_blank, trim_end, chars_of, leading_ws_len, trailing_ws_start, push_chars, string_of_range};
use crate::lines::{prep, prepped, lines_of, perfect_replace, perfect_replace_result, first_line_match, law_prepped_lines, law_exact_identity};
use crate::indent::{
    replace_part_with_missing_leading_whitespace, missing_ws_result, indent_cuts_ok,
    indent_cuts_aligned, min_lead_bytes, shared_indent, cut_ok,
};
use crate::elision::{try_dotdotdots, dotdotdots_result};
use crate::fuzzy::{replace_closest_edit_distance, closest_result};

verus! {

broadcast use vstd::seq_lib::group_seq_properties;

/// The indentation cuts of the re-indenting tier fall on character
/// boundaries whenever that tier is reached (a search text that is not blank
/// and has no exact match).
pub open spec fn chunk_cuts_ok(whole: Seq<char>, part: Seq<char>, replace: Seq<char>) -> bool {
    let wl = lines_of(prepped(whole));
    let pl = lines_of(prepped(part));
    let rl = lines_of(prepped(replace));
    !is_blank(part) && perfect_replace_result(wl, pl, rl) is None ==> indent_cuts_ok(pl, rl)
}

/// The tier that skips a blank first search line.
pub open spec fn skipped_blank_result(
    wl: Seq<Seq<char>>,
    pl: Seq<Seq<char>>,
    rl: Seq<Seq<char>>,
) -> Option<Seq<char>> {
    if pl.len() > 1 && is_blank(pl[0]) {
        missing_ws_result(wl, pl.drop_first(), rl)
    } else {
        None
    }
}

/// What the ladder gives, with the name of the tier that produced it.
pub open spec fn similar_chunk_result(whole: Seq<char>, part: Seq<char>, replace: Seq<char>) -> (
    Option<Seq<char>>,
    Seq<char>,
) {
    if is_blank(part) {
        if is_blank(whole) {
            (Some(replace), "New file initialization"@)
        } else {
            (
                Some(trim_end(whole) + seq!['\n'] + replace + seq!['\n']),
                "Empty search block append"@,
            )
        }
    } else {
        let pw = prepped(whole);
        let pp = prepped(part);
        let wl = lines_of(pw);
        let pl = lines_of(pp);
        let rl = lines_of(prepped(replace));
        match perfect_replace_result(wl, pl, rl) {
            Some(s) => (Some(s), "Exact match (Tier 1)"@),
            None => match missing_ws_result(wl, pl, rl) {
                Some(s) => (Some(s), "Indentation-adjusted match (Tier 2)"@),
                None => match skipped_blank_result(wl, pl, rl) {
                    Some(s) => (Some(s), "Skipped leading blank line match (Tier 2.1)"@),
                    None => match dotdotdots_result(pw, pp, replace) {
                        Some(s) => (Some(s), "Elision (...) match (Tier 2.5)"@),
                        None => match closest_result(wl, pp, pl.len() as int, rl) {
                            Some(s) => (Some(s), "Fuzzy sequence match (Tier 3)"@),
                            None => (None, "Failed to match"@),
                        },
                    },
                },
            },
        }
    }
}

/// A blank line in front does not change the shared indentation.
proof fn lemma_min_lead_blank_front(b: Seq<char>, t: Seq<Seq<char>>)
    requires
        is_blank(b),
    ensures
        min_lead_bytes(seq![b] + t) == min_lead_bytes(t),
    decreases t.len(),
{
    if t.len() == 0 {
        assert((seq![b] + t).drop_last() =~= Seq::<Seq<char>>::empty());
    } else {
        assert((seq![b] + t).drop_last() =~= seq![b] + t.drop_last());
        lemma_min_lead_blank_front(b, t.drop_last());
    }
}

/// Dropping a blank first search line keeps the indentation cuts aligned.
pub proof fn lemma_cuts_ok_drop_blank(pl: Seq<Seq<char>>, rl: Seq<Seq<char>>)
    requires
        pl.len() > 0,
        is_blank(pl[0]),
        indent_cuts_ok(pl, rl),
    ensures
        indent_cuts_ok(pl.drop_first(), rl),
{
    assert(pl + rl =~= seq![pl[0]] + (pl.drop_first() + rl));
    lemma_min_lead_blank_front(pl[0], pl.drop_first() + rl);
    assert(shared_indent(pl, rl) == shared_indent(pl.drop_first(), rl));
    assert forall|i: int| 0 <= i < pl.drop_first().len() implies cut_ok(
        #[trigger] pl.drop_first()[i],
        shared_indent(pl.drop_first(), rl),
    ) by {
        assert(pl.drop_first()[i] == pl[i + 1]);
    }
}

/// Whether the indentation cuts of the re-indenting tier fall on character
/// boundaries for these texts (the ladder cannot run otherwise).
pub fn chunk_cuts_aligned(whole: &str, part: &str, replace: &str) -> (r: bool)
    ensures
        r == chunk_cuts_ok(whole@, part@, replace@),
{
    let pv = chars_of(part);
    if leading_ws_len(pv.as_slice()) == pv.len() {
        return true;
    }
    let (_, whole_lines) = prep(whole);
    let (_, part_lines) = prep(part);
    let (_, replace_lines) = prep(replace);
    if perfect_replace(whole_lines.as_slice(), part_lines.as_slice(), replace_lines.as_slice()).is_some() {
        return true;
    }
    indent_cuts_aligned(part_lines.as_slice(), replace_lines.as_slice())
}

/// Applies one SEARCH/REPLACE pair to a text with the first tier of the
/// ladder that succeeds: a blank search creates or appends; then exact lines,
/// re-indented lines, re-indented lines without a blank first line, elided
/// segments, and the most similar window. Returns the new text (or nothing)
/// and the name of the tier.
pub fn replace_most_similar_chunk(whole: &str, part: &str, replace: &str) -> (res: (
    Option<String>,
    &'static str,
))
    requires
        chunk_cuts_ok(whole@, part@, replace@),
    ensures
        res.0.deep_view() == similar_chunk_result(whole@, part@, replace@).0,
        res.1@ == similar_chunk_result(whole@, part@, replace@).1,
{
    let pv = chars_of(part);
    if leading_ws_len(pv.as_slice()) == pv.len() {
        let wv = chars_of(whole);
        if leading_ws_len(wv.as_slice()) == wv.len() {
            return (Some(replace.to_owned()), "New file initialization");
        }
        let end = trailing_ws_start(wv.as_slice());
        proof {
            crate::text::lemma_ws_run_back(wv@, wv@.len() as int);
        }
        let mut suffix = string_of_range(wv.as_slice(), 0, end);
        let nl: [char; 1] = ['\n'];
        assert(nl@ =~= seq!['\n']);
        push_chars(&mut suffix, &nl);
        suffix.append(replace);
        push_chars(&mut suffix, &nl);
        return (Some(suffix), "Empty search block append");
    }
    let (prep_whole, whole_lines) = prep(whole);
    let (prep_part, part_lines) = prep(part);
    let (_, replace_lines) = prep(replace);
    let ghost wl = whole_lines.deep_view();
    let ghost pl = part_lines.deep_view();
    let ghost rl = replace_lines.deep_view();
    if let Some(exact) = perfect_replace(
        whole_lines.as_slice(),
        part_lines.as_slice(),
        replace_lines.as_slice(),
    ) {
        return (Some(exact), "Exact match (Tier 1)");
    }
    if let Some(indent) = replace_part_with_missing_leading_whitespace(
        whole_lines.as_slice(),
        part_lines.as_slice(),
        replace_lines.as_slice(),
    ) {
        return (Some(indent), "Indentation-adjusted match (Tier 2)");
    }
    if part_lines.len() > 1 && crate::indent::line_is_blank(&part_lines[0]) {
        let rest = vstd::slice::slice_subrange(part_lines.as_slice(), 1, part_lines.len());
        assert(rest.deep_view() =~= pl.drop_first());
        proof {
            lemma_cuts_ok_drop_blank(pl, rl);
        }
        if let Some(skipped) = replace_part_with_missing_leading_whitespace(
            whole_lines.as_slice(),
            rest,
            replace_lines.as_slice(),
        ) {
            return (Some(skipped), "Skipped leading blank line match (Tier 2.1)");
        }
    }
    if let Some(dots) = try_dotdotdots(prep_whole.as_str(), prep_part.as_str(), replace) {
        return (Some(dots), "Elision (...) match (Tier 2.5)");
    }
    if let Some(fuzzy) = replace_closest_edit_distance(
        whole_lines.as_slice(),
        prep_part.as_str(),
        part_lines.as_slice(),
        replace_lines.as_slice(),
    ) {
        return (Some(fuzzy), "Fuzzy sequence match (Tier 3)");
    }
    (None, "Failed to match")
}

/// A block whose replacement is its own search text, and whose search lines
/// occur in the text, leaves the (prepared) text unchanged, by exact match.
pub proof fn law_identity_block(whole: Seq<char>, part: Seq<char>)
    requires
        !is_blank(part),
        first_line_match(lines_of(prepped(whole)), lines_of(prepped(part))) is Some,
    ensures
        similar_chunk_result(whole, part, part) == (
            Some(prepped(whole)),
            "Exact match (Tier 1)"@,
        ),
{
    let pl = lines_of(prepped(part));
    law_prepped_lines(whole);
    law_prepped_lines(part);
    assert(part.len() > 0);
    if pl.len() == 0 {
        assert(pl.flatten() =~= Seq::<char>::empty());
    }
    law_exact_identity(lines_of(prepped(whole)), pl);
}

/// A text is blank exactly when every character is whitespace.
proof fn lemma_blank_all_ws(s: Seq<char>)
    ensures
        is_blank(s) <==> forall|k: int| 0 <= k < s.len() ==> crate::text::is_ws(#[trigger] s[k]),
{
    crate::text::lemma_ws_run(s, 0);
}

/// The ladder reads a search text only in its prepared form: a search text
/// that is not blank gives the same result, under the same tier, as that text
/// with its missing final newline added.
pub proof fn law_ladder_reads_prepared_search(whole: Seq<char>, part: Seq<char>, replace: Seq<char>)
    requires
        !is_blank(part),
    ensures
        similar_chunk_result(whole, part, replace) == similar_chunk_result(
            whole,
            prepped(part),
            replace,
        ),
{
    law_prepped_lines(part);
    lemma_blank_all_ws(part);
    lemma_blank_all_ws(prepped(part));
    let k = choose|k: int| 0 <= k < part.len() && !crate::text::is_ws(part[k]);
    assert(prepped(part)[k] == part[k]);
    assert(!is_blank(prepped(part)));
}

/// The exact tier comes first: when the prepared search lines occur
/// verbatim in the prepared text, starting at line `i` for the first time,
/// the ladder replaces them there by the prepared replacement lines, keeping
/// every other line, and names the exact tier.
pub proof fn law_ladder_prefers_exact(whole: Seq<char>, part: Seq<char>, replace: Seq<char>, i: int)
    requires
        !is_blank(part),
        first_line_match(lines_of(prepped(whole)), lines_of(prepped(part))) == Some(i),
    ensures
        similar_chunk_result(whole, part, replace) == (
            Some(
                (lines_of(prepped(whole)).take(i) + lines_of(prepped(replace)) + lines_of(
                    prepped(whole),
                ).skip(i + lines_of(prepped(part)).len())).flatten(),
            ),
            "Exact match (Tier 1)"@,
        ),
{
    let pl = lines_of(prepped(part));
    law_prepped_lines(part);
    assert(part.len() > 0);
    if pl.len() == 0 {
        assert(pl.flatten() =~= Seq::<char>::empty());
    }
}

} // verus!

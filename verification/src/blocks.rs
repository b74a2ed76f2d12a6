//! Reading SEARCH/REPLACE blocks out of a diff text.
use vstd::prelude::*;
use crate::text::{
    views, trim_start, trim_end, chars_of, subvec, leading_ws_len, trailing_ws_start, push_chars,
};
use crate::lines::{
    first_where, lemma_first_where_is, lemma_first_where_none, lines_of, split_lines, no_newline,
    is_line_split, lemma_line_split_exists, lemma_lines_of_concat, lemma_lines_of_line,
};
use crate::elision::{occurs_at, occurs_from, find_chars, lemma_find_from};

verus! {

broadcast use vstd::seq_lib::group_seq_properties;

/// `str::trim`.
pub open spec fn trim(s: Seq<char>) -> Seq<char> {
    trim_end(trim_start(s))
}

/// `s` starts with `pre`.
pub open spec fn starts_with(s: Seq<char>, pre: Seq<char>) -> bool {
    occurs_at(s, pre, 0)
}

/// A line with its line ending (`\n` or `\r\n`) removed, as `str::lines`
/// yields it.
pub open spec fn strip_eol(l: Seq<char>) -> Seq<char> {
    if l.len() > 0 && l.last() == '\n' {
        let m = l.drop_last();
        if m.len() > 0 && m.last() == '\r' {
            m.drop_last()
        } else {
            m
        }
    } else {
        l
    }
}

/// `str::lines`.
pub open spec fn text_lines(t: Seq<char>) -> Seq<Seq<char>> {
    lines_of(t).map_values(|l: Seq<char>| strip_eol(l))
}

/// `lines.join("\n")`.
pub open spec fn join_nl(ls: Seq<Seq<char>>) -> Seq<char>
    decreases ls.len(),
{
    if ls.len() == 0 {
        seq![]
    } else if ls.len() == 1 {
        ls[0]
    } else {
        join_nl(ls.drop_last()) + seq!['\n'] + ls.last()
    }
}

/// A line that opens a block: trimmed, it starts with `<<<<<<<` and holds
/// `SEARCH`.
pub open spec fn is_search_start(l: Seq<char>) -> bool {
    starts_with(trim(l), "<<<<<<<"@) && occurs_from(trim(l), "SEARCH"@, 0)
}

/// A line that ends the search part: trimmed, it starts with `=======`.
pub open spec fn is_divider(l: Seq<char>) -> bool {
    starts_with(trim(l), "======="@)
}

/// A line that ends the replacement part: trimmed, it starts with `>>>>>>>`,
/// and it holds `REPLACE`.
pub open spec fn is_replace_end(l: Seq<char>) -> bool {
    starts_with(trim(l), ">>>>>>>"@) && occurs_from(l, "REPLACE"@, 0)
}

/// Where the replacement part that starts at `from` ends: the next closing
/// line, or the end of the text.
pub open spec fn replace_end(ls: Seq<Seq<char>>, from: int) -> int {
    match first_where(from, ls.len() as int, |k: int| is_replace_end(ls[k])) {
        Some(e) => e,
        None => ls.len() as int,
    }
}

/// The blocks read from line `i` on: each opening line starts a search part
/// that runs to the next divider (a block with no divider ends the reading),
/// and a replacement part that runs to the next closing line or the end of
/// the text; text outside blocks is ignored.
pub open spec fn blocks_from(ls: Seq<Seq<char>>, i: int) -> Seq<(Seq<char>, Seq<char>)>
    decreases ls.len() - i,
{
    if i < 0 || i >= ls.len() {
        seq![]
    } else if is_search_start(ls[i]) {
        match first_where(i + 1, ls.len() as int, |k: int| is_divider(ls[k])) {
            None => seq![],
            Some(d) => if d <= i {
                seq![]
            } else {
                let e = replace_end(ls, d + 1);
                if e <= i {
                    seq![]
                } else {
                    seq![(join_nl(ls.subrange(i + 1, d)), join_nl(ls.subrange(d + 1, e)))] + if e
                        < ls.len() {
                        blocks_from(ls, e + 1)
                    } else {
                        seq![]
                    }
                }
            },
        }
    } else {
        blocks_from(ls, i + 1)
    }
}

/// The SEARCH/REPLACE blocks of a diff text.
pub open spec fn diff_blocks(diff: Seq<char>) -> Seq<(Seq<char>, Seq<char>)> {
    blocks_from(text_lines(diff), 0)
}

/// `str::trim` on characters.
fn trim_chars(v: &[char]) -> (r: Vec<char>)
    ensures
        r@ == trim(v@),
{
    let lead = leading_ws_len(v);
    proof {
        crate::text::lemma_ws_run(v@, 0);
    }
    let t = subvec(v, lead, v.len());
    assert(t@ =~= trim_start(v@));
    let back = trailing_ws_start(t.as_slice());
    proof {
        crate::text::lemma_ws_run_back(t@, t@.len() as int);
    }
    let r = subvec(t.as_slice(), 0, back);
    assert(r@ =~= trim_end(t@));
    r
}

/// Whether `s` starts with `pre`.
fn starts_with_chars(s: &[char], pre: &[char]) -> (r: bool)
    ensures
        r == starts_with(s@, pre@),
{
    if pre.len() > s.len() {
        return false;
    }
    match find_chars(s, pre, 0) {
        Some(k) => {
            proof {
                lemma_find_from(s@, pre@, 0);
            }
            k == 0
        },
        None => {
            proof {
                lemma_find_from(s@, pre@, 0);
            }
            false
        },
    }
}

/// Whether `pat` occurs in `s`.
fn contains_chars(s: &[char], pat: &[char]) -> (r: bool)
    ensures
        r == occurs_from(s@, pat@, 0),
{
    let res = find_chars(s, pat, 0);
    proof {
        lemma_find_from(s@, pat@, 0);
        if res is Some {
            assert(occurs_at(s@, pat@, res->0 as int));
        }
    }
    res.is_some()
}

/// The markers as characters.
struct Markers {
    open: Vec<char>,
    search: Vec<char>,
    divider: Vec<char>,
    close: Vec<char>,
    replace: Vec<char>,
}

impl Markers {
    spec fn wf(&self) -> bool {
        &&& self.open@ == "<<<<<<<"@
        &&& self.search@ == "SEARCH"@
        &&& self.divider@ == "======="@
        &&& self.close@ == ">>>>>>>"@
        &&& self.replace@ == "REPLACE"@
    }

    fn new() -> (m: Markers)
        ensures
            m.wf(),
    {
        Markers {
            open: chars_of("<<<<<<<"),
            search: chars_of("SEARCH"),
            divider: chars_of("======="),
            close: chars_of(">>>>>>>"),
            replace: chars_of("REPLACE"),
        }
    }

    fn search_start(&self, l: &[char]) -> (r: bool)
        requires
            self.wf(),
        ensures
            r == is_search_start(l@),
    {
        let t = trim_chars(l);
        starts_with_chars(t.as_slice(), self.open.as_slice()) && contains_chars(
            t.as_slice(),
            self.search.as_slice(),
        )
    }

    fn divider(&self, l: &[char]) -> (r: bool)
        requires
            self.wf(),
        ensures
            r == is_divider(l@),
    {
        let t = trim_chars(l);
        starts_with_chars(t.as_slice(), self.divider.as_slice())
    }

    fn replace_end(&self, l: &[char]) -> (r: bool)
        requires
            self.wf(),
        ensures
            r == is_replace_end(l@),
    {
        let t = trim_chars(l);
        starts_with_chars(t.as_slice(), self.close.as_slice()) && contains_chars(
            l,
            self.replace.as_slice(),
        )
    }
}

/// The lines of a text with their line endings removed (`str::lines`).
pub fn text_lines_of(text: &str) -> (r: Vec<Vec<char>>)
    ensures
        views(r@) == text_lines(text@),
{
    let v = chars_of(text);
    let raw = split_lines(v.as_slice());
    let mut r: Vec<Vec<char>> = Vec::new();
    let mut i: usize = 0;
    while i < raw.len()
        invariant
            0 <= i <= raw@.len(),
            raw.deep_view() == lines_of(v@),
            views(r@) == text_lines(text@).take(i as int),
            v@ == text@,
        decreases raw@.len() - i,
    {
        let l = chars_of(raw[i].as_str());
        assert(l@ == lines_of(text@)[i as int]);
        let n = l.len();
        let stripped = if n > 0 && l[n - 1] == '\n' {
            if n > 1 && l[n - 2] == '\r' {
                subvec(l.as_slice(), 0, n - 2)
            } else {
                subvec(l.as_slice(), 0, n - 1)
            }
        } else {
            l
        };
        assert(stripped@ =~= strip_eol(lines_of(text@)[i as int]));
        let ghost before = views(r@);
        r.push(stripped);
        assert(views(r@) =~= before.push(stripped@));
        i = i + 1;
        assert(text_lines(text@).take(i as int) =~= text_lines(text@).take(i - 1).push(stripped@));
    }
    assert(text_lines(text@).take(i as int) =~= text_lines(text@));
    r
}

/// `ls[from..to].join("\n")`.
fn join_range(ls: &Vec<Vec<char>>, from: usize, to: usize) -> (s: String)
    requires
        from <= to <= ls@.len(),
    ensures
        s@ == join_nl(views(ls@).subrange(from as int, to as int)),
{
    let mut s = String::new();
    let mut i: usize = from;
    while i < to
        invariant
            from <= i <= to <= ls@.len(),
            s@ == join_nl(views(ls@).subrange(from as int, i as int)),
        decreases to - i,
    {
        let ghost prev = views(ls@).subrange(from as int, i as int);
        let ghost next = views(ls@).subrange(from as int, i + 1);
        assert(next.drop_last() =~= prev);
        if i > from {
            let nl: [char; 1] = ['\n'];
            push_chars(&mut s, &nl);
            assert(nl@ =~= seq!['\n']);
        } else {
            assert(s@ =~= Seq::<char>::empty());
        }
        push_chars(&mut s, ls[i].as_slice());
        i = i + 1;
    }
    s
}

/// Reads the SEARCH/REPLACE blocks of a diff text: each opening line starts a
/// search part that runs to the next divider, and a replacement part that
/// runs to the next closing line (or the end); the parts' lines are joined
/// with newlines.
pub fn parse_diff_blocks(diff_text: &str) -> (blocks: Vec<(String, String)>)
    ensures
        blocks.deep_view() == diff_blocks(diff_text@),
{
    let m = Markers::new();
    let lines = text_lines_of(diff_text);
    let ghost ls = views(lines@);
    let n = lines.len();
    let mut blocks: Vec<(String, String)> = Vec::new();
    let mut i: usize = 0;
    while i < n
        invariant
            0 <= i <= n == ls.len(),
            m.wf(),
            ls == views(lines@),
            ls == text_lines(diff_text@),
            blocks.deep_view() + blocks_from(ls, i as int) == blocks_from(ls, 0),
        decreases n - i,
    {
        assert(lines@[i as int]@ == ls[i as int]);
        if m.search_start(lines[i].as_slice()) {
            let ghost fd = |k: int| is_divider(ls[k]);
            let mut d: usize = i + 1;
            while d < n && !m.divider(lines[d].as_slice())
                invariant
                    i < d <= n == ls.len(),
                    m.wf(),
                    ls == views(lines@),
                    fd == (|k: int| is_divider(ls[k])),
                    first_where(i + 1, n as int, fd) == first_where(d as int, n as int, fd),
                decreases n - d,
            {
                assert(lines@[d as int]@ == ls[d as int]);
                d = d + 1;
            }
            if d >= n {
                assert(first_where(d as int, n as int, fd) is None);
                assert(blocks_from(ls, i as int) =~= Seq::<(Seq<char>, Seq<char>)>::empty());
                assert(blocks.deep_view() + blocks_from(ls, i as int) =~= blocks.deep_view());
                return blocks;
            }
            assert(lines@[d as int]@ == ls[d as int]);
            assert(first_where(d as int, n as int, fd) == Some(d as int));
            let ghost fe = |k: int| is_replace_end(ls[k]);
            let mut e: usize = d + 1;
            while e < n && !m.replace_end(lines[e].as_slice())
                invariant
                    d < e <= n == ls.len(),
                    m.wf(),
                    ls == views(lines@),
                    fe == (|k: int| is_replace_end(ls[k])),
                    first_where(d + 1, n as int, fe) == first_where(e as int, n as int, fe),
                decreases n - e,
            {
                assert(lines@[e as int]@ == ls[e as int]);
                e = e + 1;
            }
            if e < n {
                assert(lines@[e as int]@ == ls[e as int]);
                assert(first_where(e as int, n as int, fe) == Some(e as int));
            } else {
                assert(first_where(e as int, n as int, fe) is None);
            }
            assert(replace_end(ls, d + 1) == e);
            let search = join_range(&lines, i + 1, d);
            let replace = join_range(&lines, d + 1, e);
            let ghost block = (search@, replace@);
            let ghost before = blocks.deep_view();
            blocks.push((search, replace));
            assert(blocks.deep_view() =~= before.push(block));
            if e >= n {
                assert(blocks_from(ls, i as int) == seq![block]);
                assert(blocks.deep_view() =~= before + blocks_from(ls, i as int));
                return blocks;
            }
            assert(blocks_from(ls, i as int) == seq![block] + blocks_from(ls, e + 1));
            assert(blocks.deep_view() + blocks_from(ls, e + 1) =~= before + blocks_from(
                ls,
                i as int,
            ));
            i = e;
        }
        i = i + 1;
    }
    assert(blocks_from(ls, i as int) =~= Seq::<(Seq<char>, Seq<char>)>::empty());
    assert(blocks.deep_view() + blocks_from(ls, i as int) =~= blocks.deep_view());
    blocks
}

/// A well-formed block at line `i` (an opening line, search lines with no
/// divider among them, a divider, replacement lines with no closing line
/// among them, and a closing line or the end of the text) is read as that
/// block, and reading goes on after its closing line.
pub proof fn law_block_read(ls: Seq<Seq<char>>, i: int, d: int, e: int)
    requires
        0 <= i < d < e <= ls.len(),
        is_search_start(ls[i]),
        is_divider(ls[d]),
        forall|k: int| i < k < d ==> !is_divider(#[trigger] ls[k]),
        e == ls.len() || is_replace_end(ls[e]),
        forall|k: int| d < k < e ==> !is_replace_end(#[trigger] ls[k]),
    ensures
        blocks_from(ls, i) == seq![(join_nl(ls.subrange(i + 1, d)), join_nl(ls.subrange(d + 1, e)))]
            + if e < ls.len() {
            blocks_from(ls, e + 1)
        } else {
            seq![]
        },
{
    let fd = |k: int| is_divider(ls[k]);
    let fe = |k: int| is_replace_end(ls[k]);
    lemma_first_where_is(i + 1, ls.len() as int, fd, d);
    if e < ls.len() {
        lemma_first_where_is(d + 1, ls.len() as int, fe, e);
    } else {
        lemma_first_where_none(d + 1, ls.len() as int, fe);
    }
}

/// Lines that open no block yield no blocks: text outside blocks is ignored.
pub proof fn law_no_blocks(ls: Seq<Seq<char>>, i: int)
    requires
        forall|k: int| 0 <= k < ls.len() ==> !is_search_start(#[trigger] ls[k]),
    ensures
        blocks_from(ls, i) == Seq::<(Seq<char>, Seq<char>)>::empty(),
    decreases ls.len() - i,
{
    if 0 <= i < ls.len() {
        law_no_blocks(ls, i + 1);
    }
}

/// A search part and a replacement part written out as one block.
pub open spec fn block_text(search: Seq<char>, replace: Seq<char>) -> Seq<char> {
    "<<<<<<< SEARCH\n"@ + search + "\n=======\n"@ + replace + "\n>>>>>>> REPLACE\n"@
}

/// `c` occurs nowhere in `s`.
pub open spec fn lacks(s: Seq<char>, c: char) -> bool {
    forall|k: int| 0 <= k < s.len() ==> s[k] != c
}

/// A character missing from the joined lines is missing from each line.
proof fn lemma_flatten_lacks(ls: Seq<Seq<char>>, c: char)
    requires
        lacks(ls.flatten(), c),
    ensures
        forall|i: int| 0 <= i < ls.len() ==> lacks(#[trigger] ls[i], c),
    decreases ls.len(),
{
    if ls.len() > 0 {
        let rest = ls.drop_first();
        assert(ls.flatten() == ls[0] + rest.flatten());
        assert forall|k: int| 0 <= k < ls[0].len() implies ls[0][k] != c by {
            assert(ls.flatten()[k] == ls[0][k]);
        }
        assert forall|k: int| 0 <= k < rest.flatten().len() implies rest.flatten()[k] != c by {
            assert(ls.flatten()[ls[0].len() + k] == rest.flatten()[k]);
        }
        lemma_flatten_lacks(rest, c);
        assert forall|i: int| 0 <= i < ls.len() implies lacks(#[trigger] ls[i], c) by {
            if i > 0 {
                assert(ls[i] == rest[i - 1]);
            }
        }
    }
}

/// Joining the lines without their line endings, and ending with a newline,
/// gives back the text.
proof fn lemma_join_stripped(ls: Seq<Seq<char>>)
    requires
        ls.len() > 0,
        forall|i: int|
            0 <= i < ls.len() ==> (#[trigger] ls[i]).len() > 0 && ls[i].last() == '\n' && lacks(
                ls[i],
                '\r',
            ),
    ensures
        join_nl(ls.map_values(|l: Seq<char>| strip_eol(l))) + seq!['\n'] == ls.flatten(),
    decreases ls.len(),
{
    let m = ls.map_values(|l: Seq<char>| strip_eol(l));
    let last = ls.last();
    assert(last.len() > 0 && lacks(last, '\r'));
    if last.len() > 1 {
        assert(last.drop_last().last() == last[last.len() - 2]);
    }
    assert(strip_eol(last) == last.drop_last());
    assert(strip_eol(last) + seq!['\n'] =~= last);
    if ls.len() == 1 {
        assert(ls.drop_first() =~= Seq::<Seq<char>>::empty());
        assert(ls.drop_first().flatten() =~= Seq::<char>::empty());
        assert(ls.flatten() == ls[0] + ls.drop_first().flatten());
    } else {
        let init = ls.drop_last();
        assert forall|i: int| 0 <= i < init.len() implies (#[trigger] init[i]).len() > 0
            && init[i].last() == '\n' && lacks(init[i], '\r') by {
            assert(init[i] == ls[i]);
        }
        lemma_join_stripped(init);
        assert(m.drop_last() =~= init.map_values(|l: Seq<char>| strip_eol(l)));
        assert(ls == init.push(last));
        init.lemma_flatten_push(last);
        assert(join_nl(m) == join_nl(m.drop_last()) + seq!['\n'] + m.last());
        assert(join_nl(m) + seq!['\n'] =~= (join_nl(m.drop_last()) + seq!['\n']) + (strip_eol(
            last,
        ) + seq!['\n']));
    }
}

/// The lines of `x` followed by a newline, without line endings, joined
/// with newlines, give `x` back.
proof fn lemma_text_lines_join(x: Seq<char>)
    requires
        lacks(x, '\r'),
    ensures
        join_nl(text_lines(x.push('\n'))) == x,
{
    let t = x.push('\n');
    lemma_line_split_exists(t);
    let ls = lines_of(t);
    assert(lacks(t, '\r'));
    lemma_flatten_lacks(ls, '\r');
    if ls.len() == 0 {
        assert(ls.flatten() =~= Seq::<char>::empty());
    }
    crate::lines::lemma_last_line_end(ls, t);
    assert forall|i: int| 0 <= i < ls.len() implies (#[trigger] ls[i]).len() > 0 && ls[i].last()
        == '\n' && lacks(ls[i], '\r') by {
        if i == ls.len() - 1 {
            assert(ls[i] == ls.last());
        }
    }
    lemma_join_stripped(ls);
    assert(join_nl(text_lines(t)) + seq!['\n'] == x + seq!['\n']);
    assert(join_nl(text_lines(t)) =~= (join_nl(text_lines(t)) + seq!['\n']).drop_last());
}

/// The line that opens a written block.
pub open spec fn open_line() -> Seq<char> {
    seq!['<', '<', '<', '<', '<', '<', '<', ' ', 'S', 'E', 'A', 'R', 'C', 'H']
}

/// The line between the search and the replacement text of a written block.
pub open spec fn divider_line() -> Seq<char> {
    seq!['=', '=', '=', '=', '=', '=', '=']
}

/// The line that closes a written block.
pub open spec fn close_line() -> Seq<char> {
    seq!['>', '>', '>', '>', '>', '>', '>', ' ', 'R', 'E', 'P', 'L', 'A', 'C', 'E']
}

/// A line that neither starts nor ends with whitespace trims to itself.
proof fn lemma_trim_plain(l: Seq<char>)
    requires
        l.len() > 0,
        !crate::text::is_ws(l[0]),
        !crate::text::is_ws(l[l.len() - 1]),
    ensures
        trim(l) == l,
{
    crate::text::lemma_ws_run(l, 0);
    assert(l.skip(0) =~= l);
    crate::text::lemma_ws_run_back(l, l.len() as int);
    assert(l.take(l.len() as int) =~= l);
}

/// The marker lines are read as markers.
proof fn lemma_marker_lines()
    ensures
        is_search_start(open_line()),
        is_divider(divider_line()),
        is_replace_end(close_line()),
{
    reveal_strlit("<<<<<<<");
    reveal_strlit("SEARCH");
    reveal_strlit("=======");
    reveal_strlit(">>>>>>>");
    reveal_strlit("REPLACE");
    let lo = open_line();
    let ld = divider_line();
    let le = close_line();
    lemma_trim_plain(lo);
    lemma_trim_plain(ld);
    lemma_trim_plain(le);
    assert(lo.subrange(0, 7) =~= "<<<<<<<"@);
    assert(lo.subrange(8, 14) =~= "SEARCH"@);
    assert(occurs_at(lo, "SEARCH"@, 8));
    assert(ld.subrange(0, 7) =~= "======="@);
    assert(le.subrange(0, 7) =~= ">>>>>>>"@);
    assert(le.subrange(8, 15) =~= "REPLACE"@);
    assert(occurs_at(le, "REPLACE"@, 8));
}

/// The lines of a written block: the opening line, the search lines, the
/// divider, the replacement lines and the closing line.
proof fn lemma_block_lines(search: Seq<char>, replace: Seq<char>)
    ensures
        text_lines(block_text(search, replace)) == seq![open_line()] + text_lines(search.push('\n'))
            + seq![divider_line()] + text_lines(replace.push('\n')) + seq![close_line()],
{
    reveal_strlit("<<<<<<< SEARCH\n");
    reveal_strlit("\n=======\n");
    reveal_strlit("\n>>>>>>> REPLACE\n");
    let o = open_line().push('\n');
    let sp = search.push('\n');
    let d = divider_line().push('\n');
    let rp = replace.push('\n');
    let e = close_line().push('\n');
    assert(block_text(search, replace) =~= o + (sp + (d + (rp + e))));
    lemma_lines_of_concat(rp, e);
    lemma_lines_of_concat(d, rp + e);
    lemma_lines_of_concat(sp, d + (rp + e));
    lemma_lines_of_concat(o, sp + (d + (rp + e)));
    assert(o.drop_last() =~= open_line());
    assert(d.drop_last() =~= divider_line());
    assert(e.drop_last() =~= close_line());
    lemma_lines_of_line(o);
    lemma_lines_of_line(d);
    lemma_lines_of_line(e);
    let f = |l: Seq<char>| strip_eol(l);
    assert(lines_of(block_text(search, replace)) == seq![o] + (lines_of(sp) + (seq![d] + (lines_of(
        rp,
    ) + seq![e]))));
    assert(strip_eol(o) == open_line());
    assert(strip_eol(d) == divider_line());
    assert(strip_eol(e) == close_line());
    assert(text_lines(block_text(search, replace)) =~= seq![open_line()] + lines_of(sp).map_values(f)
        + seq![divider_line()] + lines_of(rp).map_values(f) + seq![close_line()]);
}

/// Writing a search and a replacement part as a block and reading the
/// result gives back exactly that block, when neither part holds a carriage
/// return, no line of the search part is a divider, and no line of the
/// replacement part is a closing line.
pub proof fn law_block_roundtrip(search: Seq<char>, replace: Seq<char>)
    requires
        lacks(search, '\r'),
        lacks(replace, '\r'),
        forall|k: int|
            0 <= k < text_lines(search.push('\n')).len() ==> !is_divider(
                #[trigger] text_lines(search.push('\n'))[k],
            ),
        forall|k: int|
            0 <= k < text_lines(replace.push('\n')).len() ==> !is_replace_end(
                #[trigger] text_lines(replace.push('\n'))[k],
            ),
    ensures
        diff_blocks(block_text(search, replace)) == seq![(search, replace)],
{
    lemma_block_lines(search, replace);
    lemma_marker_lines();
    let ls_ = text_lines(search.push('\n'));
    let lr = text_lines(replace.push('\n'));
    let all = seq![open_line()] + ls_ + seq![divider_line()] + lr + seq![close_line()];
    let di: int = 1 + ls_.len() as int;
    let ei: int = di + 1 + lr.len() as int;
    assert(all[0] == open_line());
    assert(all[di] == divider_line());
    assert(all[ei] == close_line());
    assert forall|k: int| 0 < k < di implies !is_divider(#[trigger] all[k]) by {
        assert(all[k] == ls_[k - 1]);
    }
    assert forall|k: int| di < k < ei implies !is_replace_end(#[trigger] all[k]) by {
        assert(all[k] == lr[k - di - 1]);
    }
    law_block_read(all, 0, di, ei);
    assert(all.subrange(1, di) =~= ls_);
    assert(all.subrange(di + 1, ei) =~= lr);
    lemma_text_lines_join(search);
    lemma_text_lines_join(replace);
    assert(blocks_from(all, 0) =~= seq![(search, replace)]);
}

} // verus!

//! Splitting text into newline-terminated lines, and the exact line match
//! (the first tier of the matching ladder).
use vstd::prelude::*;
use crate::text::{chars_of, string_of, string_of_range};

verus! {

broadcast use vstd::seq_lib::group_seq_properties;

/// The first `k` in `lo..hi` with `f(k)`.
pub open spec fn first_where(lo: int, hi: int, f: spec_fn(int) -> bool) -> Option<int>
    decreases hi - lo,
{
    if lo >= hi {
        None
    } else if f(lo) {
        Some(lo)
    } else {
        first_where(lo + 1, hi, f)
    }
}

pub proof fn lemma_first_where(lo: int, hi: int, f: spec_fn(int) -> bool)
    ensures
        match first_where(lo, hi, f) {
            Some(k) => lo <= k < hi && f(k) && forall|j: int| lo <= j < k ==> !#[trigger] f(j),
            None => forall|j: int| lo <= j < hi ==> !#[trigger] f(j),
        },
    decreases hi - lo,
{
    if lo < hi && !f(lo) {
        lemma_first_where(lo + 1, hi, f);
    }
}

/// `first_where` picks the witness that comes before every other.
pub proof fn lemma_first_where_is(lo: int, hi: int, f: spec_fn(int) -> bool, k: int)
    requires
        lo <= k < hi,
        f(k),
        forall|j: int| lo <= j < k ==> !#[trigger] f(j),
    ensures
        first_where(lo, hi, f) == Some(k),
    decreases k - lo,
{
    if lo < k {
        lemma_first_where_is(lo + 1, hi, f, k);
    }
}

/// `first_where` finds nothing where nothing holds.
pub proof fn lemma_first_where_none(lo: int, hi: int, f: spec_fn(int) -> bool)
    requires
        forall|j: int| lo <= j < hi ==> !#[trigger] f(j),
    ensures
        first_where(lo, hi, f) is None,
    decreases hi - lo,
{
    if lo < hi {
        lemma_first_where_none(lo + 1, hi, f);
    }
}

/// No character of `s` is a newline.
pub open spec fn no_newline(s: Seq<char>) -> bool {
    forall|k: int| 0 <= k < s.len() ==> s[k] != '\n'
}

/// `lines` is what `text.split_inclusive('\n')` yields: non-empty pieces whose
/// concatenation is `text`, each ending at its first newline (the last piece
/// may end without one).
pub open spec fn is_line_split(lines: Seq<Seq<char>>, text: Seq<char>) -> bool {
    &&& lines.flatten() == text
    &&& forall|i: int|
        0 <= i < lines.len() ==> #[trigger] lines[i].len() > 0 && no_newline(
            lines[i].drop_last(),
        )
    &&& forall|i: int| 0 <= i < lines.len() - 1 ==> #[trigger] lines[i].last() == '\n'
}

/// The lines of `text`, as `split_inclusive('\n')` yields them.
pub open spec fn lines_of(text: Seq<char>) -> Seq<Seq<char>> {
    choose|lines: Seq<Seq<char>>| is_line_split(lines, text)
}

/// `prep`'s text: `content` with a newline added when it is non-empty and does
/// not end with one.
pub open spec fn prepped(content: Seq<char>) -> Seq<char> {
    if content.len() > 0 && content.last() != '\n' {
        content.push('\n')
    } else {
        content
    }
}

/// A line split of `text` extends to one of `text` followed by `c`.
proof fn lemma_split_extend(lines: Seq<Seq<char>>, text: Seq<char>, c: char) -> (r: Seq<Seq<char>>)
    requires
        is_line_split(lines, text),
    ensures
        is_line_split(r, text.push(c)),
{
    if lines.len() == 0 {
        let r = seq![seq![c]];
        assert(r.drop_first() =~= Seq::<Seq<char>>::empty());
        assert(r.flatten() =~= text.push(c));
        assert(r[0].drop_last() =~= Seq::<char>::empty());
        r
    } else if lines.last().last() == '\n' {
        let r = lines.push(seq![c]);
        lines.lemma_flatten_push(seq![c]);
        assert(r.flatten() =~= text.push(c));
        assert(r[r.len() - 1].drop_last() =~= Seq::<char>::empty());
        assert forall|i: int| 0 <= i < r.len() - 1 implies #[trigger] r[i].last() == '\n' by {
            assert(r[i] == lines[i]);
        }
        r
    } else {
        let n = lines.len() - 1;
        let init = lines.drop_last();
        let last = lines.last().push(c);
        let r = init.push(last);
        init.lemma_flatten_push(lines.last());
        assert(init.push(lines.last()) =~= lines);
        init.lemma_flatten_push(last);
        assert(r.flatten() =~= text.push(c));
        assert(last.drop_last() =~= lines.last());
        assert forall|i: int| 0 <= i < r.len() implies #[trigger] r[i].len() > 0 && no_newline(
            r[i].drop_last(),
        ) by {
            if i < n {
                assert(r[i] == lines[i]);
            } else {
                assert(no_newline(lines[n].drop_last()));
                assert forall|k: int| 0 <= k < last.drop_last().len() implies last.drop_last()[k]
                    != '\n' by {
                    if k < lines[n].len() - 1 {
                        assert(last.drop_last()[k] == lines[n].drop_last()[k]);
                    }
                }
            }
        }
        assert forall|i: int| 0 <= i < r.len() - 1 implies #[trigger] r[i].last() == '\n' by {
            assert(r[i] == lines[i]);
        }
        r
    }
}

/// Every text has a line split.
pub proof fn lemma_line_split_exists(text: Seq<char>)
    ensures
        is_line_split(lines_of(text), text),
    decreases text.len(),
{
    if text.len() == 0 {
        let e = Seq::<Seq<char>>::empty();
        assert(is_line_split(e, text));
    } else {
        lemma_line_split_exists(text.drop_last());
        let r = lemma_split_extend(lines_of(text.drop_last()), text.drop_last(), text.last());
        assert(text.drop_last().push(text.last()) =~= text);
    }
}

/// Lines whose first line is not empty join into a non-empty text.
proof fn lemma_flatten_nonempty(lines: Seq<Seq<char>>)
    requires
        lines.len() > 0,
        lines[0].len() > 0,
    ensures
        lines.flatten().len() > 0,
        lines.flatten() == lines[0] + lines.drop_first().flatten(),
{
}

/// The line split of a text is unique.
pub proof fn lemma_line_split_unique(a: Seq<Seq<char>>, b: Seq<Seq<char>>, text: Seq<char>)
    requires
        is_line_split(a, text),
        is_line_split(b, text),
    ensures
        a == b,
    decreases text.len(),
{
    if a.len() == 0 || b.len() == 0 {
        if a.len() > 0 {
            assert(a[0].len() > 0);
            lemma_flatten_nonempty(a);
        }
        if b.len() > 0 {
            assert(b[0].len() > 0);
            lemma_flatten_nonempty(b);
        }
        assert(a =~= b);
    } else {
        assert(a[0].len() > 0);
        assert(b[0].len() > 0);
        lemma_flatten_nonempty(a);
        lemma_flatten_nonempty(b);
        let la = a[0].len() as int;
        let lb = b[0].len() as int;
        assert(text.take(la) =~= a[0]);
        assert(text.take(lb) =~= b[0]);
        if la < lb {
            if a.len() > 1 {
                assert(a[0].last() == '\n');
                assert(b[0].drop_last()[la - 1] == text[la - 1]);
                assert(no_newline(b[0].drop_last()));
            } else {
                assert(a.drop_first().flatten().len() == 0);
            }
        }
        if lb < la {
            if b.len() > 1 {
                assert(b[0].last() == '\n');
                assert(a[0].drop_last()[lb - 1] == text[lb - 1]);
                assert(no_newline(a[0].drop_last()));
            } else {
                assert(b.drop_first().flatten().len() == 0);
            }
        }
        assert(la == lb);
        assert(a[0] =~= b[0]);
        let ra = a.drop_first();
        let rb = b.drop_first();
        let rest = text.skip(la);
        assert(ra.flatten() =~= rest);
        assert(rb.flatten() =~= rest);
        assert forall|i: int| 0 <= i < ra.len() - 1 implies #[trigger] ra[i].last() == '\n' by {
            assert(ra[i] == a[i + 1]);
        }
        assert forall|i: int| 0 <= i < rb.len() - 1 implies #[trigger] rb[i].last() == '\n' by {
            assert(rb[i] == b[i + 1]);
        }
        assert forall|i: int| 0 <= i < ra.len() implies #[trigger] ra[i].len() > 0 && no_newline(
            ra[i].drop_last(),
        ) by {
            assert(ra[i] == a[i + 1]);
        }
        assert forall|i: int| 0 <= i < rb.len() implies #[trigger] rb[i].len() > 0 && no_newline(
            rb[i].drop_last(),
        ) by {
            assert(rb[i] == b[i + 1]);
        }
        lemma_line_split_unique(ra, rb, rest);
        assert(a =~= seq![a[0]] + ra);
        assert(b =~= seq![b[0]] + rb);
    }
}

/// A split is the lines of its text.
pub proof fn lemma_is_lines_of(lines: Seq<Seq<char>>, text: Seq<char>)
    requires
        is_line_split(lines, text),
    ensures
        lines == lines_of(text),
{
    lemma_line_split_exists(text);
    lemma_line_split_unique(lines, lines_of(text), text);
}

/// Splits characters into newline-terminated lines (`split_inclusive('\n')`).
pub fn split_lines(text: &[char]) -> (lines: Vec<String>)
    ensures
        lines.deep_view() == lines_of(text@),
{
    let mut lines: Vec<String> = Vec::new();
    let mut start: usize = 0;
    let mut i: usize = 0;
    while i < text.len()
        invariant
            0 <= start <= i <= text@.len(),
            lines.deep_view().flatten() == text@.take(start as int),
            no_newline(text@.subrange(start as int, i as int)),
            forall|k: int|
                0 <= k < lines.deep_view().len() ==> #[trigger] lines.deep_view()[k].len() > 0
                    && no_newline(lines.deep_view()[k].drop_last()) && lines.deep_view()[k].last()
                    == '\n',
        decreases text@.len() - i,
    {
        if text[i] == '\n' {
            let line = string_of_range(text, start, i + 1);
            let ghost before = lines.deep_view();
            lines.push(line);
            proof {
                assert(lines.deep_view() =~= before.push(line@));
                before.lemma_flatten_push(line@);
                assert(text@.take(i + 1) =~= text@.take(start as int) + line@);
                assert(line@.drop_last() =~= text@.subrange(start as int, i as int));
            }
            start = i + 1;
        }
        i = i + 1;
    }
    if start < text.len() {
        let line = string_of_range(text, start, text.len());
        let ghost before = lines.deep_view();
        lines.push(line);
        proof {
            assert(lines.deep_view() =~= before.push(line@));
            before.lemma_flatten_push(line@);
            assert(text@ =~= text@.take(start as int) + line@);
            assert(line@.drop_last() =~= text@.subrange(start as int, text@.len() - 1));
        }
    } else {
        assert(text@.take(start as int) =~= text@);
    }
    proof {
        lemma_is_lines_of(lines.deep_view(), text@);
    }
    lines
}

/// Adds a final newline to non-empty text that lacks one, and splits the
/// result into lines.
pub fn prep(content: &str) -> (res: (String, Vec<String>))
    ensures
        res.0@ == prepped(content@),
        res.1.deep_view() == lines_of(prepped(content@)),
{
    let mut chars = chars_of(content);
    let n = chars.len();
    if n > 0 && chars[n - 1] != '\n' {
        chars.push('\n');
    }
    let adjusted = string_of(chars.as_slice());
    let lines = split_lines(chars.as_slice());
    (adjusted, lines)
}

/// Lines `w[i .. i + p.len()]` are exactly `p`.
pub open spec fn lines_match_at(w: Seq<Seq<char>>, p: Seq<Seq<char>>, i: int) -> bool {
    0 <= i && i + p.len() <= w.len() && w.subrange(i, i + p.len() as int) == p
}

/// `w` with the `n` lines starting at `i` replaced by `r`.
pub open spec fn splice_lines(w: Seq<Seq<char>>, i: int, n: int, r: Seq<Seq<char>>) -> Seq<
    Seq<char>,
> {
    w.take(i) + r + w.skip(i + n)
}

/// Where the lines `p` first occur in `w`.
pub open spec fn first_line_match(w: Seq<Seq<char>>, p: Seq<Seq<char>>) -> Option<int> {
    first_where(0, w.len() - p.len() + 1, |i: int| lines_match_at(w, p, i))
}

/// What the exact tier gives: with no search lines, the replacement put in
/// front of the text; otherwise the first exact occurrence of the search
/// lines replaced by the replacement lines, or nothing when there is none.
pub open spec fn perfect_replace_result(w: Seq<Seq<char>>, p: Seq<Seq<char>>, r: Seq<Seq<char>>) -> Option<
    Seq<char>,
> {
    if p.len() == 0 {
        Some(r.flatten() + w.flatten())
    } else {
        match first_line_match(w, p) {
            Some(i) => Some(splice_lines(w, i, p.len() as int, r).flatten()),
            None => None,
        }
    }
}

/// `lines[from..to].join("")`.
pub fn concat_range(lines: &[String], from: usize, to: usize) -> (s: String)
    requires
        from <= to <= lines@.len(),
    ensures
        s@ == lines.deep_view().subrange(from as int, to as int).flatten(),
{
    let mut s = String::new();
    let mut i: usize = from;
    while i < to
        invariant
            from <= i <= to <= lines@.len(),
            s@ == lines.deep_view().subrange(from as int, i as int).flatten(),
        decreases to - i,
    {
        s.append(lines[i].as_str());
        proof {
            let d = lines.deep_view();
            assert(d.subrange(from as int, i + 1) =~= d.subrange(from as int, i as int).push(
                d[i as int],
            ));
            d.subrange(from as int, i as int).lemma_flatten_push(d[i as int]);
        }
        i = i + 1;
    }
    s
}

/// `(w[..i] ++ r ++ w[i + n..]).join("")`.
pub fn splice_join(w: &[String], i: usize, n: usize, r: &[String]) -> (s: String)
    requires
        i + n <= w@.len(),
    ensures
        s@ == splice_lines(w.deep_view(), i as int, n as int, r.deep_view()).flatten(),
{
    let wl = w.len();
    let mut s = concat_range(w, 0, i);
    let mid = concat_range(r, 0, r.len());
    let tail = concat_range(w, i + n, wl);
    s.append(mid.as_str());
    s.append(tail.as_str());
    proof {
        let d = w.deep_view();
        let rd = r.deep_view();
        assert(d.subrange(0, i as int) =~= d.take(i as int));
        assert(rd.subrange(0, rd.len() as int) =~= rd);
        assert(d.subrange(i + n, d.len() as int) =~= d.skip(i + n));
        vstd::seq_lib::lemma_flatten_concat(d.take(i as int), rd);
        vstd::seq_lib::lemma_flatten_concat(d.take(i as int) + rd, d.skip(i + n));
    }
    s
}

/// Whether lines `w[i..i + p.len()]` equal `p`.
pub fn lines_equal_at(w: &[String], p: &[String], i: usize) -> (r: bool)
    requires
        i + p@.len() <= w@.len(),
    ensures
        r == lines_match_at(w.deep_view(), p.deep_view(), i as int),
{
    let wl = w.len();
    let mut j: usize = 0;
    while j < p.len()
        invariant
            0 <= j <= p@.len(),
            wl == w@.len(),
            i + p@.len() <= w@.len(),
            forall|k: int| 0 <= k < j ==> w.deep_view()[i + k] == #[trigger] p.deep_view()[k],
        decreases p@.len() - j,
    {
        if !(w[i + j] == p[j]) {
            assert(w.deep_view().subrange(i as int, i + p@.len())[j as int] != p.deep_view()[j as int]);
            return false;
        }
        j = j + 1;
    }
    assert(w.deep_view().subrange(i as int, i + p@.len()) =~= p.deep_view());
    true
}

/// Exact tier: replaces the first place where the search lines occur
/// verbatim in the text lines.
pub fn perfect_replace(whole_lines: &[String], part_lines: &[String], replace_lines: &[String]) -> (res:
    Option<String>)
    ensures
        res.deep_view() == perfect_replace_result(
            whole_lines.deep_view(),
            part_lines.deep_view(),
            replace_lines.deep_view(),
        ),
{
    let ghost w = whole_lines.deep_view();
    let ghost p = part_lines.deep_view();
    let ghost f = |i: int| lines_match_at(w, p, i);
    let part_len = part_lines.len();
    if part_len == 0 {
        let mut res = concat_range(replace_lines, 0, replace_lines.len());
        let rest = concat_range(whole_lines, 0, whole_lines.len());
        res.append(rest.as_str());
        assert(replace_lines.deep_view().subrange(0, replace_lines@.len() as int)
            =~= replace_lines.deep_view());
        assert(w.subrange(0, w.len() as int) =~= w);
        return Some(res);
    }
    if whole_lines.len() < part_len {
        proof {
            lemma_first_where(0, w.len() - p.len() + 1, f);
        }
        return None;
    }
    let last = whole_lines.len() - part_len;
    let mut i: usize = 0;
    while i <= last
        invariant
            0 <= i <= last + 1,
            last == w.len() - p.len(),
            w.len() == whole_lines@.len() <= usize::MAX,
            p.len() == part_len > 0,
            w == whole_lines.deep_view(),
            p == part_lines.deep_view(),
            f == (|i: int| lines_match_at(w, p, i)),
            first_where(0, w.len() - p.len() + 1, f) == first_where(i as int, w.len() - p.len() + 1, f),
        decreases last + 1 - i,
    {
        if lines_equal_at(whole_lines, part_lines, i) {
            let res = splice_join(whole_lines, i, part_len, replace_lines);
            return Some(res);
        }
        i = i + 1;
    }
    None
}

/// The last line of a split ends where the text ends.
pub proof fn lemma_last_line_end(ls: Seq<Seq<char>>, t: Seq<char>)
    requires
        is_line_split(ls, t),
        ls.len() > 0,
    ensures
        t.len() > 0,
        ls.last().last() == t.last(),
{
    assert(ls == ls.drop_last().push(ls.last()));
    ls.drop_last().lemma_flatten_push(ls.last());
    assert(ls.last().len() > 0);
}

/// A text whose lines all end with a newline, followed by another text, is
/// split into the lines of the first and then those of the second.
pub proof fn lemma_lines_of_concat(a: Seq<char>, b: Seq<char>)
    requires
        a.len() == 0 || a.last() == '\n',
    ensures
        lines_of(a + b) == lines_of(a) + lines_of(b),
{
    lemma_line_split_exists(a);
    lemma_line_split_exists(b);
    let la = lines_of(a);
    let lb = lines_of(b);
    let l = la + lb;
    vstd::seq_lib::lemma_flatten_concat(la, lb);
    assert forall|i: int| 0 <= i < l.len() implies #[trigger] l[i].len() > 0 && no_newline(
        l[i].drop_last(),
    ) by {
        if i < la.len() {
            assert(l[i] == la[i]);
        } else {
            assert(l[i] == lb[i - la.len()]);
        }
    }
    assert forall|i: int| 0 <= i < l.len() - 1 implies #[trigger] l[i].last() == '\n' by {
        if i < la.len() - 1 {
            assert(l[i] == la[i]);
        } else if i == la.len() - 1 {
            assert(l[i] == la[i]);
            if a.len() == 0 {
                assert(la.len() > 0);
                assert(la[0].len() > 0);
                assert(la.flatten() == la[0] + la.drop_first().flatten());
            }
            lemma_last_line_end(la, a);
        } else {
            assert(l[i] == lb[i - la.len()]);
        }
    }
    lemma_is_lines_of(l, a + b);
}

/// A single newline-terminated line is its own split.
pub proof fn lemma_lines_of_line(x: Seq<char>)
    requires
        x.len() > 0,
        x.last() == '\n',
        no_newline(x.drop_last()),
    ensures
        lines_of(x) == seq![x],
{
    let l = seq![x];
    assert(l.drop_first() =~= Seq::<Seq<char>>::empty());
    assert(l.drop_first().flatten() =~= Seq::<char>::empty());
    assert(l.flatten() == l.first() + l.drop_first().flatten());
    assert(l.flatten() =~= x);
    lemma_is_lines_of(l, x);
}

/// `prep` gives newline-terminated lines that together make up its text, and
/// preparing an already prepared text changes nothing.
pub proof fn law_prepped_lines(content: Seq<char>)
    ensures
        lines_of(prepped(content)).flatten() == prepped(content),
        forall|i: int|
            0 <= i < lines_of(prepped(content)).len() ==> (#[trigger] lines_of(prepped(content))[i]).last()
                == '\n',
        prepped(prepped(content)) == prepped(content),
{
    let t = prepped(content);
    let ls = lines_of(t);
    lemma_line_split_exists(t);
    assert forall|i: int| 0 <= i < ls.len() implies (#[trigger] ls[i]).last() == '\n' by {
        if i < ls.len() - 1 {
        } else {
            assert(ls.len() > 0);
            assert(ls == ls.drop_last().push(ls.last()));
            ls.drop_last().lemma_flatten_push(ls.last());
            assert(ls.flatten() == ls.drop_last().flatten() + ls.last());
            assert(ls.last().len() > 0);
            assert(t.last() == ls.last().last());
        }
    }
}

/// Replacing lines that occur by themselves gives the text back unchanged.
pub proof fn law_exact_identity(w: Seq<Seq<char>>, p: Seq<Seq<char>>)
    requires
        p.len() > 0,
        first_line_match(w, p) is Some,
    ensures
        perfect_replace_result(w, p, p) == Some(w.flatten()),
{
    let f = |i: int| lines_match_at(w, p, i);
    lemma_first_where(0, w.len() - p.len() + 1, f);
    let i = first_line_match(w, p)->0;
    assert(f(i));
    assert(splice_lines(w, i, p.len() as int, p) =~= w);
}

/// Every place of the text is tried, the last one included: when the search
/// lines occur at line `i`, the exact tier succeeds, replacing an occurrence
/// that starts no later than `i` and keeping every other line.
pub proof fn law_exact_tries_every_place(w: Seq<Seq<char>>, p: Seq<Seq<char>>, r: Seq<Seq<char>>, i: int)
    requires
        p.len() > 0,
        0 <= i,
        i + p.len() <= w.len(),
        w.subrange(i, i + p.len()) == p,
    ensures
        exists|j: int|
            #![trigger w.subrange(j, j + p.len())]
            0 <= j <= i && w.subrange(j, j + p.len()) == p && perfect_replace_result(w, p, r) == Some(
                (w.take(j) + r + w.skip(j + p.len())).flatten(),
            ),
{
    let f = |k: int| lines_match_at(w, p, k);
    assert(f(i));
    lemma_first_where(0, w.len() - p.len() + 1, f);
    let j = first_line_match(w, p)->0;
    assert(j <= i) by {
        if j > i {
            assert(!f(i));
        }
    }
}

} // verus!

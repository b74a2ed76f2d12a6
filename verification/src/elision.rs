//! The elision tier: search and replacement texts cut into segments at
//! `...`, each search segment replaced in turn by its counterpart.
use vstd::prelude::*;
use crate::text::{views, opt_int, chars_of, string_of, subvec};
use crate::lines::{first_where, lemma_first_where, lemma_first_where_is};

verus! {

broadcast use vstd::seq_lib::group_seq_properties;

/// The elision marker `...`.
pub open spec fn dots() -> Seq<char> {
    seq!['.', '.', '.']
}

/// `pat` occurs in `s` at index `k`.
pub open spec fn occurs_at(s: Seq<char>, pat: Seq<char>, k: int) -> bool {
    0 <= k && k + pat.len() <= s.len() && s.subrange(k, k + pat.len()) == pat
}

/// The first occurrence of `pat` in `s` at or after `from` (`str::find`).
pub open spec fn find_from(s: Seq<char>, pat: Seq<char>, from: int) -> Option<int> {
    first_where(from, s.len() - pat.len() + 1, |k: int| occurs_at(s, pat, k))
}

/// `find_from` gives the first occurrence at or after `from`, or nothing
/// when there is none.
pub proof fn lemma_find_from(s: Seq<char>, pat: Seq<char>, from: int)
    ensures
        match find_from(s, pat, from) {
            Some(k) => from <= k && k + pat.len() <= s.len() && occurs_at(s, pat, k) && forall|j: int|
                from <= j < k ==> !#[trigger] occurs_at(s, pat, j),
            None => forall|j: int| from <= j ==> !#[trigger] occurs_at(s, pat, j),
        },
{
    let f = |k: int| occurs_at(s, pat, k);
    lemma_first_where(from, s.len() - pat.len() + 1, f);
    match find_from(s, pat, from) {
        Some(k) => {
            assert(f(k));
            assert forall|j: int| from <= j < k implies !#[trigger] occurs_at(s, pat, j) by {
                assert(!f(j));
            }
        },
        None => {
            assert forall|j: int| from <= j implies !#[trigger] occurs_at(s, pat, j) by {
                if j < s.len() - pat.len() + 1 {
                    assert(!f(j));
                }
            }
        },
    }
}

/// `pat` occurs in `s` at or after `from`.
pub open spec fn occurs_from(s: Seq<char>, pat: Seq<char>, from: int) -> bool {
    exists|k: int| from <= k && occurs_at(s, pat, k)
}

/// The pieces of `s[from..]` between non-overlapping occurrences of `sep`
/// taken from left to right (`str::split`).
pub open spec fn split_from(s: Seq<char>, sep: Seq<char>, from: int) -> Seq<Seq<char>>
    decreases s.len() - from,
{
    if sep.len() == 0 || from < 0 || from > s.len() {
        seq![s.skip(from)]
    } else {
        match find_from(s, sep, from) {
            None => seq![s.skip(from)],
            Some(k) => if k < from || k + sep.len() > s.len() {
                seq![]
            } else {
                seq![s.subrange(from, k)] + split_from(s, sep, k + sep.len())
            },
        }
    }
}

/// The pieces of `s` between the elision markers.
pub open spec fn split_dots(s: Seq<char>) -> Seq<Seq<char>> {
    split_from(s, dots(), 0)
}

/// `t` ends with a newline.
pub open spec fn ends_with_newline(t: Seq<char>) -> bool {
    t.len() > 0 && t.last() == '\n'
}

/// Applies the segment pairs `ps[i..]`, `rs[i..]` to `text` in order: a pair
/// of empty segments is skipped; an empty search segment appends its
/// replacement (on a new line); otherwise the search segment must occur in
/// the text, only once, and is replaced.
pub open spec fn apply_segments(text: Seq<char>, ps: Seq<Seq<char>>, rs: Seq<Seq<char>>, i: int) -> Option<
    Seq<char>,
>
    decreases ps.len() - i,
{
    if i < 0 || i >= ps.len() || i >= rs.len() {
        Some(text)
    } else {
        let p = ps[i];
        let r = rs[i];
        if p.len() == 0 && r.len() == 0 {
            apply_segments(text, ps, rs, i + 1)
        } else if p.len() == 0 {
            let base = if ends_with_newline(text) {
                text
            } else {
                text.push('\n')
            };
            apply_segments(base + r, ps, rs, i + 1)
        } else {
            match find_from(text, p, 0) {
                None => None,
                Some(f) => if occurs_from(text, p, f + p.len()) {
                    None
                } else {
                    apply_segments(
                        text.take(f) + r + text.skip(f + p.len()),
                        ps,
                        rs,
                        i + 1,
                    )
                },
            }
        }
    }
}

/// What the elision tier gives: both texts must hold the marker and split
/// into the same number of segments, which are then applied to the text.
pub open spec fn dotdotdots_result(whole: Seq<char>, part: Seq<char>, replace: Seq<char>) -> Option<
    Seq<char>,
> {
    if !occurs_from(part, dots(), 0) || !occurs_from(replace, dots(), 0) {
        None
    } else {
        let ps = split_dots(part);
        let rs = split_dots(replace);
        if ps.len() != rs.len() || ps.len() <= 1 {
            None
        } else {
            apply_segments(whole, ps, rs, 0)
        }
    }
}

/// Whether `pat` occurs in `s` at `k`.
fn occurs_at_exec(s: &[char], pat: &[char], k: usize) -> (r: bool)
    requires
        k + pat@.len() <= s@.len(),
    ensures
        r == occurs_at(s@, pat@, k as int),
{
    let n = pat.len();
    let sl = s.len();
    let mut j: usize = 0;
    while j < n
        invariant
            0 <= j <= n == pat@.len(),
            sl == s@.len(),
            k + n <= sl,
            forall|t: int| 0 <= t < j ==> s@[k + t] == #[trigger] pat@[t],
        decreases n - j,
    {
        if s[k + j] != pat[j] {
            assert(s@.subrange(k as int, k + n)[j as int] != pat@[j as int]);
            return false;
        }
        j = j + 1;
    }
    assert(s@.subrange(k as int, k + n) =~= pat@);
    true
}

/// The first occurrence of `pat` in `s` at or after `from`.
pub fn find_chars(s: &[char], pat: &[char], from: usize) -> (r: Option<usize>)
    ensures
        opt_int(r) == find_from(s@, pat@, from as int),
{
    let ghost f = |k: int| occurs_at(s@, pat@, k);
    let sl = s.len();
    let n = pat.len();
    if sl < n || from > sl - n {
        proof {
            lemma_first_where(from as int, s@.len() - pat@.len() + 1, f);
            assert(first_where(from as int, s@.len() - pat@.len() + 1, f) is None);
        }
        return None;
    }
    let last = sl - n;
    let mut k: usize = from;
    while k <= last
        invariant
            from <= k <= last + 1,
            last == s@.len() - pat@.len(),
            sl == s@.len(),
            n == pat@.len(),
            last + 1 <= usize::MAX || k <= last,
            f == (|k: int| occurs_at(s@, pat@, k)),
            first_where(from as int, s@.len() - pat@.len() + 1, f) == first_where(
                k as int,
                s@.len() - pat@.len() + 1,
                f,
            ),
        decreases last + 1 - k,
    {
        if occurs_at_exec(s, pat, k) {
            return Some(k);
        }
        if k == last {
            assert(first_where(k as int, s@.len() - pat@.len() + 1, f) == first_where(
                k + 1,
                s@.len() - pat@.len() + 1,
                f,
            ));
            return None;
        }
        k = k + 1;
    }
    None
}

/// Whether `pat` occurs in `s` at or after `from`.
fn occurs_from_exec(s: &[char], pat: &[char], from: usize) -> (r: bool)
    ensures
        r == occurs_from(s@, pat@, from as int),
{
    let ghost f = |k: int| occurs_at(s@, pat@, k);
    let res = find_chars(s, pat, from);
    proof {
        lemma_first_where(from as int, s@.len() - pat@.len() + 1, f);
        if res is None {
            assert forall|k: int| from <= k implies !occurs_at(s@, pat@, k) by {
                if k < s@.len() - pat@.len() + 1 {
                    assert(!f(k));
                }
            }
        } else {
            assert(f(res->0 as int));
        }
    }
    res.is_some()
}

/// The pieces of `s` between the occurrences of the three-character marker
/// `sep`.
fn split_chars(s: &[char], sep: &[char]) -> (r: Vec<Vec<char>>)
    requires
        sep@.len() == 3,
    ensures
        views(r@) == split_from(s@, sep@, 0),
{
    let mut pieces: Vec<Vec<char>> = Vec::new();
    let mut start: usize = 0;
    let sl = s.len();
    loop
        invariant
            0 <= start <= sl == s@.len(),
            sep@.len() == 3,
            views(pieces@) + split_from(s@, sep@, start as int) == split_from(s@, sep@, 0),
        decreases sl - start,
    {
        let ghost fw = |k: int| occurs_at(s@, sep@, k);
        proof {
            lemma_first_where(start as int, s@.len() - sep@.len() + 1, fw);
        }
        match find_chars(s, sep, start) {
            None => {
                let piece = subvec(s, start, sl);
                assert(piece@ =~= s@.skip(start as int));
                let ghost before = views(pieces@);
                pieces.push(piece);
                assert(views(pieces@) =~= before.push(piece@));
                assert(views(pieces@) =~= before + split_from(s@, sep@, start as int));
                return pieces;
            },
            Some(k) => {
                let piece = subvec(s, start, k);
                let ghost before = views(pieces@);
                let ghost rest = split_from(s@, sep@, k + 3);
                assert(split_from(s@, sep@, start as int) == seq![piece@] + rest);
                assert(k + 3 <= sl);
                pieces.push(piece);
                assert(views(pieces@) =~= before.push(piece@));
                assert(views(pieces@) + rest =~= before + split_from(s@, sep@, start as int));
                start = k + 3;
            },
        }
    }
}

/// The elision marker as characters.
fn dots_chars() -> (r: Vec<char>)
    ensures
        r@ == dots(),
{
    let mut r: Vec<char> = Vec::new();
    r.push('.');
    r.push('.');
    r.push('.');
    assert(r@ =~= dots());
    r
}

/// Elision tier: when search and replacement both contain `...` and split at
/// it into the same number of segments, applies the segment pairs in order;
/// each non-empty search segment must occur exactly once in the text at the
/// time it is applied.
pub fn try_dotdotdots(whole: &str, part: &str, replace: &str) -> (res: Option<String>)
    ensures
        res.deep_view() == dotdotdots_result(whole@, part@, replace@),
{
    let d = dots_chars();
    let pv = chars_of(part);
    let rv = chars_of(replace);
    if !occurs_from_exec(pv.as_slice(), d.as_slice(), 0) || !occurs_from_exec(
        rv.as_slice(),
        d.as_slice(),
        0,
    ) {
        return None;
    }
    let part_pieces = split_chars(pv.as_slice(), d.as_slice());
    let replace_pieces = split_chars(rv.as_slice(), d.as_slice());
    if part_pieces.len() != replace_pieces.len() || part_pieces.len() <= 1 {
        return None;
    }
    let ghost ps = views(part_pieces@);
    let ghost rs = views(replace_pieces@);
    let mut result = chars_of(whole);
    let n = part_pieces.len();
    let mut i: usize = 0;
    while i < n
        invariant
            0 <= i <= n,
            n == ps.len() == rs.len(),
            ps == views(part_pieces@),
            rs == views(replace_pieces@),
            ps == split_dots(part@),
            rs == split_dots(replace@),
            occurs_from(part@, dots(), 0),
            occurs_from(replace@, dots(), 0),
            ps.len() > 1,
            apply_segments(whole@, ps, rs, 0) == apply_segments(result@, ps, rs, i as int),
        decreases n - i,
    {
        let p = &part_pieces[i];
        let r = &replace_pieces[i];
        assert(p@ == ps[i as int]);
        assert(r@ == rs[i as int]);
        if p.len() == 0 && r.len() == 0 {
        } else if p.len() == 0 {
            let rl = result.len();
            if !(rl > 0 && result[rl - 1] == '\n') {
                result.push('\n');
            }
            let ghost base = result@;
            let mut k: usize = 0;
            while k < r.len()
                invariant
                    0 <= k <= r@.len(),
                    result@ == base + r@.take(k as int),
                decreases r@.len() - k,
            {
                result.push(r[k]);
                k = k + 1;
                assert(result@ =~= base + r@.take(k as int));
            }
            assert(r@.take(k as int) =~= r@);
        } else {
            match find_chars(result.as_slice(), p.as_slice(), 0) {
                None => {
                    assert(p@.len() != 0);
                    assert(apply_segments(result@, ps, rs, i as int) is None);
                    return None;
                },
                Some(first) => {
                    proof {
                        lemma_find_from(result@, p@, 0);
                        assert(find_from(result@, p@, 0) == Some(first as int));
                    }
                    let rlen = result.len();
                    let after = first + p.len();
                    if occurs_from_exec(result.as_slice(), p.as_slice(), after) {
                        return None;
                    }
                    let mut next = subvec(result.as_slice(), 0, first);
                    let ghost pre = next@;
                    let mut k: usize = 0;
                    while k < r.len()
                        invariant
                            0 <= k <= r@.len(),
                            next@ == pre + r@.take(k as int),
                        decreases r@.len() - k,
                    {
                        next.push(r[k]);
                        k = k + 1;
                        assert(next@ =~= pre + r@.take(k as int));
                    }
                    assert(r@.take(k as int) =~= r@);
                    let tail = subvec(result.as_slice(), after, result.len());
                    let ghost mid = next@;
                    let mut k: usize = 0;
                    while k < tail.len()
                        invariant
                            0 <= k <= tail@.len(),
                            next@ == mid + tail@.take(k as int),
                        decreases tail@.len() - k,
                    {
                        next.push(tail[k]);
                        k = k + 1;
                        assert(next@ =~= mid + tail@.take(k as int));
                    }
                    assert(tail@.take(k as int) =~= tail@);
                    assert(pre =~= result@.take(first as int));
                    assert(tail@ =~= result@.skip(after as int));
                    result = next;
                },
            }
        }
        i = i + 1;
    }
    let s = string_of(result.as_slice());
    Some(s)
}

/// Every non-empty segment occurs in `t`, once.
pub open spec fn segments_unique(t: Seq<char>, ps: Seq<Seq<char>>) -> bool {
    forall|j: int|
        0 <= j < ps.len() && (#[trigger] ps[j]).len() > 0 ==> find_from(t, ps[j], 0) is Some
            && !occurs_from(t, ps[j], find_from(t, ps[j], 0)->0 + ps[j].len())
}

/// Replacing unique segments by themselves leaves the text unchanged.
proof fn lemma_apply_identity(t: Seq<char>, ps: Seq<Seq<char>>, i: int)
    requires
        0 <= i,
        segments_unique(t, ps),
    ensures
        apply_segments(t, ps, ps, i) == Some(t),
    decreases ps.len() - i,
{
    if i < ps.len() {
        let p = ps[i];
        if p.len() > 0 {
            lemma_find_from(t, p, 0);
            let f = find_from(t, p, 0)->0;
            assert(t.take(f) + p + t.skip(f + p.len()) =~= t);
        }
        lemma_apply_identity(t, ps, i + 1);
    }
}

/// Splitting yields at least one piece.
proof fn lemma_split_nonempty(s: Seq<char>, sep: Seq<char>, from: int)
    requires
        sep.len() > 0,
        0 <= from <= s.len(),
    ensures
        split_from(s, sep, from).len() >= 1,
    decreases s.len() - from,
{
    lemma_find_from(s, sep, from);
    if let Some(k) = find_from(s, sep, from) {
        lemma_split_nonempty(s, sep, k + sep.len());
    }
}

/// An elided block whose replacement is its own search text leaves the text
/// unchanged when every non-empty segment occurs in it exactly once.
pub proof fn law_elision_identity(whole: Seq<char>, part: Seq<char>)
    requires
        occurs_from(part, dots(), 0),
        segments_unique(whole, split_dots(part)),
    ensures
        dotdotdots_result(whole, part, part) == Some(whole),
{
    lemma_find_from(part, dots(), 0);
    let k = find_from(part, dots(), 0)->0;
    lemma_split_nonempty(part, dots(), k + 3);
    lemma_apply_identity(whole, split_dots(part), 0);
}

/// No character of `s` is a dot.
pub open spec fn no_dot(s: Seq<char>) -> bool {
    forall|k: int| 0 <= k < s.len() ==> s[k] != '.'
}

/// A dot-free text followed by the marker splits into that text and an empty
/// tail.
proof fn lemma_split_before_marker(a: Seq<char>)
    requires
        no_dot(a),
    ensures
        occurs_from(a + dots(), dots(), 0),
        split_dots(a + dots()) == seq![a, Seq::<char>::empty()],
{
    let s = a + dots();
    let g = |k: int| occurs_at(s, dots(), k);
    assert(s.subrange(a.len() as int, a.len() + 3int) =~= dots());
    assert(g(a.len() as int));
    assert forall|j: int| 0 <= j < a.len() implies !#[trigger] g(j) by {
        if g(j) {
            assert(s.subrange(j, j + 3)[0] == s[j]);
            assert(s[j] == a[j]);
        }
    }
    lemma_first_where_is(0, s.len() - 3 + 1, g, a.len() as int);
    assert(find_from(s, dots(), 0) == Some(a.len() as int));
    assert(find_from(s, dots(), s.len() as int) is None);
    assert(split_from(s, dots(), s.len() as int) == seq![s.skip(s.len() as int)]);
    assert(s.skip(s.len() as int) =~= Seq::<char>::empty());
    assert(s.subrange(0, a.len() as int) =~= a);
    assert(split_from(s, dots(), 0) =~= seq![a, Seq::<char>::empty()]);
}

/// A segment that occurs exactly once is found there, with no occurrence
/// after it.
proof fn lemma_found_once(whole: Seq<char>, p: Seq<char>, f: int)
    requires
        p.len() > 0,
        occurs_at(whole, p, f),
        forall|k: int| k != f ==> !#[trigger] occurs_at(whole, p, k),
    ensures
        find_from(whole, p, 0) == Some(f),
        !occurs_from(whole, p, f + p.len()),
{
    let g = |k: int| occurs_at(whole, p, k);
    assert(g(f));
    assert forall|j: int| 0 <= j < f implies !#[trigger] g(j) by {
        assert(j != f);
    }
    lemma_first_where_is(0, whole.len() - p.len() + 1, g, f);
    assert forall|k: int| f + p.len() <= k implies !#[trigger] occurs_at(whole, p, k) by {
        assert(k != f);
    }
}

/// Applying one search segment found once, then an empty pair.
proof fn lemma_apply_one(whole: Seq<char>, p: Seq<char>, r: Seq<char>, f: int)
    requires
        p.len() > 0,
        find_from(whole, p, 0) == Some(f),
        !occurs_from(whole, p, f + p.len()),
    ensures
        apply_segments(whole, seq![p, Seq::<char>::empty()], seq![r, Seq::<char>::empty()], 0) == Some(
            whole.take(f) + r + whole.skip(f + p.len()),
        ),
{
    let e = Seq::<char>::empty();
    let ps = seq![p, e];
    let rs = seq![r, e];
    let t = whole.take(f) + r + whole.skip(f + p.len());
    assert(apply_segments(t, ps, rs, 2) == Some(t));
    assert(apply_segments(t, ps, rs, 1) == apply_segments(t, ps, rs, 2));
    assert(apply_segments(whole, ps, rs, 0) == apply_segments(t, ps, rs, 1));
}

/// With the marker at the end of both texts, a search segment that occurs
/// exactly once in the text is swapped for the replacement segment, and
/// every other character of the text is kept, in place.
pub proof fn law_elision_swaps_segment(whole: Seq<char>, p: Seq<char>, r: Seq<char>, f: int)
    requires
        p.len() > 0,
        no_dot(p),
        no_dot(r),
        occurs_at(whole, p, f),
        forall|k: int| k != f ==> !#[trigger] occurs_at(whole, p, k),
    ensures
        dotdotdots_result(whole, p + dots(), r + dots()) == Some(
            whole.take(f) + r + whole.skip(f + p.len()),
        ),
{
    lemma_split_before_marker(p);
    lemma_split_before_marker(r);
    lemma_found_once(whole, p, f);
    lemma_apply_one(whole, p, r, f);
}

/// A search segment that occurs twice in the text, the second time after the
/// first one ends, is ambiguous, and the tier gives nothing.
pub proof fn law_elision_rejects_repeated_segment(
    whole: Seq<char>,
    p: Seq<char>,
    r: Seq<char>,
    f1: int,
    f2: int,
)
    requires
        p.len() > 0,
        no_dot(p),
        no_dot(r),
        occurs_at(whole, p, f1),
        occurs_at(whole, p, f2),
        f1 + p.len() <= f2,
    ensures
        dotdotdots_result(whole, p + dots(), r + dots()) is None,
{
    lemma_split_before_marker(p);
    lemma_split_before_marker(r);
    lemma_find_from(whole, p, 0);
    let f0 = find_from(whole, p, 0)->0;
    assert(f0 <= f1);
    assert(occurs_from(whole, p, f0 + p.len()));
    let ps = split_dots(p + dots());
    let rs = split_dots(r + dots());
    assert(ps == seq![p, Seq::<char>::empty()]);
    assert(apply_segments(whole, ps, rs, 0) is None);
}

} // verus!

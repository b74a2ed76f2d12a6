//! The fuzzy tier: the window of text lines most similar to the search text
//! (by `similar`'s line-diff ratio), and the context shown when nothing
//! matches.
use vstd::prelude::*;
use crate::text::{chars_of, string_of_range};
use crate::lines::{prep, prepped, lines_of, splice_lines, splice_join, concat_range};

verus! {

broadcast use vstd::seq_lib::group_seq_properties;

/// The similarity ratio of two texts compared line by line, as
/// `similar::TextDiff::from_lines(old, new).ratio()` computes it, given by the
/// bit pattern (`f32::to_bits`) of that `f32`.
pub uninterp spec fn line_diff_ratio(old: Seq<char>, new: Seq<char>) -> u32;

/// `similar::TextDiff::from_lines(old, new).ratio()`, handed back as the bit
/// pattern of the `f32` it returns. The contract claims only that the result
/// is a function of the two texts (the diff runs with no deadline). `ratio`
/// lies in `0.0..=1.0`; on non-negative floats the order of bit patterns is
/// the order of the values, so comparing the patterns as integers compares
/// the ratios.
#[verifier::external_body]
fn diff_ratio_bits(old: &str, new: &str) -> (r: u32)
    ensures
        r == line_diff_ratio(old@, new@),
{
    similar::TextDiff::from_lines(old, new).ratio().to_bits()
}

/// The bit pattern of `0.85` as an `f32`: the least ratio the fuzzy tier
/// accepts.
pub open spec fn similarity_threshold() -> u32 {
    0x3F59_999A
}

/// The most search lines the fuzzy tier compares.
pub open spec fn max_fuzzy_lines() -> nat {
    100
}

/// The shortest window tried for `n` search lines: `⌊n · 0.9⌋`.
pub open spec fn min_window(n: int) -> int {
    (9 * n) / 10
}

/// The longest window tried for `n` search lines: `⌈n · 1.1⌉` as double
/// precision computes it, which lands just above an integer for 50, 90 and
/// 100 lines and so rounds up one further there.
pub open spec fn max_window(n: int) -> int {
    (11 * n + 9) / 10 + if n == 50 || n == 90 || n == 100 {
        1int
    } else {
        0int
    }
}

/// A window of `len` lines starting at `i` that the fuzzy tier compares.
pub open spec fn window_ok(w: Seq<Seq<char>>, plen: int, len: int, i: int) -> bool {
    min_window(plen) <= len <= max_window(plen) && 0 <= i && i + len <= w.len()
}

/// How similar the window is to the search text.
pub open spec fn window_ratio(w: Seq<Seq<char>>, part: Seq<char>, len: int, i: int) -> u32 {
    line_diff_ratio(w.subrange(i, i + len).flatten(), part)
}

/// Window `(l2, i2)` comes before `(l1, i1)` in the order of the search:
/// shorter windows first, then by start.
pub open spec fn window_before(l2: int, i2: int, l1: int, i1: int) -> bool {
    l2 < l1 || (l2 == l1 && i2 < i1)
}

/// The first window, in the order of the search, of the greatest ratio.
pub open spec fn is_best_window(w: Seq<Seq<char>>, part: Seq<char>, plen: int, len: int, i: int) -> bool {
    &&& window_ok(w, plen, len, i)
    &&& forall|l2: int, i2: int|
        #![trigger window_ratio(w, part, l2, i2)]
        window_ok(w, plen, l2, i2) ==> window_ratio(w, part, l2, i2) <= window_ratio(
            w,
            part,
            len,
            i,
        )
    &&& forall|l2: int, i2: int|
        #![trigger window_ratio(w, part, l2, i2)]
        window_ok(w, plen, l2, i2) && window_before(l2, i2, len, i) ==> window_ratio(
            w,
            part,
            l2,
            i2,
        ) < window_ratio(w, part, len, i)
}

/// Some window reaches the threshold.
pub open spec fn some_window_similar(w: Seq<Seq<char>>, part: Seq<char>, plen: int) -> bool {
    exists|len: int, i: int|
        #![trigger window_ratio(w, part, len, i)]
        window_ok(w, plen, len, i) && window_ratio(w, part, len, i) >= similarity_threshold()
}

/// What the fuzzy tier gives: with 1 to 100 search lines, the most similar
/// window of the text (the first one, in the order of the search, of the
/// greatest ratio) replaced by the replacement lines, when its ratio reaches
/// the threshold.
pub open spec fn closest_result(w: Seq<Seq<char>>, part: Seq<char>, plen: int, r: Seq<Seq<char>>) -> Option<
    Seq<char>,
> {
    if plen == 0 || plen > max_fuzzy_lines() || !some_window_similar(w, part, plen) {
        None
    } else {
        let (len, i) = choose|len: int, i: int| is_best_window(w, part, plen, len, i);
        Some(splice_lines(w, i, len, r).flatten())
    }
}

/// There is at most one best window.
pub proof fn lemma_best_window_unique(
    w: Seq<Seq<char>>,
    part: Seq<char>,
    plen: int,
    l1: int,
    i1: int,
    l2: int,
    i2: int,
)
    requires
        is_best_window(w, part, plen, l1, i1),
        is_best_window(w, part, plen, l2, i2),
    ensures
        l1 == l2 && i1 == i2,
{
    let r1 = window_ratio(w, part, l1, i1);
    let r2 = window_ratio(w, part, l2, i2);
    assert(r1 <= r2);
    assert(r2 <= r1);
    if window_before(l1, i1, l2, i2) {
        assert(r1 < r2);
    }
    if window_before(l2, i2, l1, i1) {
        assert(r2 < r1);
    }
}

/// The ratio of the window of `len` lines starting at `i`.
fn ratio_of_window(whole_lines: &[String], part: &str, i: usize, len: usize) -> (r: u32)
    requires
        i + len <= whole_lines@.len(),
    ensures
        r == window_ratio(whole_lines.deep_view(), part@, len as int, i as int),
{
    let n = whole_lines.len();
    assert(i + len <= n);
    let chunk = concat_range(whole_lines, i, i + len);
    diff_ratio_bits(chunk.as_str(), part)
}

/// The rows of a table of ratios.
pub open spec fn rows(table: Seq<Vec<u32>>) -> Seq<Seq<u32>> {
    table.map_values(|row: Vec<u32>| row@)
}

/// Cell `(d, i)` of a table of ratios exists.
pub open spec fn in_table(t: Seq<Seq<u32>>, d: int, i: int) -> bool {
    0 <= d < t.len() && 0 <= i < t[d].len()
}

/// Cell `(d, i)` holds the greatest ratio of the table, a positive one, and
/// is the first such cell in row-major order.
pub open spec fn best_cell(t: Seq<Seq<u32>>, d: int, i: int) -> bool {
    &&& in_table(t, d, i)
    &&& t[d][i] > 0
    &&& forall|d2: int, i2: int| #[trigger] in_table(t, d2, i2) ==> t[d2][i2] <= t[d][i]
    &&& forall|d2: int, i2: int|
        #[trigger] in_table(t, d2, i2) && window_before(d2, i2, d, i) ==> t[d2][i2] < t[d][i]
}

/// The first cell of the greatest ratio of a table whose rows are the window
/// lengths and whose columns are the window starts: the window that the
/// fuzzy tier picks from the ratios it measured. Nothing when every ratio is
/// zero (no window is more similar than none).
pub fn most_similar_window(table: &[Vec<u32>]) -> (r: Option<(usize, usize)>)
    ensures
        r is None <==> forall|d: int, i: int|
            #[trigger] in_table(rows(table@), d, i)
                ==> rows(table@)[d][i] == 0,
        r matches Some(p) ==> best_cell(
            rows(table@),
            p.0 as int,
            p.1 as int,
        ),
{
    let ghost t = rows(table@);
    let mut best: u32 = 0;
    let mut bd: usize = 0;
    let mut bi: usize = 0;
    let mut d: usize = 0;
    while d < table.len()
        invariant
            0 <= d <= t.len() == table@.len(),
            t == rows(table@),
            forall|d2: int, i2: int| #[trigger] in_table(t, d2, i2) && d2 < d ==> t[d2][i2] <= best,
            best > 0 ==> in_table(t, bd as int, bi as int) && bd < d && t[bd as int][bi as int] == best
                && forall|d2: int, i2: int|
                #[trigger] in_table(t, d2, i2) && window_before(d2, i2, bd as int, bi as int)
                    ==> t[d2][i2] < best,
        decreases table@.len() - d,
    {
        let row = &table[d];
        assert(row@ == t[d as int]);
        let mut i: usize = 0;
        while i < row.len()
            invariant
                0 <= d < t.len() == table@.len(),
                t == rows(table@),
                row@ == t[d as int],
                0 <= i <= row@.len(),
                forall|d2: int, i2: int|
                    #[trigger] in_table(t, d2, i2) && window_before(d2, i2, d as int, i as int)
                        ==> t[d2][i2] <= best,
                best > 0 ==> in_table(t, bd as int, bi as int) && window_before(
                    bd as int,
                    bi as int,
                    d as int,
                    i as int,
                ) && t[bd as int][bi as int] == best && forall|d2: int, i2: int|
                    #[trigger] in_table(t, d2, i2) && window_before(d2, i2, bd as int, bi as int)
                        ==> t[d2][i2] < best,
            decreases row@.len() - i,
        {
            if row[i] > best {
                best = row[i];
                bd = d;
                bi = i;
            }
            i = i + 1;
        }
        d = d + 1;
    }
    if best == 0 {
        None
    } else {
        Some((bd, bi))
    }
}

/// Fuzzy tier: tries every window of about as many lines as the search
/// (from ⌊0.9 n⌋ to ⌈1.1 n⌉), shortest first and then by position, and
/// replaces the first one of the greatest similarity by the replacement
/// lines when that similarity is at least 0.85.
pub fn replace_closest_edit_distance(
    whole_lines: &[String],
    part: &str,
    part_lines: &[String],
    replace_lines: &[String],
) -> (res: Option<String>)
    ensures
        res.deep_view() == closest_result(
            whole_lines.deep_view(),
            part@,
            part_lines@.len() as int,
            replace_lines.deep_view(),
        ),
{
    let ghost w = whole_lines.deep_view();
    let ghost ps = part@;
    let plen = part_lines.len();
    if plen == 0 || plen > 100 {
        return None;
    }
    let ghost pl = plen as int;
    let wl = whole_lines.len();
    let min_len: usize = (9 * plen) / 10;
    let max_len: usize = (11 * plen + 9) / 10 + if plen == 50 || plen == 90 || plen == 100 {
        1
    } else {
        0
    };
    let mut table: Vec<Vec<u32>> = Vec::new();
    let mut length: usize = min_len;
    while length <= max_len
        invariant
            min_len == min_window(pl),
            max_len == max_window(pl),
            max_len <= 111,
            min_len <= length <= max_len + 1,
            wl == w.len(),
            w == whole_lines.deep_view(),
            ps == part@,
            pl == plen,
            table@.len() == length - min_len,
            forall|d: int|
                0 <= d < table@.len() ==> (#[trigger] table@[d])@.len() == if wl >= min_len + d {
                    wl - (min_len + d) + 1
                } else {
                    0
                },
            forall|d: int, i: int|
                0 <= d < table@.len() && 0 <= i < table@[d]@.len() ==> #[trigger] table@[d]@[i]
                    == window_ratio(w, ps, min_len + d, i),
        decreases max_len + 1 - length,
    {
        let mut row: Vec<u32> = Vec::new();
        if wl >= length {
            let upper = wl - length;
            let mut i: usize = 0;
            loop
                invariant_except_break
                    row@.len() == i,
                    0 <= i <= upper,
                invariant
                    length <= wl,
                    upper == wl - length,
                    wl == w.len(),
                    w == whole_lines.deep_view(),
                    ps == part@,
                    forall|j: int| 0 <= j < row@.len() ==> #[trigger] row@[j] == window_ratio(w, ps, length as int, j),
                ensures
                    row@.len() == upper + 1,
                decreases upper - i,
            {
                let ratio = ratio_of_window(whole_lines, part, i, length);
                row.push(ratio);
                if i == upper {
                    break;
                }
                i = i + 1;
            }
        }
        let ghost before = table@;
        table.push(row);
        assert(table@ == before.push(row));
        length = length + 1;
    }
    let ghost t = rows(table@);
    assert forall|l: int, i: int| window_ok(w, pl, l, i) <==> #[trigger] in_table(t, l - min_len, i) by {
        if 0 <= l - min_len < t.len() {
            assert(t[l - min_len] == table@[l - min_len]@);
        }
    }
    assert forall|d: int, i: int| #[trigger] in_table(t, d, i) implies t[d][i] == window_ratio(
        w,
        ps,
        min_len + d,
        i,
    ) by {
        assert(t[d] == table@[d]@);
    }
    match most_similar_window(table.as_slice()) {
        None => {
            proof {
                assert forall|len: int, i: int| window_ok(w, pl, len, i) implies #[trigger] window_ratio(
                    w,
                    ps,
                    len,
                    i,
                ) < similarity_threshold() by {
                    assert(in_table(t, len - min_len, i));
                }
            }
            None
        },
        Some((d, i)) => {
            let best = table[d][i];
            let best_len = min_len + d;
            proof {
                assert(t[d as int] == table@[d as int]@);
                assert(best == window_ratio(w, ps, best_len as int, i as int));
                assert(in_table(t, d as int, i as int));
                assert forall|l2: int, i2: int|
                    #![trigger window_ratio(w, ps, l2, i2)]
                    window_ok(w, pl, l2, i2) implies window_ratio(w, ps, l2, i2) <= best by {
                    assert(in_table(t, l2 - min_len, i2));
                }
                assert forall|l2: int, i2: int|
                    #![trigger window_ratio(w, ps, l2, i2)]
                    window_ok(w, pl, l2, i2) && window_before(l2, i2, best_len as int, i as int)
                        implies window_ratio(w, ps, l2, i2) < best by {
                    assert(in_table(t, l2 - min_len, i2));
                    assert(window_before(l2 - min_len, i2, d as int, i as int));
                }
                assert(is_best_window(w, ps, pl, best_len as int, i as int));
            }
            if best < 0x3F59_999A {
                return None;
            }
            proof {
                assert(some_window_similar(w, ps, pl));
                let (cl, ci) = choose|len: int, i: int| is_best_window(w, ps, pl, len, i);
                lemma_best_window_unique(w, ps, pl, cl, ci, best_len as int, i as int);
            }
            Some(splice_join(whole_lines, i, best_len, replace_lines))
        },
    }
}

/// Index of the first of the most similar windows of `k` lines.
pub open spec fn is_best_start(w: Seq<Seq<char>>, part: Seq<char>, k: int, i: int) -> bool {
    &&& 0 <= i <= w.len() - k
    &&& forall|j: int|
        #![trigger window_ratio(w, part, k, j)]
        0 <= j <= w.len() - k ==> window_ratio(w, part, k, j) <= window_ratio(w, part, k, i)
    &&& forall|j: int|
        #![trigger window_ratio(w, part, k, j)]
        0 <= j < i ==> window_ratio(w, part, k, j) < window_ratio(w, part, k, i)
}

/// The text shown around the closest place when a block does not match: the
/// first 500 characters when either text has no lines; otherwise up to five
/// lines around the middle of the most similar window of (at most) as many
/// lines as the search text.
pub open spec fn context_result(whole: Seq<char>, part: Seq<char>) -> Seq<char> {
    let w = lines_of(prepped(whole));
    let p = lines_of(prepped(part));
    if w.len() == 0 || p.len() == 0 {
        whole.take(if whole.len() < 500 {
            whole.len() as int
        } else {
            500
        })
    } else {
        let k = if p.len() < w.len() {
            p.len() as int
        } else {
            w.len() as int
        };
        let best = choose|i: int| is_best_start(w, p.flatten(), k, i);
        let center = best + k / 2;
        let start = if center >= 2 {
            center - 2
        } else {
            0
        };
        let end = if center + 3 < w.len() {
            center + 3
        } else {
            w.len() as int
        };
        w.subrange(start, end).flatten()
    }
}

/// At most one window start is the best one.
proof fn lemma_best_start_unique(w: Seq<Seq<char>>, part: Seq<char>, k: int, i1: int, i2: int)
    requires
        is_best_start(w, part, k, i1),
        is_best_start(w, part, k, i2),
    ensures
        i1 == i2,
{
    if i1 < i2 {
        assert(window_ratio(w, part, k, i1) < window_ratio(w, part, k, i2));
        assert(window_ratio(w, part, k, i2) <= window_ratio(w, part, k, i1));
    }
    if i2 < i1 {
        assert(window_ratio(w, part, k, i2) < window_ratio(w, part, k, i1));
        assert(window_ratio(w, part, k, i1) <= window_ratio(w, part, k, i2));
    }
}

/// `i` is the first position of the greatest ratio.
pub open spec fn first_greatest(rs: Seq<u32>, i: int) -> bool {
    &&& 0 <= i < rs.len()
    &&& forall|j: int| 0 <= j < rs.len() ==> #[trigger] rs[j] <= rs[i]
    &&& forall|j: int| 0 <= j < i ==> #[trigger] rs[j] < rs[i]
}

/// The first position of the greatest of the ratios: the window start that
/// the context search picks from the ratios it measured.
pub fn most_similar_start(ratios: &[u32]) -> (r: usize)
    requires
        ratios@.len() > 0,
    ensures
        first_greatest(ratios@, r as int),
{
    let mut best_start: usize = 0;
    let mut i: usize = 1;
    while i < ratios.len()
        invariant
            1 <= i <= ratios@.len(),
            0 <= best_start < i,
            forall|j: int| 0 <= j < i ==> #[trigger] ratios@[j] <= ratios@[best_start as int],
            forall|j: int| 0 <= j < best_start ==> #[trigger] ratios@[j] < ratios@[best_start as int],
        decreases ratios@.len() - i,
    {
        if ratios[i] > ratios[best_start] {
            best_start = i;
        }
        i = i + 1;
    }
    best_start
}

/// The context shown when a block fails to match: a few lines of the text
/// around the window most similar to the search text.
pub fn find_closest_match_context(whole: &str, part: &str) -> (s: String)
    ensures
        s@ == context_result(whole@, part@),
{
    let (_, whole_lines) = prep(whole);
    let (_, part_lines) = prep(part);
    let ghost w = whole_lines.deep_view();
    let ghost p = part_lines.deep_view();
    if whole_lines.len() == 0 || part_lines.len() == 0 {
        let v = chars_of(whole);
        let n = if v.len() < 500 {
            v.len()
        } else {
            500
        };
        return string_of_range(v.as_slice(), 0, n);
    }
    let part_str = concat_range(part_lines.as_slice(), 0, part_lines.len());
    assert(p.subrange(0, p.len() as int) =~= p);
    let ghost ps = part_str@;
    let wl = whole_lines.len();
    let part_len = if part_lines.len() < wl {
        part_lines.len()
    } else {
        wl
    };
    let ghost k = part_len as int;
    let mut ratios: Vec<u32> = Vec::new();
    let mut i: usize = 0;
    while i <= wl - part_len
        invariant
            1 <= part_len <= wl,
            wl == w.len(),
            w == whole_lines.deep_view(),
            ps == part_str@,
            k == part_len,
            0 <= i <= wl - part_len + 1,
            ratios@.len() == i,
            forall|j: int| 0 <= j < i ==> #[trigger] ratios@[j] == window_ratio(w, ps, k, j),
        decreases wl - part_len + 1 - i,
    {
        let ratio = ratio_of_window(whole_lines.as_slice(), part_str.as_str(), i, part_len);
        ratios.push(ratio);
        i = i + 1;
    }
    let best_start = most_similar_start(ratios.as_slice());
    proof {
        assert forall|j: int|
            #![trigger window_ratio(w, ps, k, j)]
            0 <= j <= w.len() - k implies window_ratio(w, ps, k, j) <= window_ratio(
                w,
                ps,
                k,
                best_start as int,
            ) by {
            assert(ratios@[j] <= ratios@[best_start as int]);
        }
        assert forall|j: int|
            #![trigger window_ratio(w, ps, k, j)]
            0 <= j < best_start implies window_ratio(w, ps, k, j) < window_ratio(
                w,
                ps,
                k,
                best_start as int,
            ) by {
            assert(ratios@[j] < ratios@[best_start as int]);
        }
        assert(is_best_start(w, ps, k, best_start as int));
        let c = choose|i: int| is_best_start(w, ps, k, i);
        lemma_best_start_unique(w, ps, k, c, best_start as int);
    }
    let block_center = best_start + part_len / 2;
    let window_start = if block_center >= 2 {
        block_center - 2
    } else {
        0
    };
    let window_end = if wl >= 3 && block_center < wl - 3 {
        block_center + 3
    } else {
        wl
    };
    concat_range(whole_lines.as_slice(), window_start, window_end)
}

/// Windows of every length from `min_window(n)` to `max_window(n)` lines,
/// both bounds included, are compared: a window whose ratio reaches the
/// threshold and is above that of every other such window is the one
/// replaced, all other lines kept.
pub proof fn law_fuzzy_takes_strict_best(
    w: Seq<Seq<char>>,
    part: Seq<char>,
    plen: int,
    r: Seq<Seq<char>>,
    len: int,
    i: int,
)
    requires
        0 < plen <= max_fuzzy_lines(),
        min_window(plen) <= len <= max_window(plen),
        0 <= i,
        i + len <= w.len(),
        window_ratio(w, part, len, i) >= similarity_threshold(),
        forall|l2: int, i2: int|
            #![trigger window_ratio(w, part, l2, i2)]
            min_window(plen) <= l2 <= max_window(plen) && 0 <= i2 && i2 + l2 <= w.len() && (l2
                != len || i2 != i) ==> window_ratio(w, part, l2, i2) < window_ratio(w, part, len, i),
    ensures
        closest_result(w, part, plen, r) == Some((w.take(i) + r + w.skip(i + len)).flatten()),
{
    assert(window_ok(w, plen, len, i));
    assert(is_best_window(w, part, plen, len, i));
    assert(some_window_similar(w, part, plen));
    let (cl, ci) = choose|l: int, k: int| is_best_window(w, part, plen, l, k);
    lemma_best_window_unique(w, part, plen, cl, ci, len, i);
}

/// The number of lines of the windows the context search compares: as many
/// as the search has, but no more than the text has.
pub open spec fn context_span(w: Seq<Seq<char>>, p: Seq<Seq<char>>) -> int {
    if p.len() < w.len() {
        p.len() as int
    } else {
        w.len() as int
    }
}

/// Every start of a window of the search's length (at most the text's) is
/// compared, the last one included: when the window at `j` is strictly more
/// similar than every other, the context is the lines from two before to two
/// after the middle of that window (as far as the text goes).
pub proof fn law_context_takes_strict_best(whole: Seq<char>, part: Seq<char>, j: int)
    requires
        lines_of(prepped(whole)).len() > 0,
        lines_of(prepped(part)).len() > 0,
        0 <= j <= lines_of(prepped(whole)).len() - context_span(
            lines_of(prepped(whole)),
            lines_of(prepped(part)),
        ),
        forall|i: int|
            #![trigger window_ratio(
                lines_of(prepped(whole)),
                lines_of(prepped(part)).flatten(),
                context_span(lines_of(prepped(whole)), lines_of(prepped(part))),
                i,
            )]
            0 <= i <= lines_of(prepped(whole)).len() - context_span(
                lines_of(prepped(whole)),
                lines_of(prepped(part)),
            ) && i != j ==> window_ratio(
                lines_of(prepped(whole)),
                lines_of(prepped(part)).flatten(),
                context_span(lines_of(prepped(whole)), lines_of(prepped(part))),
                i,
            ) < window_ratio(
                lines_of(prepped(whole)),
                lines_of(prepped(part)).flatten(),
                context_span(lines_of(prepped(whole)), lines_of(prepped(part))),
                j,
            ),
    ensures
        context_result(whole, part) == lines_of(prepped(whole)).subrange(
            if j + context_span(lines_of(prepped(whole)), lines_of(prepped(part))) / 2 >= 2 {
                j + context_span(lines_of(prepped(whole)), lines_of(prepped(part))) / 2 - 2
            } else {
                0
            },
            if j + context_span(lines_of(prepped(whole)), lines_of(prepped(part))) / 2 + 3
                < lines_of(prepped(whole)).len() {
                j + context_span(lines_of(prepped(whole)), lines_of(prepped(part))) / 2 + 3
            } else {
                lines_of(prepped(whole)).len() as int
            },
        ).flatten(),
{
    let w = lines_of(prepped(whole));
    let p = lines_of(prepped(part));
    let k = context_span(w, p);
    let ps = p.flatten();
    assert forall|i: int|
        #![trigger window_ratio(w, ps, k, i)]
        0 <= i <= w.len() - k implies window_ratio(w, ps, k, i) <= window_ratio(w, ps, k, j) by {
        if i != j {
            assert(window_ratio(w, ps, k, i) < window_ratio(w, ps, k, j));
        }
    }
    assert(is_best_start(w, ps, k, j));
    let c = choose|i: int| is_best_start(w, ps, k, i);
    lemma_best_start_unique(w, ps, k, c, j);
}

} // verus!

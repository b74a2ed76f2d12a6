//! The indentation-adjusted tier: search lines that match the text once
//! their common indentation is taken off and the text's own indentation is
//! put on.
use vstd::prelude::*;
use vstd::slice::slice_subrange;
use crate::text::{
    is_blank, leading_ws, trim_start, byte_len, char_width, chars_of, leading_ws_len,
    chars_eq, subvec, string_of, string_of_range, utf8_len, str_byte_len, lemma_byte_len_prefix,
    lemma_byte_len_front,
};
use crate::lines::{first_where, lemma_first_where, splice_lines, splice_join};

verus! {

broadcast use vstd::seq_lib::group_seq_properties;

/// The lines agree line by line once leading whitespace is dropped.
pub open spec fn same_but_indent(w: Seq<Seq<char>>, p: Seq<Seq<char>>) -> bool {
    w.len() == p.len() && forall|i: int|
        0 <= i < w.len() ==> trim_start(#[trigger] w[i]) == trim_start(p[i])
}

/// The first line that is not blank.
pub open spec fn first_nonblank(w: Seq<Seq<char>>) -> Option<int> {
    first_where(0, w.len() as int, |i: int| !is_blank(w[i]))
}

/// Every non-blank line has the same leading whitespace as line `k`.
pub open spec fn common_indent(w: Seq<Seq<char>>, k: int) -> bool {
    forall|i: int|
        0 <= i < w.len() && !is_blank(#[trigger] w[i]) ==> leading_ws(w[i]) == leading_ws(w[k])
}

/// The indentation that turns `p` into `w`: the one leading whitespace that
/// all non-blank lines of `w` share, when the lines agree but for leading
/// whitespace and at least one line is not blank.
pub open spec fn match_but_result(w: Seq<Seq<char>>, p: Seq<Seq<char>>) -> Option<Seq<char>> {
    if !same_but_indent(w, p) {
        None
    } else {
        match first_nonblank(w) {
            None => None,
            Some(k) => if common_indent(w, k) {
                Some(leading_ws(w[k]))
            } else {
                None
            },
        }
    }
}

/// Number of leading characters of `s` whose UTF-8 encoding takes exactly
/// `n` bytes, when a character boundary falls there.
pub open spec fn chars_in_bytes(s: Seq<char>, n: int) -> Option<int>
    decreases s.len(),
{
    if n == 0 {
        Some(0)
    } else if n < 0 || s.len() == 0 {
        None
    } else {
        match chars_in_bytes(s.drop_first(), n - char_width(s[0])) {
            Some(k) => Some(k + 1),
            None => None,
        }
    }
}

/// What `chars_in_bytes` gives: a count of characters whose prefix takes
/// exactly the bytes asked for.
pub proof fn lemma_chars_in_bytes(s: Seq<char>, n: int)
    ensures
        chars_in_bytes(s, n) matches Some(k) ==> 0 <= k <= s.len() && byte_len(s.take(k)) == n,
    decreases s.len(),
{
    if n != 0 && n >= 0 && s.len() > 0 {
        let t = s.drop_first();
        lemma_chars_in_bytes(t, n - char_width(s[0]));
        if let Some(k) = chars_in_bytes(t, n - char_width(s[0])) {
            assert(s.take(k + 1) =~= seq![s[0]] + t.take(k));
            crate::text::lemma_byte_len_front(s.take(k + 1));
            assert(s.take(k + 1).drop_first() =~= t.take(k));
        }
    } else if n == 0 {
        assert(s.take(0) =~= Seq::<char>::empty());
    }
}

/// The number of leading characters of `s` that take exactly `n` bytes, when
/// a character boundary falls there.
pub fn char_count_for_bytes(s: &[char], n: usize) -> (r: Option<usize>)
    ensures
        crate::text::opt_int(r) == chars_in_bytes(s@, n as int),
{
    let mut k: usize = 0;
    let mut used: usize = 0;
    while used < n
        invariant
            used <= n,
            k <= s@.len(),
            chars_in_bytes(s@, n as int) == match chars_in_bytes(s@.skip(k as int), n - used) {
                Some(j) => Some(j + k),
                None => None,
            },
        decreases n - used,
    {
        let ghost t = s@.skip(k as int);
        if k == s.len() {
            assert(t.len() == 0);
            return None;
        }
        assert(t.drop_first() =~= s@.skip(k + 1));
        let w = crate::text::utf8_width(s[k]);
        if w > n - used {
            assert(chars_in_bytes(t.drop_first(), n - used - char_width(t[0])) is None);
            return None;
        }
        used = used + w;
        k = k + 1;
    }
    Some(k)
}

/// Bytes of leading whitespace (`s.len() - s.trim_start().len()`).
pub open spec fn lead_bytes(s: Seq<char>) -> nat {
    byte_len(leading_ws(s))
}

/// The least number of leading-whitespace bytes over the non-blank lines.
pub open spec fn min_lead_bytes(lines: Seq<Seq<char>>) -> Option<nat>
    decreases lines.len(),
{
    if lines.len() == 0 {
        None
    } else {
        let rest = min_lead_bytes(lines.drop_last());
        let l = lines.last();
        if is_blank(l) {
            rest
        } else {
            match rest {
                None => Some(lead_bytes(l)),
                Some(m) => Some(
                    if lead_bytes(l) < m {
                        lead_bytes(l)
                    } else {
                        m
                    },
                ),
            }
        }
    }
}

/// The indentation, in bytes, shared by the non-blank lines of search and
/// replacement (zero when all are blank).
pub open spec fn shared_indent(p: Seq<Seq<char>>, r: Seq<Seq<char>>) -> nat {
    match min_lead_bytes(p + r) {
        Some(m) => m,
        None => 0,
    }
}

/// Cutting `m` bytes off the front of `l` (when `l` is not blank) falls on
/// a character boundary.
pub open spec fn cut_ok(l: Seq<char>, m: nat) -> bool {
    is_blank(l) || chars_in_bytes(l, m as int) is Some
}

/// `l` with its first `m` bytes removed, unless it is blank.
pub open spec fn dedent_line(l: Seq<char>, m: nat) -> Seq<char> {
    if is_blank(l) {
        l
    } else {
        l.skip(chars_in_bytes(l, m as int)->0)
    }
}

/// Each line with its first `m` bytes removed, unless it is blank.
pub open spec fn dedent(lines: Seq<Seq<char>>, m: nat) -> Seq<Seq<char>> {
    lines.map_values(|l: Seq<char>| dedent_line(l, m))
}

/// `add` put in front of every non-blank line.
pub open spec fn reindent(lines: Seq<Seq<char>>, add: Seq<char>) -> Seq<Seq<char>> {
    lines.map_values(
        |l: Seq<char>|
            if is_blank(l) {
                l
            } else {
                add + l
            },
    )
}

/// The shared indentation can be cut off every non-blank line of search and
/// replacement without splitting a character (otherwise the cut panics).
pub open spec fn indent_cuts_ok(p: Seq<Seq<char>>, r: Seq<Seq<char>>) -> bool {
    &&& forall|i: int| 0 <= i < p.len() ==> cut_ok(#[trigger] p[i], shared_indent(p, r))
    &&& forall|i: int| 0 <= i < r.len() ==> cut_ok(#[trigger] r[i], shared_indent(p, r))
}

/// The window of `w` starting at `i` matches `ap` but for indentation.
pub open spec fn window_matches(w: Seq<Seq<char>>, ap: Seq<Seq<char>>, i: int) -> bool {
    match_but_result(w.subrange(i, i + ap.len()), ap) is Some
}

/// The first window of `w` that agrees with `ap` but for one common
/// indentation, replaced by `ar` with that indentation put on its non-blank
/// lines.
pub open spec fn reindent_result(w: Seq<Seq<char>>, ap: Seq<Seq<char>>, ar: Seq<Seq<char>>) -> Option<
    Seq<char>,
> {
    let n = ap.len() as int;
    match first_where(0, w.len() - n + 1, |i: int| window_matches(w, ap, i)) {
        None => None,
        Some(i) => Some(
            splice_lines(w, i, n, reindent(ar, match_but_result(w.subrange(i, i + n), ap)->0)).flatten(),
        ),
    }
}

/// What the indentation-adjusted tier gives: the search and replacement lines
/// lose their shared indentation; the first window of the text that agrees
/// with the search lines but for one common indentation is replaced by the
/// replacement lines with that indentation put back on their non-blank lines.
pub open spec fn missing_ws_result(w: Seq<Seq<char>>, p: Seq<Seq<char>>, r: Seq<Seq<char>>) -> Option<
    Seq<char>,
> {
    if p.len() == 0 {
        None
    } else {
        let m = shared_indent(p, r);
        reindent_result(w, dedent(p, m), dedent(r, m))
    }
}

/// Whether a line is blank.
pub fn line_is_blank(s: &String) -> (r: bool)
    ensures
        r == is_blank(s@),
{
    let v = chars_of(s.as_str());
    leading_ws_len(v.as_slice()) == v.len()
}

/// Leading whitespace of the lines `whole` when they agree with `part` but for
/// leading whitespace and all non-blank lines of `whole` share it.
pub fn match_but_for_leading_whitespace(whole: &[String], part: &[String]) -> (res: Option<String>)
    ensures
        res.deep_view() == match_but_result(whole.deep_view(), part.deep_view()),
{
    let ghost w = whole.deep_view();
    let ghost p = part.deep_view();
    let num = whole.len();
    if num != part.len() {
        return None;
    }
    let mut i: usize = 0;
    while i < num
        invariant
            0 <= i <= num,
            num == w.len() == p.len(),
            w == whole.deep_view(),
            p == part.deep_view(),
            forall|k: int| 0 <= k < i ==> trim_start(#[trigger] w[k]) == trim_start(p[k]),
        decreases num - i,
    {
        let a = chars_of(whole[i].as_str());
        let b = chars_of(part[i].as_str());
        let la = leading_ws_len(a.as_slice());
        let lb = leading_ws_len(b.as_slice());
        proof {
            crate::text::lemma_ws_run(a@, 0);
            crate::text::lemma_ws_run(b@, 0);
        }
        let ta = subvec(a.as_slice(), la, a.len());
        let tb = subvec(b.as_slice(), lb, b.len());
        if !chars_eq(ta.as_slice(), tb.as_slice()) {
            assert(trim_start(w[i as int]) =~= ta@);
            assert(trim_start(p[i as int]) =~= tb@);
            return None;
        }
        assert(trim_start(w[i as int]) =~= ta@);
        assert(trim_start(p[i as int]) =~= tb@);
        i = i + 1;
    }
    assert(same_but_indent(w, p));
    let ghost f = |k: int| !is_blank(w[k]);
    let mut first: Option<Vec<char>> = None;
    let ghost mut k0: int = 0;
    let mut i: usize = 0;
    while i < num
        invariant
            0 <= i <= num,
            num == w.len() == p.len(),
            w == whole.deep_view(),
            f == (|k: int| !is_blank(w[k])),
            first is None ==> first_where(0, num as int, f) == first_where(i as int, num as int, f),
            first is Some ==> first_where(0, num as int, f) == Some(k0),
            first is Some ==> 0 <= k0 < i,
            first is Some ==> first->0@ == leading_ws(w[k0]),
            first is Some ==> forall|k: int|
                0 <= k < i && !is_blank(#[trigger] w[k]) ==> leading_ws(w[k]) == leading_ws(w[k0]),
        decreases num - i,
    {
        let a = chars_of(whole[i].as_str());
        let la = leading_ws_len(a.as_slice());
        proof {
            crate::text::lemma_ws_run(a@, 0);
        }
        assert(a@ == w[i as int]);
        if la != a.len() {
            assert(f(i as int));
            let lead = subvec(a.as_slice(), 0, la);
            assert(lead@ =~= leading_ws(w[i as int]));
            match &first {
                None => {
                    first = Some(lead);
                    proof {
                        k0 = i as int;
                        assert(first_where(i as int, num as int, f) == Some(i as int));
                        lemma_first_where(0, num as int, f);
                        assert forall|k: int|
                            0 <= k < i + 1 && !is_blank(#[trigger] w[k]) implies leading_ws(w[k])
                            == leading_ws(w[i as int]) by {
                            if k < i {
                                assert(!f(k));
                            }
                        }
                    }
                },
                Some(fv) => {
                    if !chars_eq(fv.as_slice(), lead.as_slice()) {
                        proof {
                            lemma_first_where(0, num as int, f);
                        }
                        return None;
                    }
                    assert(fv@ == leading_ws(w[k0]));
                },
            }
        }
        i = i + 1;
    }
    proof {
        lemma_first_where(0, num as int, f);
    }
    match first {
        None => None,
        Some(fv) => Some(string_of(fv.as_slice())),
    }
}

/// An optional size as a natural number.
pub open spec fn opt_nat(o: Option<usize>) -> Option<nat> {
    match o {
        Some(m) => Some(m as nat),
        None => None,
    }
}

/// Bytes of leading whitespace of a line.
fn line_lead_bytes(v: &[char]) -> (r: usize)
    requires
        byte_len(v@) <= usize::MAX,
    ensures
        r == lead_bytes(v@),
{
    let la = leading_ws_len(v);
    proof {
        crate::text::lemma_ws_run(v@, 0);
        lemma_byte_len_prefix(v@, la as int);
    }
    let lead = subvec(v, 0, la);
    assert(lead@ =~= leading_ws(v@));
    utf8_len(lead.as_slice())
}

/// Folds the lines `lines[..]` into the running minimum of leading-whitespace
/// bytes, where `all` is the sequence whose prefix `lines` ends.
fn fold_min_lead(
    lines: &[String],
    acc: Option<usize>,
    Ghost(all): Ghost<Seq<Seq<char>>>,
    Ghost(start): Ghost<int>,
) -> (r: Option<usize>)
    requires
        0 <= start,
        start + lines@.len() <= all.len(),
        all.subrange(start, start + lines@.len()) == lines.deep_view(),
        opt_nat(acc) == min_lead_bytes(all.take(start)),
    ensures
        opt_nat(r) == min_lead_bytes(all.take(start + lines@.len())),
{
    let mut acc = acc;
    let mut i: usize = 0;
    while i < lines.len()
        invariant
            0 <= i <= lines@.len(),
            0 <= start,
            start + lines@.len() <= all.len(),
            all.subrange(start, start + lines@.len()) == lines.deep_view(),
            opt_nat(acc) == min_lead_bytes(all.take(start + i)),
        decreases lines@.len() - i,
    {
        let v = chars_of(lines[i].as_str());
        let total = str_byte_len(lines[i].as_str());
        proof {
            assert(all.take(start + i + 1).drop_last() =~= all.take(start + i));
            assert(all.take(start + i + 1).last() == lines.deep_view()[i as int]);
        }
        if leading_ws_len(v.as_slice()) != v.len() {
            let lb = line_lead_bytes(v.as_slice());
            acc = match acc {
                None => Some(lb),
                Some(m) => Some(
                    if lb < m {
                        lb
                    } else {
                        m
                    },
                ),
            };
        }
        i = i + 1;
    }
    acc
}

/// The dedented copy of a line.
fn dedent_one(line: &String, m: usize) -> (r: String)
    requires
        cut_ok(line@, m as nat),
    ensures
        r@ == dedent_line(line@, m as nat),
{
    let v = chars_of(line.as_str());
    if leading_ws_len(v.as_slice()) == v.len() {
        line.clone()
    } else {
        match char_count_for_bytes(v.as_slice(), m) {
            Some(k) => {
                proof {
                    lemma_chars_in_bytes(v@, m as int);
                }
                string_of_range(v.as_slice(), k, v.len())
            },
            None => {
                assert(false);
                line.clone()
            },
        }
    }
}

/// Dedented copies of all lines.
fn dedent_all(lines: &[String], m: usize) -> (r: Vec<String>)
    requires
        forall|i: int| 0 <= i < lines@.len() ==> cut_ok(#[trigger] lines.deep_view()[i], m as nat),
    ensures
        r.deep_view() == dedent(lines.deep_view(), m as nat),
{
    let mut r: Vec<String> = Vec::new();
    let mut i: usize = 0;
    while i < lines.len()
        invariant
            0 <= i <= lines@.len(),
            forall|j: int|
                0 <= j < lines@.len() ==> cut_ok(#[trigger] lines.deep_view()[j], m as nat),
            r.deep_view() == dedent(lines.deep_view(), m as nat).take(i as int),
        decreases lines@.len() - i,
    {
        let ghost before = r.deep_view();
        assert(cut_ok(lines.deep_view()[i as int], m as nat));
        let line = dedent_one(&lines[i], m);
        r.push(line);
        assert(r.deep_view() =~= before.push(line@));
        i = i + 1;
        assert(dedent(lines.deep_view(), m as nat).take(i as int) =~= dedent(
            lines.deep_view(),
            m as nat,
        ).take(i - 1).push(line@));
    }
    assert(dedent(lines.deep_view(), m as nat).take(i as int) =~= dedent(
        lines.deep_view(),
        m as nat,
    ));
    r
}

/// The replacement lines with `add` in front of the non-blank ones.
fn reindent_all(lines: &[String], add: &String) -> (r: Vec<String>)
    ensures
        r.deep_view() == reindent(lines.deep_view(), add@),
{
    let mut r: Vec<String> = Vec::new();
    let mut i: usize = 0;
    while i < lines.len()
        invariant
            0 <= i <= lines@.len(),
            r.deep_view() == reindent(lines.deep_view(), add@).take(i as int),
        decreases lines@.len() - i,
    {
        let ghost before = r.deep_view();
        let line = if line_is_blank(&lines[i]) {
            lines[i].clone()
        } else {
            let mut l = add.clone();
            l.append(lines[i].as_str());
            l
        };
        r.push(line);
        assert(r.deep_view() =~= before.push(line@));
        i = i + 1;
        assert(reindent(lines.deep_view(), add@).take(i as int) =~= reindent(
            lines.deep_view(),
            add@,
        ).take(i - 1).push(line@));
    }
    assert(reindent(lines.deep_view(), add@).take(i as int) =~= reindent(lines.deep_view(), add@));
    r
}

/// The indentation, in bytes, shared by the non-blank search and replacement
/// lines.
fn shared_indent_of(part_lines: &[String], replace_lines: &[String]) -> (m: usize)
    ensures
        m as nat == shared_indent(part_lines.deep_view(), replace_lines.deep_view()),
{
    let ghost p = part_lines.deep_view();
    let ghost rl = replace_lines.deep_view();
    let ghost all = p + rl;
    assert(all.subrange(0, p.len() as int) =~= p);
    assert(all.subrange(p.len() as int, (p.len() + rl.len()) as int) =~= rl);
    assert(all.take(0) =~= Seq::<Seq<char>>::empty());
    let acc = fold_min_lead(part_lines, None, Ghost(all), Ghost(0));
    let acc = fold_min_lead(replace_lines, acc, Ghost(all), Ghost(p.len() as int));
    assert(all.take((p.len() + rl.len()) as int) =~= all);
    match acc {
        Some(m) => m,
        None => 0,
    }
}

/// Whether the shared indentation of search and replacement lines can be
/// cut off all their non-blank lines on character boundaries.
pub fn indent_cuts_aligned(part_lines: &[String], replace_lines: &[String]) -> (r: bool)
    ensures
        r == indent_cuts_ok(part_lines.deep_view(), replace_lines.deep_view()),
{
    let ghost p = part_lines.deep_view();
    let ghost rl = replace_lines.deep_view();
    let m = shared_indent_of(part_lines, replace_lines);
    let ok1 = all_cuts_ok(part_lines, m);
    let ok2 = all_cuts_ok(replace_lines, m);
    ok1 && ok2
}

/// Whether every line can lose `m` bytes on a character boundary.
fn all_cuts_ok(lines: &[String], m: usize) -> (r: bool)
    ensures
        r == forall|i: int| 0 <= i < lines@.len() ==> cut_ok(#[trigger] lines.deep_view()[i], m as nat),
{
    let mut i: usize = 0;
    while i < lines.len()
        invariant
            0 <= i <= lines@.len(),
            forall|j: int| 0 <= j < i ==> cut_ok(#[trigger] lines.deep_view()[j], m as nat),
        decreases lines@.len() - i,
    {
        let v = chars_of(lines[i].as_str());
        if leading_ws_len(v.as_slice()) != v.len() {
            if char_count_for_bytes(v.as_slice(), m).is_none() {
                assert(!cut_ok(lines.deep_view()[i as int], m as nat));
                return false;
            }
        }
        i = i + 1;
    }
    true
}

/// Indentation-adjusted tier: takes the shared indentation off search and
/// replacement lines, finds the first window of the text that agrees with the
/// search lines but for one common indentation, and puts that indentation on
/// the non-blank replacement lines in place of the window.
pub fn replace_part_with_missing_leading_whitespace(
    whole_lines: &[String],
    part_lines: &[String],
    replace_lines: &[String],
) -> (res: Option<String>)
    requires
        part_lines@.len() > 0 ==> indent_cuts_ok(part_lines.deep_view(), replace_lines.deep_view()),
    ensures
        res.deep_view() == missing_ws_result(
            whole_lines.deep_view(),
            part_lines.deep_view(),
            replace_lines.deep_view(),
        ),
{
    let ghost w = whole_lines.deep_view();
    let ghost p = part_lines.deep_view();
    let ghost rl = replace_lines.deep_view();
    if part_lines.len() == 0 {
        return None;
    }
    let min_leading = shared_indent_of(part_lines, replace_lines);
    let ghost m = shared_indent(p, rl);
    assert(min_leading as nat == m);
    assert forall|i: int| 0 <= i < p.len() implies cut_ok(#[trigger] part_lines.deep_view()[i], min_leading as nat) by {
        assert(cut_ok(p[i], m));
    }
    assert forall|i: int| 0 <= i < rl.len() implies cut_ok(#[trigger] replace_lines.deep_view()[i], min_leading as nat) by {
        assert(cut_ok(rl[i], m));
    }
    let adjusted_part_lines = dedent_all(part_lines, min_leading);
    let adjusted_replace_lines = dedent_all(replace_lines, min_leading);
    reindent_windows(whole_lines, adjusted_part_lines.as_slice(), adjusted_replace_lines.as_slice())
}

/// Replaces the first window of `whole_lines` that agrees with `ap` but for
/// one common indentation by `ar` re-indented with it.
fn reindent_windows(whole_lines: &[String], ap_lines: &[String], ar_lines: &[String]) -> (res: Option<
    String,
>)
    requires
        ap_lines@.len() > 0,
    ensures
        res.deep_view() == reindent_result(
            whole_lines.deep_view(),
            ap_lines.deep_view(),
            ar_lines.deep_view(),
        ),
{
    let ghost w = whole_lines.deep_view();
    let ghost ap = ap_lines.deep_view();
    let ghost ar = ar_lines.deep_view();
    let ghost f = |i: int| window_matches(w, ap, i);
    let num_part_lines = ap_lines.len();
    let wl = whole_lines.len();
    if wl < num_part_lines {
        proof {
            lemma_first_where(0, w.len() - ap.len() + 1, f);
        }
        return None;
    }
    let last = wl - num_part_lines;
    let mut i: usize = 0;
    while i <= last
        invariant
            0 <= i <= last + 1,
            last == w.len() - ap.len(),
            w.len() == wl,
            ap.len() == num_part_lines > 0,
            w == whole_lines.deep_view(),
            ap == ap_lines.deep_view(),
            ar == ar_lines.deep_view(),
            f == (|i: int| window_matches(w, ap, i)),
            first_where(0, w.len() - ap.len() + 1, f) == first_where(
                i as int,
                w.len() - ap.len() + 1,
                f,
            ),
        decreases last + 1 - i,
    {
        let window = slice_subrange(whole_lines, i, i + num_part_lines);
        assert(window.deep_view() =~= w.subrange(i as int, i + ap.len()));
        match match_but_for_leading_whitespace(window, ap_lines) {
            Some(add_leading) => {
                let adjusted_replace = reindent_all(ar_lines, &add_leading);
                let res = splice_join(whole_lines, i, num_part_lines, adjusted_replace.as_slice());
                return Some(res);
            },
            None => {},
        }
        i = i + 1;
    }
    None
}

/// The indentation found puts the text's lines back together: each
/// non-blank line of the text is that indentation followed by the search
/// line without its leading whitespace.
pub proof fn law_indent_restores_lines(w: Seq<Seq<char>>, p: Seq<Seq<char>>)
    requires
        match_but_result(w, p) is Some,
    ensures
        forall|i: int|
            0 <= i < w.len() && !is_blank(#[trigger] w[i]) ==> w[i] == match_but_result(w, p)->0
                + trim_start(p[i]),
{
    let k = first_nonblank(w)->0;
    lemma_first_where(0, w.len() as int, |i: int| !is_blank(w[i]));
    assert forall|i: int| 0 <= i < w.len() && !is_blank(#[trigger] w[i]) implies w[i]
        == match_but_result(w, p)->0 + trim_start(p[i]) by {
        crate::text::lemma_ws_run(w[i], 0);
        assert(w[i] =~= leading_ws(w[i]) + trim_start(w[i]));
    }
}

/// `k` spaces.
pub open spec fn spaces(k: nat) -> Seq<char> {
    Seq::new(k, |i: int| ' ')
}

/// Spaces in front of a line lengthen its leading whitespace run by as many
/// characters.
proof fn lemma_ws_run_spaces(k: nat, l: Seq<char>, i: int)
    requires
        0 <= i <= k + l.len(),
    ensures
        crate::text::ws_run(spaces(k) + l, i) == if i <= k {
            k + crate::text::ws_run(l, 0)
        } else {
            k + crate::text::ws_run(l, i - k)
        },
    decreases k + l.len() - i,
{
    let s = spaces(k) + l;
    if i < k {
        assert(s[i] == ' ');
        assert(crate::text::is_ws(' '));
        lemma_ws_run_spaces(k, l, i + 1);
    } else if i < k + l.len() {
        assert(s[i] == l[i - k]);
        if crate::text::is_ws(l[i - k]) {
            lemma_ws_run_spaces(k, l, i + 1);
        }
    }
}

/// `k` spaces take `k` bytes.
proof fn lemma_byte_len_spaces(k: nat)
    ensures
        byte_len(spaces(k)) == k,
    decreases k,
{
    if k > 0 {
        assert(spaces(k).drop_last() =~= spaces((k - 1) as nat));
        lemma_byte_len_spaces((k - 1) as nat);
    }
}

/// A line with spaces in front: blank exactly when the line is, with `k`
/// more bytes of leading whitespace.
proof fn lemma_spaced_line(k: nat, l: Seq<char>)
    ensures
        is_blank(spaces(k) + l) == is_blank(l),
        lead_bytes(spaces(k) + l) == k + lead_bytes(l),
{
    lemma_ws_run_spaces(k, l, 0);
    crate::text::lemma_ws_run(l, 0);
    let n = crate::text::lead_len(l);
    assert(leading_ws(spaces(k) + l) =~= spaces(k) + leading_ws(l));
    crate::text::lemma_byte_len_append(spaces(k), leading_ws(l));
    lemma_byte_len_spaces(k);
}

/// Cutting `m + k` bytes off a line with `k` spaces in front cuts `m` bytes
/// off the line, `k` characters further on.
proof fn lemma_chars_in_bytes_spaces(k: nat, l: Seq<char>, m: nat)
    ensures
        chars_in_bytes(spaces(k) + l, (m + k) as int) == match chars_in_bytes(l, m as int) {
            Some(c) => Some(c + k),
            None => None,
        },
    decreases k,
{
    if k == 0 {
        assert(spaces(k) + l =~= l);
    } else {
        let s = spaces(k) + l;
        assert(s.drop_first() =~= spaces((k - 1) as nat) + l);
        assert(s[0] == ' ');
        lemma_chars_in_bytes_spaces((k - 1) as nat, l, m);
    }
}

/// The least indentation of lines with spaces put in front of the non-blank
/// ones grows by the number of spaces.
proof fn lemma_min_lead_spaced(xs: Seq<Seq<char>>, k: nat)
    ensures
        min_lead_bytes(reindent(xs, spaces(k))) == match min_lead_bytes(xs) {
            Some(m) => Some(m + k),
            None => None,
        },
        min_lead_bytes(xs) is None ==> forall|i: int| 0 <= i < xs.len() ==> is_blank(#[trigger] xs[i]),
    decreases xs.len(),
{
    if xs.len() > 0 {
        let ys = reindent(xs, spaces(k));
        assert(ys.drop_last() =~= reindent(xs.drop_last(), spaces(k)));
        lemma_min_lead_spaced(xs.drop_last(), k);
        lemma_spaced_line(k, xs.last());
        assert forall|i: int| 0 <= i < xs.len() - 1 implies xs.drop_last()[i] == xs[i] by {}
    }
}

/// Putting the same number of spaces in front of every non-blank search and
/// replacement line leaves the re-indenting tier's result unchanged (and its
/// cuts still fall on character boundaries).
pub proof fn law_indent_shift(w: Seq<Seq<char>>, p: Seq<Seq<char>>, r: Seq<Seq<char>>, k: nat)
    requires
        indent_cuts_ok(p, r),
    ensures
        indent_cuts_ok(reindent(p, spaces(k)), reindent(r, spaces(k))),
        missing_ws_result(w, reindent(p, spaces(k)), reindent(r, spaces(k))) == missing_ws_result(
            w,
            p,
            r,
        ),
{
    let sp = spaces(k);
    let ip = reindent(p, sp);
    let ir = reindent(r, sp);
    assert(reindent(p + r, sp) =~= ip + ir);
    lemma_min_lead_spaced(p + r, k);
    let m = shared_indent(p, r);
    match min_lead_bytes(p + r) {
        None => {
            assert forall|i: int| 0 <= i < p.len() implies is_blank(#[trigger] p[i]) by {
                assert((p + r)[i] == p[i]);
            }
            assert forall|i: int| 0 <= i < r.len() implies is_blank(#[trigger] r[i]) by {
                assert((p + r)[p.len() + i] == r[i]);
            }
            assert(ip =~= p);
            assert(ir =~= r);
        },
        Some(mm) => {
            assert(shared_indent(ip, ir) == m + k);
            assert forall|i: int| 0 <= i < p.len() implies cut_ok(#[trigger] ip[i], shared_indent(ip, ir))
                && dedent_line(ip[i], m + k) == dedent_line(p[i], m) by {
                assert(cut_ok(p[i], m));
                lemma_spaced_line(k, p[i]);
                lemma_chars_in_bytes_spaces(k, p[i], m);
                if !is_blank(p[i]) {
                    lemma_chars_in_bytes(p[i], m as int);
                    let c = chars_in_bytes(p[i], m as int)->0;
                    assert((sp + p[i]).skip(c + k) =~= p[i].skip(c));
                }
            }
            assert forall|i: int| 0 <= i < r.len() implies cut_ok(#[trigger] ir[i], shared_indent(ip, ir))
                && dedent_line(ir[i], m + k) == dedent_line(r[i], m) by {
                assert(cut_ok(r[i], m));
                lemma_spaced_line(k, r[i]);
                lemma_chars_in_bytes_spaces(k, r[i], m);
                if !is_blank(r[i]) {
                    lemma_chars_in_bytes(r[i], m as int);
                    let c = chars_in_bytes(r[i], m as int)->0;
                    assert((sp + r[i]).skip(c + k) =~= r[i].skip(c));
                }
            }
            assert(dedent(ip, m + k) =~= dedent(p, m));
            assert(dedent(ir, m + k) =~= dedent(r, m));
        },
    }
}

/// Every window of the text is tried, the one that ends at the last line
/// included: when the search lines, stripped of their shared indentation,
/// match the window starting at `i` under one common indentation, the tier
/// succeeds, replacing a matching window that starts no later than `i` by the
/// re-indented replacement lines and keeping every other line.
pub proof fn law_indent_tries_every_window(w: Seq<Seq<char>>, p: Seq<Seq<char>>, r: Seq<Seq<char>>, i: int)
    requires
        p.len() > 0,
        0 <= i,
        i + p.len() <= w.len(),
        match_but_result(w.subrange(i, i + p.len()), dedent(p, shared_indent(p, r))) is Some,
    ensures
        exists|j: int|
            #![trigger match_but_result(w.subrange(j, j + p.len()), dedent(p, shared_indent(p, r)))]
            {
                &&& 0 <= j <= i
                &&& match_but_result(w.subrange(j, j + p.len()), dedent(p, shared_indent(p, r))) is Some
                &&& missing_ws_result(w, p, r) == Some(
                    (w.take(j) + reindent(
                        dedent(r, shared_indent(p, r)),
                        match_but_result(w.subrange(j, j + p.len()), dedent(p, shared_indent(p, r)))->0,
                    ) + w.skip(j + p.len())).flatten(),
                )
            },
{
    let m = shared_indent(p, r);
    let ap = dedent(p, m);
    let n = ap.len() as int;
    assert(n == p.len());
    let f = |k: int| window_matches(w, ap, k);
    assert(f(i));
    lemma_first_where(0, w.len() - n + 1, f);
    let j = first_where(0, w.len() - n + 1, f)->0;
    assert(j <= i) by {
        if j > i {
            assert(!f(i));
        }
    }
    assert(match_but_result(w.subrange(j, j + p.len()), ap) is Some);
}

} // verus!

//! Character-level text model shared by the parsers and formatters.
//!
//! Text is handled as sequences of `char`; the specifications here describe the
//! standard string operations the tools rely on (whitespace trimming, line
//! splitting, prefix tests, decimal numbers).
use vstd::prelude::*;
use vstd::slice::{slice_subrange, slice_to_vec};

verus! {

// ---------------------------------------------------------------------------
// Whitespace and trimming
// ---------------------------------------------------------------------------
/// Unicode `White_Space`, the set that `char::is_whitespace` accepts.
pub open spec fn is_space(c: char) -> bool {
    let u = c as u32;
    ||| u == 0x20
    ||| 0x09 <= u <= 0x0d
    ||| u == 0x85
    ||| u == 0xa0
    ||| u == 0x1680
    ||| 0x2000 <= u <= 0x200a
    ||| u == 0x2028
    ||| u == 0x2029
    ||| u == 0x202f
    ||| u == 0x205f
    ||| u == 0x3000
}

pub fn is_space_char(c: char) -> (r: bool)
    ensures
        r == is_space(c),
{
    let u = c as u32;
    u == 0x20 || (0x09 <= u && u <= 0x0d) || u == 0x85 || u == 0xa0 || u == 0x1680 || (0x2000
        <= u && u <= 0x200a) || u == 0x2028 || u == 0x2029 || u == 0x202f || u == 0x205f || u
        == 0x3000
}

/// Number of whitespace characters at the start of `s`.
pub open spec fn leading_spaces(s: Seq<char>) -> nat
    decreases s.len(),
{
    if s.len() > 0 && is_space(s[0]) {
        1 + leading_spaces(s.drop_first())
    } else {
        0
    }
}

/// Number of whitespace characters at the end of `s`.
pub open spec fn trailing_spaces(s: Seq<char>) -> nat
    decreases s.len(),
{
    if s.len() > 0 && is_space(s.last()) {
        1 + trailing_spaces(s.drop_last())
    } else {
        0
    }
}

/// `str::trim_start`.
pub open spec fn trim_start(s: Seq<char>) -> Seq<char> {
    s.skip(leading_spaces(s) as int)
}

/// `str::trim_end`.
pub open spec fn trim_end(s: Seq<char>) -> Seq<char> {
    s.take(s.len() - trailing_spaces(s))
}

/// `str::trim`.
pub open spec fn trim(s: Seq<char>) -> Seq<char> {
    trim_end(trim_start(s))
}

pub proof fn lemma_leading_spaces(s: Seq<char>, i: int)
    requires
        0 <= i <= s.len(),
        forall|k: int| 0 <= k < i ==> is_space(#[trigger] s[k]),
        i == s.len() || !is_space(s[i]),
    ensures
        leading_spaces(s) == i,
    decreases i,
{
    if i > 0 {
        assert forall|k: int| 0 <= k < i - 1 implies is_space(#[trigger] s.drop_first()[k]) by {
            assert(s.drop_first()[k] == s[k + 1]);
        }
        if i < s.len() {
            assert(s.drop_first()[i - 1] == s[i]);
        }
        lemma_leading_spaces(s.drop_first(), i - 1);
    }
}

pub proof fn lemma_trailing_spaces(s: Seq<char>, j: int)
    requires
        0 <= j <= s.len(),
        forall|k: int| j <= k < s.len() ==> is_space(#[trigger] s[k]),
        j == 0 || !is_space(s[j - 1]),
    ensures
        trailing_spaces(s) == s.len() - j,
    decreases s.len() - j,
{
    if j < s.len() {
        assert forall|k: int| j <= k < s.len() - 1 implies is_space(#[trigger] s.drop_last()[k]) by {
            assert(s.drop_last()[k] == s[k]);
        }
        if j > 0 {
            assert(s.drop_last()[j - 1] == s[j - 1]);
        }
        lemma_trailing_spaces(s.drop_last(), j);
    }
}

/// Index of the first non-whitespace character of `s[from..]` (or `s.len()`).
pub fn skip_spaces(s: &Vec<char>, from: usize) -> (i: usize)
    requires
        from <= s.len(),
    ensures
        from <= i <= s.len(),
        i == from + leading_spaces(s@.skip(from as int)),
{
    let mut i = from;
    while i < s.len() && is_space_char(s[i])
        invariant
            from <= i <= s.len(),
            forall|k: int| from <= k < i ==> is_space(#[trigger] s@[k]),
        decreases s.len() - i,
    {
        i += 1;
    }
    proof {
        let t = s@.skip(from as int);
        assert forall|k: int| 0 <= k < i - from implies is_space(#[trigger] t[k]) by {
            assert(t[k] == s@[from + k]);
        }
        if i < s.len() {
            assert(t[i - from] == s@[i as int]);
        }
        lemma_leading_spaces(t, i - from);
    }
    i
}

/// The bounds `(a, b)` of `trim(s[from..to])` inside `s`.
pub fn trim_bounds(s: &Vec<char>, from: usize, to: usize) -> (r: (usize, usize))
    requires
        from <= to <= s.len(),
    ensures
        from <= r.0 <= r.1 <= to,
        s@.subrange(r.0 as int, r.1 as int) == trim(s@.subrange(from as int, to as int)),
        r.0 == from + leading_spaces(s@.subrange(from as int, to as int)),
{
    let ghost t = s@.subrange(from as int, to as int);
    let mut i = from;
    while i < to && is_space_char(s[i])
        invariant
            from <= i <= to <= s.len(),
            forall|k: int| from <= k < i ==> is_space(#[trigger] s@[k]),
        decreases to - i,
    {
        i += 1;
    }
    proof {
        assert forall|k: int| 0 <= k < i - from implies is_space(#[trigger] t[k]) by {
            assert(t[k] == s@[from + k]);
        }
        if i < to {
            assert(t[i - from] == s@[i as int]);
        }
        lemma_leading_spaces(t, i - from);
    }
    let mut j = to;
    while j > i && is_space_char(s[j - 1])
        invariant
            from <= i <= j <= to <= s.len(),
            forall|k: int| j <= k < to ==> is_space(#[trigger] s@[k]),
        decreases j,
    {
        j -= 1;
    }
    proof {
        let u = trim_start(t);
        assert(u == s@.subrange(i as int, to as int));
        assert forall|k: int| j - i <= k < u.len() implies is_space(#[trigger] u[k]) by {
            assert(u[k] == s@[i + k]);
        }
        if j > i {
            assert(u[j - i - 1] == s@[j - 1]);
        }
        lemma_trailing_spaces(u, j - i);
        assert(trim(t) =~= s@.subrange(i as int, j as int));
    }
    (i, j)
}

// ---------------------------------------------------------------------------
// Copying and comparing
// ---------------------------------------------------------------------------
/// The characters of `s`, in order.
pub fn chars_of(s: &str) -> (v: Vec<char>)
    ensures
        v@ == s@,
{
    let mut v: Vec<char> = Vec::new();
    for c in it: s.chars()
        invariant
            it.seq() == s@,
            v@ == it.seq().take(it.index() as int),
    {
        v.push(c);
    }
    v
}

/// Collects characters into a `String` (`String: FromIterator<char>`).
#[verifier::external_body]
pub(crate) fn string_of(v: &[char]) -> (s: String)
    ensures
        s@ == v@,
{
    v.iter().collect()
}

/// A copy of `s[a..b]`.
pub fn slice_of(s: &Vec<char>, a: usize, b: usize) -> (r: Vec<char>)
    requires
        a <= b <= s.len(),
    ensures
        r@ == s@.subrange(a as int, b as int),
{
    slice_to_vec(slice_subrange(s.as_slice(), a, b))
}

/// Appends `t` to `out`.
pub fn push_all(out: &mut Vec<char>, t: &Vec<char>)
    ensures
        final(out)@ == old(out)@ + t@,
{
    let mut copy = slice_to_vec(t.as_slice());
    out.append(&mut copy);
}

/// A copy of `l`.
pub fn copy_line(l: &Vec<char>) -> (r: Vec<char>)
    ensures
        r@ == l@,
{
    let mut r: Vec<char> = Vec::new();
    push_all(&mut r, l);
    r
}

/// The character sequences of a list of lines.
pub open spec fn lines_view(ls: Seq<Vec<char>>) -> Seq<Seq<char>> {
    ls.map_values(|l: Vec<char>| l@)
}

/// Appends the characters of `t` to `out`.
pub fn push_str(out: &mut Vec<char>, t: &str)
    ensures
        final(out)@ == old(out)@ + t@,
{
    let mut copy = chars_of(t);
    out.append(&mut copy);
}

/// `a == b` on character sequences.
pub fn same(a: &Vec<char>, b: &Vec<char>) -> (r: bool)
    ensures
        r == (a@ == b@),
{
    if a.len() != b.len() {
        return false;
    }
    let mut i: usize = 0;
    while i < a.len()
        invariant
            a.len() == b.len(),
            i <= a.len(),
            forall|k: int| 0 <= k < i ==> a@[k] == b@[k],
        decreases a.len() - i,
    {
        if a[i] != b[i] {
            return false;
        }
        i += 1;
    }
    assert(a@ =~= b@);
    true
}

/// `a == b` on string slices.
pub fn str_eq(a: &str, b: &str) -> (r: bool)
    ensures
        r == (a@ == b@),
{
    same(&chars_of(a), &chars_of(b))
}

/// `v == lit`.
pub fn is(v: &Vec<char>, lit: &str) -> (r: bool)
    ensures
        r == (v@ == lit@),
{
    same(v, &chars_of(lit))
}

// ---------------------------------------------------------------------------
// Prefixes, suffixes and searching
// ---------------------------------------------------------------------------
pub open spec fn has_prefix(s: Seq<char>, p: Seq<char>) -> bool {
    p.len() <= s.len() && s.take(p.len() as int) == p
}

pub open spec fn has_suffix(s: Seq<char>, p: Seq<char>) -> bool {
    p.len() <= s.len() && s.skip(s.len() - p.len()) == p
}

/// `p` occurs in `s` starting at `i`.
pub open spec fn occurs_at(s: Seq<char>, p: Seq<char>, i: int) -> bool {
    0 <= i && i + p.len() <= s.len() && s.subrange(i, i + p.len()) == p
}

/// `s.contains(p)` for a non-empty pattern.
pub open spec fn contains(s: Seq<char>, p: Seq<char>) -> bool {
    exists|i: int| occurs_at(s, p, i)
}

/// `s[i..]` starts with `p`.
pub fn matches_at(s: &Vec<char>, i: usize, p: &Vec<char>) -> (r: bool)
    requires
        i <= s.len(),
    ensures
        r == occurs_at(s@, p@, i as int),
{
    if p.len() > s.len() - i {
        return false;
    }
    let mut k: usize = 0;
    while k < p.len()
        invariant
            i + p.len() <= s.len(),
            k <= p.len(),
            forall|m: int| 0 <= m < k ==> s@[i + m] == p@[m],
        decreases p.len() - k,
    {
        if s[i + k] != p[k] {
            assert(s@.subrange(i as int, i + p.len())[k as int] == s@[i + k]);
            return false;
        }
        k += 1;
    }
    assert(s@.subrange(i as int, i + p.len()) =~= p@);
    true
}

pub fn starts_with(s: &Vec<char>, p: &str) -> (r: bool)
    ensures
        r == has_prefix(s@, p@),
{
    let pv = chars_of(p);
    let r = matches_at(s, 0, &pv);
    assert(s@.subrange(0, pv@.len() as int) == s@.take(pv@.len() as int));
    r
}

pub fn ends_with(s: &Vec<char>, p: &str) -> (r: bool)
    ensures
        r == has_suffix(s@, p@),
{
    let pv = chars_of(p);
    if pv.len() > s.len() {
        return false;
    }
    let r = matches_at(s, s.len() - pv.len(), &pv);
    assert(s@.subrange(s.len() - pv@.len(), s.len() as int) == s@.skip(s.len() - pv@.len()));
    r
}

/// First position at or after `from` where `p` occurs, if any.
pub fn find_from(s: &Vec<char>, from: usize, p: &Vec<char>) -> (r: Option<usize>)
    requires
        from <= s.len(),
    ensures
        r matches Some(i) ==> from <= i && occurs_at(s@, p@, i as int) && forall|k: int|
            from <= k < i ==> !occurs_at(s@, p@, k),
        r is None ==> forall|k: int| from <= k ==> !occurs_at(s@, p@, k),
{
    let mut i = from;
    loop
        invariant
            from <= i <= s.len(),
            forall|k: int| from <= k < i ==> !occurs_at(s@, p@, k),
        decreases s.len() - i,
    {
        if matches_at(s, i, p) {
            return Some(i);
        }
        if i == s.len() {
            return None;
        }
        i += 1;
    }
}

/// `s.contains(p)`.
pub fn contains_str(s: &Vec<char>, p: &str) -> (r: bool)
    ensures
        r == contains(s@, p@),
{
    let pv = chars_of(p);
    match find_from(s, 0, &pv) {
        Some(i) => true,
        None => {
            assert forall|k: int| !occurs_at(s@, p@, k) by {
                if k < 0 {
                }
            }
            false
        },
    }
}

/// First index of `c` in `s[from..]`.
pub fn find_char(s: &Vec<char>, from: usize, c: char) -> (r: Option<usize>)
    requires
        from <= s.len(),
    ensures
        r matches Some(i) ==> from <= i < s.len() && s@[i as int] == c && forall|k: int|
            from <= k < i ==> s@[k] != c,
        r is None ==> forall|k: int| from <= k < s.len() ==> s@[k] != c,
{
    let mut i = from;
    while i < s.len()
        invariant
            from <= i <= s.len(),
            forall|k: int| from <= k < i ==> s@[k] != c,
        decreases s.len() - i,
    {
        if s[i] == c {
            return Some(i);
        }
        i += 1;
    }
    None
}

/// First index at or after `i` whose character satisfies `stop` (or the end).
pub open spec fn scan_until(s: Seq<char>, i: int, stop: spec_fn(char) -> bool) -> int
    decreases s.len() - i,
{
    if i < 0 || i >= s.len() || stop(s[i]) {
        i
    } else {
        scan_until(s, i + 1, stop)
    }
}

/// `scan_until` stops at the first index at or after `i` whose character satisfies `stop`.
pub proof fn lemma_scan_until(s: Seq<char>, i: int, e: int, stop: spec_fn(char) -> bool)
    requires
        0 <= i <= e <= s.len(),
        forall|k: int| i <= k < e ==> !stop(#[trigger] s[k]),
        e == s.len() || stop(s[e]),
    ensures
        scan_until(s, i, stop) == e,
    decreases e - i,
{
    if i < e {
        lemma_scan_until(s, i + 1, e, stop);
    }
}

/// `s.contains(c)`.
pub open spec fn has_char(s: Seq<char>, c: char) -> bool {
    exists|i: int| 0 <= i < s.len() && s[i] == c
}

pub fn contains_char(s: &Vec<char>, c: char) -> (r: bool)
    ensures
        r == has_char(s@, c),
{
    find_char(s, 0, c).is_some()
}

// ---------------------------------------------------------------------------
// Lines
// ---------------------------------------------------------------------------
/// Lines completed so far and the line in progress, after reading `s`.
pub open spec fn line_state(s: Seq<char>) -> (Seq<Seq<char>>, Seq<char>)
    decreases s.len(),
{
    if s.len() == 0 {
        (seq![], seq![])
    } else {
        let (done, cur) = line_state(s.drop_last());
        if s.last() == '\n' {
            (done.push(cur), seq![])
        } else {
            (done, cur.push(s.last()))
        }
    }
}

/// A line terminated by `\n` loses one trailing `\r`.
pub open spec fn strip_cr(l: Seq<char>) -> Seq<char> {
    if l.len() > 0 && l.last() == '\r' {
        l.drop_last()
    } else {
        l
    }
}

/// `str::lines`: split at `\n` (and `\r\n`); a final line ending adds no empty line.
pub open spec fn lines(s: Seq<char>) -> Seq<Seq<char>> {
    let (done, cur) = line_state(s);
    let ended = done.map_values(|l: Seq<char>| strip_cr(l));
    if cur.len() > 0 {
        ended.push(cur)
    } else {
        ended
    }
}

/// `source.lines()`, each line as characters.
pub fn split_lines(s: &Vec<char>) -> (r: Vec<Vec<char>>)
    ensures
        r@.len() == lines(s@).len(),
        forall|i: int| 0 <= i < r@.len() ==> #[trigger] r@[i]@ == lines(s@)[i],
{
    let mut out: Vec<Vec<char>> = Vec::new();
    let mut cur: Vec<char> = Vec::new();
    let mut i: usize = 0;
    while i < s.len()
        invariant
            i <= s.len(),
            line_state(s@.take(i as int)).1 == cur@,
            out@.len() == line_state(s@.take(i as int)).0.len(),
            forall|k: int|
                0 <= k < out@.len() ==> #[trigger] out@[k]@ == strip_cr(
                    line_state(s@.take(i as int)).0[k],
                ),
        decreases s.len() - i,
    {
        let c = s[i];
        assert(s@.take(i + 1).drop_last() =~= s@.take(i as int));
        if c == '\n' {
            let mut line = cur;
            if line.len() > 0 && line[line.len() - 1] == '\r' {
                line.pop();
            }
            out.push(line);
            cur = Vec::new();
        } else {
            cur.push(c);
        }
        i += 1;
    }
    assert(s@.take(s.len() as int) =~= s@);
    if cur.len() > 0 {
        out.push(cur);
    }
    out
}

/// Lines joined with `\n` between them.
pub open spec fn join(ls: Seq<Seq<char>>) -> Seq<char>
    decreases ls.len(),
{
    if ls.len() == 0 {
        seq![]
    } else if ls.len() == 1 {
        ls[0]
    } else {
        join(ls.drop_last()) + "\n"@ + ls.last()
    }
}

/// Joins lines with `\n` between them.
pub fn join_lines(ls: &Vec<Vec<char>>) -> (r: Vec<char>)
    ensures
        r@ == join(lines_view(ls@)),
{
    let ghost v = lines_view(ls@);
    let mut out: Vec<char> = Vec::new();
    let mut i: usize = 0;
    while i < ls.len()
        invariant
            i <= ls.len(),
            v == lines_view(ls@),
            out@ == join(v.take(i as int)),
        decreases ls.len() - i,
    {
        assert(v.take(i + 1).drop_last() =~= v.take(i as int));
        if i > 0 {
            out.push('\n');
        }
        push_all(&mut out, &ls[i]);
        proof {
            reveal_strlit("\n");
            if i == 0 {
                assert(out@ =~= v.take(1)[0]);
            } else {
                assert(out@ =~= join(v.take(i as int)) + "\n"@ + v.take(i + 1).last());
            }
        }
        i += 1;
    }
    assert(v.take(i as int) =~= v);
    out
}

// ---------------------------------------------------------------------------
// Whitespace runs and replacement
// ---------------------------------------------------------------------------
/// `s[i..]`'s words appended to `out`, separated by single spaces
/// (`split_whitespace` joined with `" "`); `gap` tells whether whitespace was
/// skipped since the last character copied.
pub open spec fn squeeze(s: Seq<char>, i: int, out: Seq<char>, gap: bool) -> Seq<char>
    decreases s.len() - i,
{
    if i < 0 || i >= s.len() {
        out
    } else if is_space(s[i]) {
        squeeze(s, i + 1, out, true)
    } else {
        let spaced = if gap && out.len() > 0 {
            out.push(' ')
        } else {
            out
        };
        squeeze(s, i + 1, spaced.push(s[i]), false)
    }
}

/// The words of `s` joined with single spaces.
pub fn words_joined(s: &Vec<char>) -> (r: Vec<char>)
    ensures
        r@ == squeeze(s@, 0, seq![], false),
{
    let mut out: Vec<char> = Vec::new();
    let mut gap = false;
    let mut i: usize = 0;
    while i < s.len()
        invariant
            i <= s.len(),
            squeeze(s@, 0, seq![], false) == squeeze(s@, i as int, out@, gap),
        decreases s.len() - i,
    {
        if is_space_char(s[i]) {
            gap = true;
        } else {
            if gap && out.len() > 0 {
                out.push(' ');
            }
            out.push(s[i]);
            gap = false;
        }
        i += 1;
    }
    out
}

/// `s[i..]` with each occurrence of `from` replaced by `to`, scanning left to right
/// without overlaps (`str::replace`).
pub open spec fn replace_from(s: Seq<char>, from: Seq<char>, to: Seq<char>, i: int) -> Seq<char>
    decreases s.len() - i,
{
    if i < 0 || i >= s.len() || from.len() == 0 {
        seq![]
    } else if occurs_at(s, from, i) {
        to + replace_from(s, from, to, i + from.len())
    } else {
        seq![s[i]] + replace_from(s, from, to, i + 1)
    }
}

pub open spec fn replace_all(s: Seq<char>, from: Seq<char>, to: Seq<char>) -> Seq<char> {
    if from.len() == 0 {
        s
    } else {
        replace_from(s, from, to, 0)
    }
}

/// `s.replace(from, to)` for a non-empty `from`.
pub fn replace_str(s: &Vec<char>, from: &str, to: &str) -> (r: Vec<char>)
    requires
        from@.len() > 0,
    ensures
        r@ == replace_all(s@, from@, to@),
{
    let fv = chars_of(from);
    let mut out: Vec<char> = Vec::new();
    let mut i: usize = 0;
    while i < s.len()
        invariant
            i <= s.len(),
            fv@ == from@,
            from@.len() > 0,
            replace_from(s@, from@, to@, 0) == out@ + replace_from(s@, from@, to@, i as int),
        decreases s.len() - i,
    {
        if matches_at(s, i, &fv) {
            let ghost prev = out@;
            push_str(&mut out, to);
            assert(prev + replace_from(s@, from@, to@, i as int) =~= out@ + replace_from(
                s@,
                from@,
                to@,
                i + fv.len(),
            ));
            i += fv.len();
        } else {
            let ghost prev = out@;
            out.push(s[i]);
            assert(prev + replace_from(s@, from@, to@, i as int) =~= out@ + replace_from(
                s@,
                from@,
                to@,
                i + 1,
            ));
            i += 1;
        }
    }
    assert(out@ + seq![] =~= out@);
    out
}

/// Replacing a pattern by something shorter shrinks any text that contains it.
pub proof fn lemma_replace_shrinks(s: Seq<char>, from: Seq<char>, to: Seq<char>, i: int)
    requires
        0 <= i <= s.len(),
        to.len() < from.len(),
    ensures
        replace_from(s, from, to, i).len() <= s.len() - i,
        (exists|k: int| i <= k && occurs_at(s, from, k)) ==> replace_from(s, from, to, i).len()
            < s.len() - i,
    decreases s.len() - i,
{
    if i < s.len() {
        if occurs_at(s, from, i) {
            lemma_replace_shrinks(s, from, to, i + from.len());
        } else {
            lemma_replace_shrinks(s, from, to, i + 1);
            if exists|k: int| i <= k && occurs_at(s, from, k) {
                let k = choose|k: int| i <= k && occurs_at(s, from, k);
                assert(k != i);
                assert(i + 1 <= k);
            }
        }
    } else {
        if exists|k: int| i <= k && occurs_at(s, from, k) {
            let k = choose|k: int| i <= k && occurs_at(s, from, k);
            assert(from.len() == 0 || k + from.len() > s.len());
        }
    }
}

/// Replaces double spaces by single ones until none is left.
pub open spec fn collapse_spaces(s: Seq<char>) -> Seq<char>
    decreases s.len(),
{
    if contains(s, "  "@) {
        proof {
            reveal_strlit("  ");
            reveal_strlit(" ");
            lemma_replace_shrinks(s, "  "@, " "@, 0);
        }
        collapse_spaces(replace_all(s, "  "@, " "@))
    } else {
        s
    }
}

/// Removes double spaces (see [`collapse_spaces`]).
pub fn collapse_spaces_in(s: Vec<char>) -> (r: Vec<char>)
    ensures
        r@ == collapse_spaces(s@),
{
    let mut cur = s;
    while contains_str(&cur, "  ")
        invariant
            collapse_spaces(s@) == collapse_spaces(cur@),
        decreases cur@.len(),
    {
        proof {
            reveal_strlit("  ");
            reveal_strlit(" ");
            lemma_replace_shrinks(cur@, "  "@, " "@, 0);
        }
        cur = replace_str(&cur, "  ", " ");
    }
    cur
}

// ---------------------------------------------------------------------------
// Decimal numbers
// ---------------------------------------------------------------------------
pub open spec fn digit_char(d: nat) -> char {
    (48 + d) as char
}

pub open spec fn is_digit(c: char) -> bool {
    '0' <= c && c <= '9'
}

pub open spec fn digit_value(c: char) -> nat {
    (c as u32 - 48) as nat
}

/// Decimal representation of `n` without leading zeros.
pub open spec fn decimal(n: nat) -> Seq<char>
    decreases n,
{
    if n < 10 {
        seq![digit_char(n)]
    } else {
        decimal(n / 10).push(digit_char(n % 10))
    }
}

/// Appends `decimal(n)` to `out`.
pub fn push_decimal(out: &mut Vec<char>, n: u64)
    ensures
        final(out)@ == old(out)@ + decimal(n as nat),
    decreases n,
{
    if n >= 10 {
        push_decimal(out, n / 10);
    }
    let d = (n % 10) as u32;
    let c = char_from_digit(d);
    out.push(c);
    assert(decimal(n as nat) == if n < 10 {
        seq![digit_char(n as nat)]
    } else {
        decimal((n / 10) as nat).push(digit_char((n % 10) as nat))
    });
}

pub fn char_from_digit(d: u32) -> (c: char)
    requires
        d < 10,
    ensures
        c == digit_char(d as nat),
{
    if d == 0 {
        '0'
    } else if d == 1 {
        '1'
    } else if d == 2 {
        '2'
    } else if d == 3 {
        '3'
    } else if d == 4 {
        '4'
    } else if d == 5 {
        '5'
    } else if d == 6 {
        '6'
    } else if d == 7 {
        '7'
    } else if d == 8 {
        '8'
    } else {
        '9'
    }
}

/// The value of a string of decimal digits.
pub open spec fn digits_value(s: Seq<char>) -> nat
    decreases s.len(),
{
    if s.len() == 0 {
        0
    } else {
        digits_value(s.drop_last()) * 10 + digit_value(s.last())
    }
}

pub open spec fn all_digits(s: Seq<char>) -> bool {
    forall|i: int| 0 <= i < s.len() ==> is_digit(#[trigger] s[i])
}

/// `str::parse` for an unsigned integer type whose largest value is `max`:
/// one optional `+`, then at least one decimal digit, no overflow.
pub open spec fn parse_unsigned(s: Seq<char>, max: nat) -> Option<nat> {
    let body = if s.len() > 0 && s[0] == '+' {
        s.drop_first()
    } else {
        s
    };
    if body.len() > 0 && all_digits(body) && digits_value(body) <= max {
        Some(digits_value(body))
    } else {
        None
    }
}

pub proof fn lemma_digits_value_grows(s: Seq<char>, i: int)
    requires
        0 <= i <= s.len(),
        all_digits(s),
    ensures
        digits_value(s.take(i)) <= digits_value(s),
    decreases s.len() - i,
{
    if i < s.len() {
        assert(s.drop_last().take(i) == s.take(i));
        lemma_digits_value_grows(s.drop_last(), i);
    } else {
        assert(s.take(i) == s);
    }
}

/// Parses `s[a..b]` as an unsigned integer no larger than `max`.
pub fn parse_unsigned_at(s: &Vec<char>, a: usize, b: usize, max: u64) -> (r: Option<u64>)
    requires
        a <= b <= s.len(),
    ensures
        r matches Some(v) ==> parse_unsigned(s@.subrange(a as int, b as int), max as nat) == Some(
            v as nat,
        ),
        r is None ==> parse_unsigned(s@.subrange(a as int, b as int), max as nat) is None,
{
    let ghost t = s@.subrange(a as int, b as int);
    let mut i = a;
    if i < b && s[i] == '+' {
        i += 1;
    }
    let ghost body = s@.subrange(i as int, b as int);
    assert(body == (if t.len() > 0 && t[0] == '+' {
        t.drop_first()
    } else {
        t
    }));
    if i == b {
        return None;
    }
    let start = i;
    let mut value: u64 = 0;
    while i < b
        invariant
            a <= start <= i <= b <= s.len(),
            body == s@.subrange(start as int, b as int),
            t == s@.subrange(a as int, b as int),
            body == (if t.len() > 0 && t[0] == '+' {
                t.drop_first()
            } else {
                t
            }),
            body.len() > 0,
            value as nat == digits_value(s@.subrange(start as int, i as int)),
            value <= max,
            all_digits(s@.subrange(start as int, i as int)),
        decreases b - i,
    {
        let c = s[i];
        let ghost prefix = s@.subrange(start as int, (i + 1) as int);
        assert(prefix.drop_last() =~= s@.subrange(start as int, i as int));
        if !('0' <= c && c <= '9') {
            assert(body[i - start] == c);
            assert(!is_digit(body[i - start]));
            return None;
        }
        let d = (c as u32 - 48) as u64;
        assert(prefix.last() == c);
        assert(digit_value(c) == d);
        assert(digits_value(prefix) == value * 10 + d);
        if d > max || value > (max - d) / 10 {
            proof {
                if d <= max {
                    assert(value * 10 + d > max) by (nonlinear_arith)
                        requires
                            value > (max - d) / 10,
                            d <= max,
                    ;
                }
                assert(digits_value(prefix) > max);
                if all_digits(body) {
                    assert(body.take(i + 1 - start) =~= prefix);
                    lemma_digits_value_grows(body, i + 1 - start);
                    assert(digits_value(body) > max);
                }
            }
            return None;
        }
        assert(value * 10 + d <= max) by (nonlinear_arith)
            requires
                value <= (max - d) / 10,
                d <= max,
        ;
        value = value * 10 + d;
        i += 1;
        assert(all_digits(s@.subrange(start as int, i as int)));
    }
    assert(s@.subrange(start as int, i as int) == body);
    Some(value)
}

// ---------------------------------------------------------------------------
// Lexicographic order (the order of `str` and `String` comparison)
// ---------------------------------------------------------------------------
/// `a < b` in lexicographic order of code points, which is the byte order of
/// their UTF-8 encodings.
pub open spec fn lex_lt(a: Seq<char>, b: Seq<char>) -> bool
    decreases a.len(),
{
    if a.len() == 0 {
        b.len() > 0
    } else if b.len() == 0 {
        false
    } else if a[0] != b[0] {
        (a[0] as u32) < (b[0] as u32)
    } else {
        lex_lt(a.drop_first(), b.drop_first())
    }
}

pub open spec fn lex_le(a: Seq<char>, b: Seq<char>) -> bool {
    lex_lt(a, b) || a == b
}

pub proof fn lemma_lex_irreflexive(a: Seq<char>)
    ensures
        !lex_lt(a, a),
    decreases a.len(),
{
    if a.len() > 0 {
        lemma_lex_irreflexive(a.drop_first());
    }
}

pub proof fn lemma_lex_total(a: Seq<char>, b: Seq<char>)
    ensures
        lex_lt(a, b) || lex_lt(b, a) || a == b,
        !(lex_lt(a, b) && lex_lt(b, a)),
    decreases a.len(),
{
    if a.len() > 0 && b.len() > 0 {
        if a[0] == b[0] {
            lemma_lex_total(a.drop_first(), b.drop_first());
            if a.drop_first() == b.drop_first() {
                assert(a =~= seq![a[0]] + a.drop_first());
                assert(b =~= seq![b[0]] + b.drop_first());
            }
        } else {
            let x = a[0] as u32;
            let y = b[0] as u32;
            assert(x != y) by {
                vstd::utf8::char_u32_cast(a[0], x);
                vstd::utf8::char_u32_cast(b[0], y);
            }
        }
    } else if a.len() == 0 && b.len() == 0 {
        assert(a =~= b);
    }
}

pub proof fn lemma_lex_transitive(a: Seq<char>, b: Seq<char>, c: Seq<char>)
    requires
        lex_lt(a, b),
        lex_lt(b, c),
    ensures
        lex_lt(a, c),
    decreases a.len(),
{
    if a.len() > 0 && b.len() > 0 && c.len() > 0 && a[0] == b[0] && b[0] == c[0] {
        lemma_lex_transitive(a.drop_first(), b.drop_first(), c.drop_first());
    }
}

/// Three-way comparison result.
#[derive(Debug, Clone, Copy, PartialEq, Eq, Structural)]
pub enum Order {
    Less,
    Equal,
    Greater,
}

proof fn lemma_lex_from(a: Seq<char>, b: Seq<char>, i: int)
    requires
        0 <= i <= a.len(),
        i <= b.len(),
        a.take(i) == b.take(i),
    ensures
        lex_lt(a, b) == lex_lt(a.skip(i), b.skip(i)),
    decreases i,
{
    if i > 0 {
        assert(a[0] == a.take(i)[0]);
        assert(b[0] == b.take(i)[0]);
        assert(a.drop_first().take(i - 1) =~= a.take(i).drop_first());
        assert(b.drop_first().take(i - 1) =~= b.take(i).drop_first());
        lemma_lex_from(a.drop_first(), b.drop_first(), i - 1);
        assert(a.drop_first().skip(i - 1) =~= a.skip(i));
        assert(b.drop_first().skip(i - 1) =~= b.skip(i));
    } else {
        assert(a.skip(0) =~= a);
        assert(b.skip(0) =~= b);
    }
}

/// Compares two character sequences in lexicographic order.
pub fn compare(a: &Vec<char>, b: &Vec<char>) -> (r: Order)
    ensures
        r == Order::Less <==> lex_lt(a@, b@),
        r == Order::Greater <==> lex_lt(b@, a@),
        r == Order::Equal <==> a@ == b@,
{
    let mut i: usize = 0;
    while i < a.len() && i < b.len() && a[i] == b[i]
        invariant
            i <= a.len(),
            i <= b.len(),
            a@.take(i as int) == b@.take(i as int),
        decreases a.len() - i,
    {
        assert(a@.take(i + 1) =~= a@.take(i as int).push(a@[i as int]));
        assert(b@.take(i + 1) =~= b@.take(i as int).push(b@[i as int]));
        i += 1;
    }
    proof {
        lemma_lex_from(a@, b@, i as int);
        lemma_lex_from(b@, a@, i as int);
        lemma_lex_total(a@, b@);
        lemma_lex_irreflexive(a@);
    }
    if i == a.len() && i == b.len() {
        assert(a@ =~= a@.take(i as int));
        assert(b@ =~= b@.take(i as int));
        Order::Equal
    } else if i == a.len() {
        assert(a@.skip(i as int).len() == 0);
        Order::Less
    } else if i == b.len() {
        assert(b@.skip(i as int).len() == 0);
        Order::Greater
    } else {
        let x = a[i] as u32;
        let y = b[i] as u32;
        assert(a@.skip(i as int)[0] == a@[i as int]);
        assert(b@.skip(i as int)[0] == b@[i as int]);
        if a[i] != b[i] {
        }
        if x < y {
            Order::Less
        } else {
            Order::Greater
        }
    }
}


// ---------------------------------------------------------------------------
// Lines and joining
// ---------------------------------------------------------------------------
/// No line break and no carriage return in `l`.
pub open spec fn no_break(l: Seq<char>) -> bool {
    forall|k: int| 0 <= k < l.len() ==> #[trigger] l[k] != '\n' && l[k] != '\r'
}

/// Every line is non-empty, without line break or carriage return.
pub open spec fn all_plain(ls: Seq<Seq<char>>) -> bool {
    forall|i: int| 0 <= i < ls.len() ==> (#[trigger] ls[i]).len() > 0 && no_break(ls[i])
}

proof fn lemma_line_state_plain(s: Seq<char>, l: Seq<char>)
    requires
        no_break(l),
    ensures
        line_state(s + l) == (line_state(s).0, line_state(s).1 + l),
    decreases l.len(),
{
    if l.len() > 0 {
        lemma_line_state_plain(s, l.drop_last());
        assert((s + l).drop_last() =~= s + l.drop_last());
        assert((s + l).last() == l.last());
        assert((line_state(s).1 + l.drop_last()).push(l.last()) =~= line_state(s).1 + l);
    } else {
        assert(s + l =~= s);
    }
}

proof fn lemma_line_state_join(x: Seq<Seq<char>>)
    requires
        all_plain(x),
        x.len() > 0,
    ensures
        line_state(join(x)) == (x.drop_last(), x.last()),
    decreases x.len(),
{
    if x.len() == 1 {
        lemma_line_state_plain(seq![], x[0]);
        assert(Seq::<char>::empty() + x[0] =~= x[0]);
        assert(x.drop_last() =~= seq![]);
        assert(Seq::<char>::empty() + x[0] =~= x[0]);
    } else {
        let xd = x.drop_last();
        lemma_line_state_join(xd);
        reveal_strlit("\n");
        let head = join(xd) + "\n"@;
        assert(head.drop_last() =~= join(xd));
        assert(head.last() == '\n');
        assert(xd.drop_last().push(xd.last()) =~= xd);
        lemma_line_state_plain(head, x.last());
        assert(Seq::<char>::empty() + x.last() =~= x.last());
    }
}

proof fn lemma_strip_plain(x: Seq<Seq<char>>)
    requires
        all_plain(x),
    ensures
        x.map_values(|l: Seq<char>| strip_cr(l)) == x,
{
    assert forall|i: int| 0 <= i < x.len() implies strip_cr(x[i]) == x[i] by {
        assert(x[i].last() != '\r');
    }
    assert(x.map_values(|l: Seq<char>| strip_cr(l)) =~= x);
}

/// Joining plain lines and splitting the text again gives the lines back, with or
/// without a final line break.
pub proof fn lemma_lines_join(x: Seq<Seq<char>>)
    requires
        all_plain(x),
    ensures
        lines(join(x)) == x,
        x.len() > 0 ==> lines(join(x) + "\n"@) == x,
{
    lemma_strip_plain(x);
    if x.len() == 0 {
        assert(lines(join(x)) =~= x);
    } else {
        lemma_line_state_join(x);
        lemma_strip_plain(x.drop_last());
        assert(lines(join(x)) =~= x.drop_last().push(x.last()));
        reveal_strlit("\n");
        let t = join(x) + "\n"@;
        assert(t.drop_last() =~= join(x));
        assert(t.last() == '\n');
        assert(x.drop_last().push(x.last()) =~= x);
    }
}

proof fn lemma_line_state_no_break(s: Seq<char>)
    requires
        forall|k: int| 0 <= k < s.len() ==> #[trigger] s[k] != '\r',
    ensures
        forall|i: int| 0 <= i < line_state(s).0.len() ==> no_break(#[trigger] line_state(s).0[i]),
        no_break(line_state(s).1),
    decreases s.len(),
{
    if s.len() > 0 {
        let d = s.drop_last();
        assert forall|k: int| 0 <= k < d.len() implies #[trigger] d[k] != '\r' by {
            assert(d[k] == s[k]);
        }
        lemma_line_state_no_break(d);
        assert(s.last() == s[s.len() - 1]);
    }
}

/// The lines of a text without carriage returns hold no line break or carriage
/// return; a text ending with a line break has at least one line.
pub proof fn lemma_lines_no_break(s: Seq<char>)
    requires
        forall|k: int| 0 <= k < s.len() ==> #[trigger] s[k] != '\r',
    ensures
        forall|i: int| 0 <= i < lines(s).len() ==> no_break(#[trigger] lines(s)[i]),
        s.len() > 0 && s.last() == '\n' ==> lines(s).len() > 0,
{
    lemma_line_state_no_break(s);
    let (done, cur) = line_state(s);
    assert forall|i: int| 0 <= i < done.len() implies strip_cr(#[trigger] done[i]) == done[i] by {
        if done[i].len() > 0 {
            assert(done[i][done[i].len() - 1] != '\r');
        }
    }
}

} // verus!

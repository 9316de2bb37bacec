//! Line-based sorting of `.proto` text: message and enum blocks by name, and runs
//! of field lines by number or name.
use vstd::prelude::*;
use vstd::multiset::Multiset;

use crate::sorting::{
    insert_position, is_permutation, is_sorted_by, is_stable_by, keys_view,
    lemma_insert_position_bounds, lemma_stable_order_range, sort_order, stable_order,
};
use crate::text::{
    all_plain, line_state, no_break, strip_cr,
    all_digits, chars_of, contains_char, copy_line, decimal, digit_char, digit_value, digits_value,
    find_char, is_digit, find_from, has_char, has_prefix,
    is_space, is_space_char, join, join_lines, lemma_scan_until, lex_lt, lines, lines_view, occurs_at,
    parse_unsigned, parse_unsigned_at, push_all, push_decimal, scan_until, skip_spaces,
    slice_of, split_lines, starts_with, string_of, trim, trim_bounds, trim_start,
};

verus! {

/// How fields are ordered.
#[derive(Debug, Clone, Copy, PartialEq, Eq)]
pub enum SortKey {
    Name,
    Number,
}

/// Why a text cannot be sorted.
#[derive(Debug, Clone, Copy, PartialEq, Eq, Structural)]
pub enum SortError {
    /// Braces nest deeper than an `i32` counts.
    TooDeep,
}

// ---------------------------------------------------------------------------
// Line classification
// ---------------------------------------------------------------------------
/// Ends a declaration's name: whitespace or `{`.
pub open spec fn ends_name(c: char) -> bool {
    is_space(c) || c == '{'
}

/// `t` (already without leading whitespace) declares a `kind` block: the keyword,
/// whitespace, a name, and a `{` somewhere on the line.
pub open spec fn kind_declaration(t: Seq<char>, kind: Seq<char>) -> Option<(Seq<char>, Seq<char>)> {
    if has_prefix(t, kind) && t.len() > kind.len() && is_space(t[kind.len() as int]) {
        let rest = trim_start(t.skip(kind.len() as int));
        let name = rest.take(scan_until(rest, 0, |c: char| ends_name(c)));
        if name.len() > 0 && has_char(t, '{') {
            Some((kind, name))
        } else {
            None
        }
    } else {
        None
    }
}

/// The `message` or `enum` declaration that a line opens, as (kind, name).
pub open spec fn declaration(line: Seq<char>) -> Option<(Seq<char>, Seq<char>)> {
    let t = trim_start(line);
    match kind_declaration(t, "message"@) {
        Some(d) => Some(d),
        None => kind_declaration(t, "enum"@),
    }
}

/// Not an ASCII digit.
pub open spec fn non_digit(c: char) -> bool {
    !('0' <= c && c <= '9')
}

/// Index just after the last whitespace character before `i` (0 if none).
pub open spec fn word_start(s: Seq<char>, i: int) -> int
    decreases i,
{
    if i <= 0 || i > s.len() || is_space(s[i - 1]) {
        if i < 0 {
            0
        } else {
            i
        }
    } else {
        word_start(s, i - 1)
    }
}

/// Lines that never count as fields.
pub open spec fn skipped_line(t: Seq<char>) -> bool {
    ||| t.len() == 0
    ||| has_prefix(t, "//"@)
    ||| has_prefix(t, "/*"@)
    ||| has_prefix(t, "option "@)
    ||| has_prefix(t, "reserved "@)
    ||| has_prefix(t, "extensions "@)
    ||| has_prefix(t, "oneof "@)
    ||| has_prefix(t, "map<"@)
}

/// The field a line declares, as (name, number): `... name = number...`, where the
/// name is the last word before `=` and the number the digits right after it.
pub open spec fn field_line(line: Seq<char>) -> Option<(Seq<char>, u32)> {
    let t = trim(line);
    if skipped_line(t) {
        None
    } else {
        let e = scan_until(t, 0, |c: char| c == '=');
        if e >= t.len() {
            None
        } else {
            let left = trim(t.take(e));
            let right = trim(t.skip(e + 1));
            match parse_unsigned(right.take(scan_until(right, 0, |c: char| non_digit(c))), u32::MAX as nat) {
                None => None,
                Some(n) => if left.len() == 0 {
                    None
                } else {
                    Some((left.skip(word_start(left, left.len() as int)), n as u32))
                },
            }
        }
    }
}

/// `n` in decimal, padded with zeros to ten digits.
pub open spec fn padded10(n: nat) -> Seq<char> {
    Seq::new((10 - decimal(n).len()) as nat, |i: int| '0') + decimal(n)
}

/// The key a field is ordered by: its name, or its number (ten digits) then its name.
pub open spec fn field_order_key(name: Seq<char>, number: u32, key: SortKey) -> Seq<char> {
    match key {
        SortKey::Name => name,
        SortKey::Number => padded10(number as nat) + ":"@ + name,
    }
}

// ---------------------------------------------------------------------------
// Block ends
// ---------------------------------------------------------------------------
/// Where a line's code ends: the first `//`, or the line's length.
pub open spec fn code_end(line: Seq<char>) -> int {
    if exists|i: int| occurs_at(line, "//"@, i) {
        choose|i: int| occurs_at(line, "//"@, i) && forall|k: int| 0 <= k < i ==> !occurs_at(line, "//"@, k)
    } else {
        line.len() as int
    }
}

/// Scanning for the `}` that closes the block, at character `c` of line `l`, with
/// brace depth `depth`: `Some(Some(l))` when found on line `l`, `Some(None)` when the
/// lines run out, `None` when the depth leaves the range of an `i32`.
pub open spec fn scan_block(lines: Seq<Seq<char>>, l: int, c: int, depth: int) -> Option<Option<int>>
    decreases lines.len() - l, code_end(lines[l]) - c,
{
    if l < 0 || l >= lines.len() {
        Some(None)
    } else if c < 0 || c >= code_end(lines[l]) {
        scan_block(lines, l + 1, 0, depth)
    } else if lines[l][c] == '{' {
        if depth + 1 > i32::MAX {
            None
        } else {
            scan_block(lines, l, c + 1, depth + 1)
        }
    } else if lines[l][c] == '}' {
        if depth - 1 < i32::MIN {
            None
        } else if depth - 1 == 0 {
            Some(Some(l))
        } else {
            scan_block(lines, l, c + 1, depth - 1)
        }
    } else {
        scan_block(lines, l, c + 1, depth)
    }
}


pub proof fn lemma_scan_block_bounds(ls: Seq<Seq<char>>, l: int, c: int, depth: int)
    requires
        0 <= l,
    ensures
        scan_block(ls, l, c, depth) matches Some(Some(e)) ==> l <= e < ls.len(),
    decreases ls.len() - l, code_end(ls[l]) - c,
{
    if l < ls.len() {
        if c < 0 || c >= code_end(ls[l]) {
            lemma_scan_block_bounds(ls, l + 1, 0, depth);
        } else if ls[l][c] == '{' {
            if depth + 1 <= i32::MAX {
                lemma_scan_block_bounds(ls, l, c + 1, depth + 1);
            }
        } else if ls[l][c] == '}' {
            if depth - 1 >= i32::MIN && depth - 1 != 0 {
                lemma_scan_block_bounds(ls, l, c + 1, depth - 1);
            }
        } else {
            lemma_scan_block_bounds(ls, l, c + 1, depth);
        }
    }
}

/// The last line of the block that line `i` opens: `Some(Some(e))` for the line
/// holding the `}` that brings the depth back to zero, `Some(None)` when no such
/// line follows, `None` when the depth leaves the range of an `i32`.
pub open spec fn block_end(ls: Seq<Seq<char>>, i: int) -> Option<Option<int>> {
    scan_block(ls, i, 0, 0)
}

pub proof fn lemma_block_end_bounds(ls: Seq<Seq<char>>, i: int)
    requires
        0 <= i < ls.len(),
    ensures
        block_end(ls, i) matches Some(Some(e)) ==> i <= e < ls.len(),
{
    lemma_scan_block_bounds(ls, i, 0, 0);
}

/// The key a declaration is ordered by: `kind:name`.
pub open spec fn declaration_key(line: Seq<char>) -> Option<Seq<char>> {
    match declaration(line) {
        Some((kind, name)) => Some(kind + ":"@ + name),
        None => None,
    }
}

// ---------------------------------------------------------------------------
// Sorting a scope
// ---------------------------------------------------------------------------
/// A declaration block placed in the output: where it starts, its key, and its
/// (already sorted) lines.
pub type Slot = (int, Seq<char>, Seq<Seq<char>>);

/// A scope's lines sorted and joined: declaration blocks (with their insides
/// sorted) reordered by key, then runs of field lines reordered.
pub open spec fn scope(ls: Seq<Seq<char>>, key: SortKey) -> Result<Seq<char>, SortError>
    decreases ls.len(), 1int, 0int,
{
    match walk(ls, key, 0, seq![], seq![]) {
        Err(e) => Err(e),
        Ok((out, slots)) => Ok(join(field_runs(replace_slots(out, slots), key, 0))),
    }
}

/// The block a declaration on line `i` spans, ending on line `end`, with its inside
/// sorted when it has more than one line between the braces.
pub open spec fn chunk_of(ls: Seq<Seq<char>>, key: SortKey, i: int, end: int) -> Result<Seq<Seq<char>>, SortError>
    decreases ls.len(), 0int, 0int,
{
    if 0 <= i && i + 1 < end < ls.len() {
        match scope(ls.subrange(i + 1, end), key) {
            Err(e) => Err(e),
            Ok(inner) => Ok(seq![ls[i]] + lines(inner) + seq![ls[end]]),
        }
    } else {
        Ok(ls.subrange(i, end + 1))
    }
}

/// Reads lines from `i` on, copying plain lines to `out` and each declaration block
/// to `out` as well as to `slots`.
pub open spec fn walk(ls: Seq<Seq<char>>, key: SortKey, i: int, out: Seq<Seq<char>>, slots: Seq<Slot>) -> Result<(Seq<Seq<char>>, Seq<Slot>), SortError>
    decreases ls.len(), 0int, ls.len() - i + 1,
{
    if i < 0 || i >= ls.len() {
        Ok((out, slots))
    } else {
        match declaration_key(ls[i]) {
            None => walk(ls, key, i + 1, out.push(ls[i]), slots),
            Some(k) => match block_end(ls, i) {
                None => Err(SortError::TooDeep),
                Some(found) => {
                    let end = match found {
                        Some(e) => e,
                        None => i,
                    };
                    proof {
                        lemma_block_end_bounds(ls, i);
                    }
                    match chunk_of(ls, key, i, end) {
                        Err(e) => Err(e),
                        Ok(c) => walk(ls, key, end + 1, out + c, slots.push((out.len() as int, k, c))),
                    }
                },
            },
        }
    }
}

pub open spec fn slot_keys(slots: Seq<Slot>) -> Seq<Seq<char>> {
    slots.map_values(|s: Slot| s.1)
}

/// With two or more blocks, lays the blocks out again in key order (see [`relay`]).
pub open spec fn replace_slots(out: Seq<Seq<char>>, slots: Seq<Slot>) -> Seq<Seq<char>> {
    if slots.len() < 2 {
        out
    } else {
        relay(out, slots, stable_order(slot_keys(slots), slots.len() as int), 0, 0)
    }
}

/// The lines of `out` from line `from` on, with the `k`-th block and those after it
/// taken out and the blocks `order[k]`, `order[k + 1]`, ... put in their places,
/// one after another: the lines between two blocks stay between them.
pub open spec fn relay(out: Seq<Seq<char>>, slots: Seq<Slot>, order: Seq<int>, k: int, from: int) -> Seq<Seq<char>>
    decreases slots.len() - k,
{
    if k < 0 || k >= slots.len() {
        out.subrange(from, out.len() as int)
    } else {
        out.subrange(from, slots[k].0) + slots[order[k]].2 + relay(
            out,
            slots,
            order,
            k + 1,
            slots[k].0 + slots[k].2.len(),
        )
    }
}

/// First index at or after `i` whose line is not a field.
pub open spec fn run_end(ls: Seq<Seq<char>>, i: int) -> int
    decreases ls.len() - i,
{
    if i < 0 || i >= ls.len() || field_line(ls[i]) is None {
        i
    } else {
        run_end(ls, i + 1)
    }
}

pub proof fn lemma_run_end_bounds(ls: Seq<Seq<char>>, i: int)
    requires
        0 <= i <= ls.len(),
    ensures
        i <= run_end(ls, i) <= ls.len(),
        forall|k: int| i <= k < run_end(ls, i) ==> field_line(#[trigger] ls[k]) is Some,
    decreases ls.len() - i,
{
    if i < ls.len() && field_line(ls[i]) is Some {
        lemma_run_end_bounds(ls, i + 1);
    }
}

/// The key of a field line.
pub open spec fn line_order_key(line: Seq<char>, key: SortKey) -> Seq<char> {
    match field_line(line) {
        Some((name, number)) => field_order_key(name, number, key),
        None => seq![],
    }
}

pub open spec fn run_keys(run: Seq<Seq<char>>, key: SortKey) -> Seq<Seq<char>> {
    run.map_values(|l: Seq<char>| line_order_key(l, key))
}

/// A run of field lines in stable key order.
pub open spec fn sorted_run(run: Seq<Seq<char>>, key: SortKey) -> Seq<Seq<char>> {
    stable_order(run_keys(run, key), run.len() as int).map_values(|j: int| run[j])
}

/// The lines from `i` on, with each maximal run of field lines sorted.
pub open spec fn field_runs(ls: Seq<Seq<char>>, key: SortKey, i: int) -> Seq<Seq<char>>
    decreases ls.len() - i,
{
    if i < 0 || i >= ls.len() {
        seq![]
    } else if field_line(ls[i]) is None {
        seq![ls[i]] + field_runs(ls, key, i + 1)
    } else {
        let e = run_end(ls, i + 1);
        proof {
            lemma_run_end_bounds(ls, i + 1);
        }
        sorted_run(ls.subrange(i, e), key) + field_runs(ls, key, e)
    }
}

/// `sort_proto`'s result: the whole text sorted as a scope, ending with a line
/// break when the input did.
pub open spec fn sorted_source(source: Seq<char>, key: SortKey) -> Result<Seq<char>, SortError> {
    match scope(lines(source), key) {
        Err(e) => Err(e),
        Ok(t) => Ok(
            if source.len() > 0 && source.last() == '\n' {
                t.push('\n')
            } else {
                t
            },
        ),
    }
}

// ---------------------------------------------------------------------------
// Reading lines
// ---------------------------------------------------------------------------
/// First index at or after `from` whose character ends a declaration's name.
fn name_end_at(s: &Vec<char>, from: usize) -> (r: usize)
    requires
        from <= s.len(),
    ensures
        from <= r <= s.len(),
        scan_until(s@.skip(from as int), 0, |c: char| ends_name(c)) == r - from,
{
    let mut i = from;
    while i < s.len() && !(is_space_char(s[i]) || s[i] == '{')
        invariant
            from <= i <= s.len(),
            forall|k: int| from <= k < i ==> !ends_name(#[trigger] s@[k]),
        decreases s.len() - i,
    {
        i += 1;
    }
    proof {
        let rest = s@.skip(from as int);
        let stop = |c: char| ends_name(c);
        assert forall|k: int| 0 <= k < i - from implies !stop(#[trigger] rest[k]) by {
            assert(rest[k] == s@[from + k]);
        }
        if i < s.len() {
            assert(rest[i - from] == s@[i as int]);
        }
        lemma_scan_until(rest, 0, i - from, stop);
    }
    i
}

/// `kind_declaration` for one keyword, on a line without leading whitespace.
fn kind_key(t: &Vec<char>, kind: &str) -> (r: Option<Vec<char>>)
    ensures
        r matches Some(k) ==> kind_declaration(t@, kind@) matches Some((kd, name)) && k@ == kd
            + ":"@ + name,
        r is None ==> kind_declaration(t@, kind@) is None,
{
    let kv = chars_of(kind);
    if !starts_with(t, kind) || t.len() <= kv.len() || !is_space_char(t[kv.len()]) {
        return None;
    }
    let r0 = skip_spaces(t, kv.len());
    let ne = name_end_at(t, r0);
    let ghost rest = trim_start(t@.skip(kv@.len() as int));
    proof {
        assert(rest =~= t@.skip(r0 as int));
        assert(rest.take(ne - r0) =~= t@.subrange(r0 as int, ne as int));
    }
    if ne > r0 && contains_char(t, '{') {
        let mut key = kv;
        key.push(':');
        let name = slice_of(t, r0, ne);
        push_all(&mut key, &name);
        proof {
            reveal_strlit(":");
            assert(key@ =~= kind@ + ":"@ + name@);
        }
        Some(key)
    } else {
        None
    }
}

/// The key `kind:name` of the `message` or `enum` block a line opens.
fn parse_declaration_key(line: &Vec<char>) -> (r: Option<Vec<char>>)
    ensures
        r matches Some(k) ==> declaration_key(line@) == Some(k@),
        r is None ==> declaration_key(line@) is None,
{
    let a = skip_spaces(line, 0);
    let t = slice_of(line, a, line.len());
    proof {
        assert(line@.skip(0) =~= line@);
        assert(t@ =~= trim_start(line@));
    }
    match kind_key(&t, "message") {
        Some(k) => Some(k),
        None => kind_key(&t, "enum"),
    }
}

pub proof fn lemma_word_start(s: Seq<char>, i: int, j: int)
    requires
        0 <= j <= i <= s.len(),
        forall|k: int| j <= k < i ==> !is_space(#[trigger] s[k]),
        j == 0 || is_space(s[j - 1]),
    ensures
        word_start(s, i) == j,
    decreases i - j,
{
    if i > j {
        lemma_word_start(s, i - 1, j);
    }
}

/// `skipped_line` on a trimmed line.
fn is_skipped_line(t: &Vec<char>) -> (r: bool)
    ensures
        r == skipped_line(t@),
{
    t.len() == 0 || starts_with(t, "//") || starts_with(t, "/*") || starts_with(t, "option ")
        || starts_with(t, "reserved ") || starts_with(t, "extensions ") || starts_with(t, "oneof ")
        || starts_with(t, "map<")
}

/// The name and number a field line declares.
fn parse_field(line: &Vec<char>) -> (r: Option<(Vec<char>, u32)>)
    ensures
        r matches Some((name, number)) ==> field_line(line@) == Some((name@, number)),
        r is None ==> field_line(line@) is None,
{
    let (a, b) = trim_bounds(line, 0, line.len());
    let t = slice_of(line, a, b);
    assert(line@.subrange(0, line@.len() as int) =~= line@);
    if is_skipped_line(&t) {
        return None;
    }
    let e = match find_char(&t, 0, '=') {
        Some(e) => e,
        None => {
            proof {
                lemma_scan_until(t@, 0, t@.len() as int, |c: char| c == '=');
            }
            return None;
        },
    };
    proof {
        lemma_scan_until(t@, 0, e as int, |c: char| c == '=');
    }
    let (la, lb) = trim_bounds(&t, 0, e);
    let (ra, rb) = trim_bounds(&t, e + 1, t.len());
    let ghost left = trim(t@.take(e as int));
    let ghost right = trim(t@.skip(e + 1));
    assert(t@.subrange(0, e as int) =~= t@.take(e as int));
    assert(t@.subrange(e + 1, t@.len() as int) =~= t@.skip(e + 1));
    let mut de = ra;
    while de < rb && '0' <= t[de] && t[de] <= '9'
        invariant
            ra <= de <= rb <= t.len(),
            forall|k: int| ra <= k < de ==> !non_digit(#[trigger] t@[k]),
        decreases rb - de,
    {
        de += 1;
    }
    proof {
        let stop = |c: char| non_digit(c);
        assert(right =~= t@.subrange(ra as int, rb as int));
        assert forall|k: int| 0 <= k < de - ra implies !stop(#[trigger] right[k]) by {
            assert(right[k] == t@[ra + k]);
        }
        if de < rb {
            assert(right[de - ra] == t@[de as int]);
        }
        lemma_scan_until(right, 0, de - ra, stop);
        assert(right.take(de - ra) =~= t@.subrange(ra as int, de as int));
    }
    let number = match parse_unsigned_at(&t, ra, de, 0xffff_ffffu64) {
        Some(n) => n as u32,
        None => {
            return None;
        },
    };
    if la == lb {
        assert(left.len() == 0);
        return None;
    }
    let mut ws = lb;
    while ws > la && !is_space_char(t[ws - 1])
        invariant
            la <= ws <= lb <= t.len(),
            forall|k: int| ws <= k < lb ==> !is_space(#[trigger] t@[k]),
        decreases ws,
    {
        ws -= 1;
    }
    proof {
        assert(left =~= t@.subrange(la as int, lb as int));
        assert forall|k: int| ws - la <= k < left.len() implies !is_space(#[trigger] left[k]) by {
            assert(left[k] == t@[la + k]);
        }
        if ws > la {
            assert(left[ws - la - 1] == t@[ws - 1]);
        }
        lemma_word_start(left, left.len() as int, ws - la);
        assert(left.skip(ws - la) =~= t@.subrange(ws as int, lb as int));
    }
    let name = slice_of(&t, ws, lb);
    Some((name, number))
}

pub open spec fn pow10(k: nat) -> nat
    decreases k,
{
    if k == 0 {
        1
    } else {
        10 * pow10((k - 1) as nat)
    }
}

pub proof fn lemma_decimal_len(n: nat, k: nat)
    requires
        k >= 1,
        n < pow10(k),
    ensures
        decimal(n).len() <= k,
    decreases k,
{
    if n >= 10 {
        let k1 = (k - 1) as nat;
        assert(n / 10 < pow10(k1)) by (nonlinear_arith)
            requires
                n < 10 * pow10(k1),
        ;
        if k1 == 0 {
            assert(pow10(0) == 1);
        } else {
            lemma_decimal_len(n / 10, k1);
        }
    }
}

/// The key a field line is ordered by (see [`field_order_key`]).
pub(crate) fn field_sort_key(name: &Vec<char>, number: u32, key: SortKey) -> (r: Vec<char>)
    ensures
        r@ == field_order_key(name@, number, key),
{
    match key {
        SortKey::Name => copy_line(name),
        SortKey::Number => {
            let mut digits: Vec<char> = Vec::new();
            push_decimal(&mut digits, number as u64);
            proof {
                reveal_with_fuel(pow10, 11);
                lemma_decimal_len(number as nat, 10);
            }
            let mut out: Vec<char> = Vec::new();
            let mut z: usize = digits.len();
            while z < 10
                invariant
                    digits.len() <= z <= 10,
                    out@ =~= Seq::new((z - digits.len()) as nat, |i: int| '0'),
                decreases 10 - z,
            {
                out.push('0');
                z += 1;
            }
            push_all(&mut out, &digits);
            out.push(':');
            push_all(&mut out, name);
            proof {
                reveal_strlit(":");
                assert(out@ =~= padded10(number as nat) + ":"@ + name@);
            }
            out
        },
    }
}

pub proof fn lemma_run_end(ls: Seq<Seq<char>>, i: int, e: int)
    requires
        0 <= i <= e <= ls.len(),
        forall|k: int| i <= k < e ==> field_line(#[trigger] ls[k]) is Some,
        e == ls.len() || field_line(ls[e]) is None,
    ensures
        run_end(ls, i) == e,
    decreases e - i,
{
    if i < e {
        lemma_run_end(ls, i + 1, e);
    }
}

/// Appends the lines `ls[start + order[j]]` for each `j`.
fn push_ordered(out: &mut Vec<Vec<char>>, ls: &Vec<Vec<char>>, start: usize, order: &Vec<usize>)
    requires
        forall|j: int| 0 <= j < order@.len() ==> start + #[trigger] order@[j] < ls@.len(),
    ensures
        lines_view(final(out)@) == lines_view(old(out)@) + order@.map_values(
            |j: usize| ls@[start + j]@,
        ),
{
    let ghost before = lines_view(out@);
    let mut j: usize = 0;
    while j < order.len()
        invariant
            j <= order@.len(),
            forall|m: int| 0 <= m < order@.len() ==> start + #[trigger] order@[m] < ls@.len(),
            lines_view(out@) == before + order@.take(j as int).map_values(|k: usize| ls@[start + k]@),
        decreases order.len() - j,
    {
        let idx = order[j];
        assert(start + order@[j as int] < ls@.len());
        assert(start + idx < ls.len());
        let line = copy_line(&ls[start + idx]);
        let ghost prev = lines_view(out@);
        out.push(line);
        assert(lines_view(out@) =~= prev.push(ls@[start + order@[j as int]]@));
        assert(order@.take(j + 1).map_values(|k: usize| ls@[start + k]@) =~= order@.take(
            j as int,
        ).map_values(|k: usize| ls@[start + k]@).push(ls@[start + order@[j as int]]@));
        j += 1;
    }
    assert(order@.take(j as int) =~= order@);
}

/// Reads the run of field lines starting at `start`, whose first line has key
/// `first`: returns the keys of its lines and where it ends.
fn collect_run(ls: &Vec<Vec<char>>, start: usize, key: SortKey, first: Vec<char>) -> (r: (
    Vec<Vec<char>>,
    usize,
))
    requires
        start < ls.len(),
        field_line(ls@[start as int]@) is Some,
        first@ == line_order_key(ls@[start as int]@, key),
    ensures
        r.1 == run_end(lines_view(ls@), start as int),
        start < r.1 <= ls.len(),
        keys_view(r.0@) == run_keys(lines_view(ls@).subrange(start as int, r.1 as int), key),
{
    let ghost v = lines_view(ls@);
    let mut keys: Vec<Vec<char>> = Vec::new();
    keys.push(first);
    let mut i = start + 1;
    while i < ls.len()
        invariant_except_break
            start < i <= ls.len(),
            v == lines_view(ls@),
            keys@.len() == i - start,
            forall|j: int|
                0 <= j < keys@.len() ==> #[trigger] keys@[j]@ == line_order_key(v[start + j], key),
            forall|k: int| start <= k < i ==> field_line(#[trigger] v[k]) is Some,
        ensures
            start < i <= ls.len(),
            keys@.len() == i - start,
            forall|j: int|
                0 <= j < keys@.len() ==> #[trigger] keys@[j]@ == line_order_key(v[start + j], key),
            forall|k: int| start <= k < i ==> field_line(#[trigger] v[k]) is Some,
            i == ls.len() || field_line(v[i as int]) is None,
        decreases ls.len() - i,
    {
        assert(v[i as int] == ls@[i as int]@);
        match parse_field(&ls[i]) {
            None => {
                break;
            },
            Some((name, number)) => {
                keys.push(field_sort_key(&name, number, key));
                i += 1;
            },
        }
    }
    proof {
        lemma_run_end(v, start as int, i as int);
        assert(run_keys(v.subrange(start as int, i as int), key) =~= keys_view(keys@));
    }
    (keys, i)
}

/// Sorts each maximal run of field lines (see [`field_runs`]).
#[verifier::rlimit(40)]
fn sort_field_runs(ls: &Vec<Vec<char>>, key: SortKey) -> (r: Vec<Vec<char>>)
    ensures
        lines_view(r@) == field_runs(lines_view(ls@), key, 0),
{
    let ghost v = lines_view(ls@);
    let mut out: Vec<Vec<char>> = Vec::new();
    let mut i: usize = 0;
    assert(lines_view(out@) =~= seq![]);
    while i < ls.len()
        invariant
            i <= ls.len(),
            v == lines_view(ls@),
            field_runs(v, key, 0) == lines_view(out@) + field_runs(v, key, i as int),
        decreases ls.len() - i,
    {
        assert(v[i as int] == ls@[i as int]@);
        let ghost before = lines_view(out@);
        match parse_field(&ls[i]) {
            None => {
                out.push(copy_line(&ls[i]));
                assert(lines_view(out@) =~= before.push(v[i as int]));
                assert(field_runs(v, key, i as int) == seq![v[i as int]] + field_runs(v, key, i + 1));
                assert(lines_view(out@) + field_runs(v, key, i + 1) =~= before + (seq![v[i as int]]
                    + field_runs(v, key, i + 1)));
                i += 1;
            },
            Some((name, number)) => {
                let start = i;
                let first = field_sort_key(&name, number, key);
                let (keys, end) = collect_run(ls, start, key, first);
                let ghost run = v.subrange(start as int, end as int);
                proof {
                    assert(run_end(v, start as int) == run_end(v, start + 1));
                    assert(keys_view(keys@).len() == keys@.len());
                    assert(keys@.len() == end - start);
                    lemma_stable_order_range(keys_view(keys@), keys@.len() as int);
                }
                let order = sort_order(&keys);
                proof {
                    let so = stable_order(keys_view(keys@), keys@.len() as int);
                    assert forall|j: int| 0 <= j < order@.len() implies start + #[trigger] order@[j]
                        < ls@.len() by {
                        assert(order@.map_values(|k: usize| k as int)[j] == order@[j] as int);
                        assert(0 <= so[j] < keys@.len());
                    }
                }
                push_ordered(&mut out, ls, start, &order);
                proof {
                    let so = stable_order(run_keys(run, key), run.len() as int);
                    assert(sorted_run(run, key) =~= order@.map_values(|j: usize| ls@[start + j]@))
                        by {
                        assert forall|m: int| 0 <= m < order@.len() implies #[trigger] sorted_run(
                            run,
                            key,
                        )[m] == order@.map_values(|j: usize| ls@[start + j]@)[m] by {
                            assert(order@.map_values(|k: usize| k as int)[m] == order@[m] as int);
                        }
                    }
                    assert(field_runs(v, key, start as int) == sorted_run(run, key) + field_runs(
                        v,
                        key,
                        end as int,
                    ));
                    assert(lines_view(out@) + field_runs(v, key, end as int) =~= before + (
                    sorted_run(run, key) + field_runs(v, key, end as int)));
                }
                i = end;
            },
        }
    }
    assert(field_runs(v, key, i as int) =~= seq![]);
    assert(lines_view(out@) + seq![] =~= lines_view(out@));
    out
}

// ---------------------------------------------------------------------------
// Blocks
// ---------------------------------------------------------------------------
/// Where a line's code ends (see [`code_end`]).
fn code_end_of(line: &Vec<char>) -> (r: usize)
    ensures
        r == code_end(line@),
        r <= line.len(),
{
    let pat = chars_of("//");
    match find_from(line, 0, &pat) {
        Some(i) => {
            proof {
                let p = |j: int|
                    occurs_at(line@, "//"@, j) && forall|k: int|
                        0 <= k < j ==> !occurs_at(line@, "//"@, k);
                assert(p(i as int));
                let c = choose|j: int|
                    occurs_at(line@, "//"@, j) && forall|k: int|
                        0 <= k < j ==> !occurs_at(line@, "//"@, k);
                assert(p(c));
                if c < i {
                    assert(!occurs_at(line@, "//"@, c));
                } else if c > i {
                    assert(!occurs_at(line@, "//"@, i as int));
                }
            }
            i
        },
        None => {
            proof {
                assert forall|j: int| !occurs_at(line@, "//"@, j) by {
                    if j < 0 {
                    }
                }
            }
            line.len()
        },
    }
}

/// The last line of the block that line `start` opens (see [`block_end`]).
fn find_block_end(ls: &Vec<Vec<char>>, start: usize) -> (r: Option<Option<usize>>)
    requires
        start < ls.len(),
    ensures
        r matches Some(Some(e)) ==> block_end(lines_view(ls@), start as int) == Some(Some(e as int)),
        r matches Some(None) ==> block_end(lines_view(ls@), start as int) == Some(None::<int>),
        r is None ==> block_end(lines_view(ls@), start as int) is None,
{
    let ghost v = lines_view(ls@);
    let mut depth: i32 = 0;
    let mut l = start;
    while l < ls.len()
        invariant
            start <= l <= ls.len(),
            v == lines_view(ls@),
            scan_block(v, start as int, 0, 0) == scan_block(v, l as int, 0, depth as int),
        decreases ls.len() - l,
    {
        let line = &ls[l];
        assert(v[l as int] == line@);
        let ce = code_end_of(line);
        let mut c: usize = 0;
        while c < ce
            invariant
                c <= ce <= line.len(),
                ce == code_end(v[l as int]),
                l < ls.len(),
                v == lines_view(ls@),
                line == &ls@[l as int],
                v[l as int] == line@,
                scan_block(v, start as int, 0, 0) == scan_block(v, l as int, c as int, depth as int),
            decreases ce - c,
        {
            let ch = line[c];
            if ch == '{' {
                if depth == i32::MAX {
                    return None;
                }
                depth += 1;
            } else if ch == '}' {
                if depth == i32::MIN {
                    return None;
                }
                depth -= 1;
                if depth == 0 {
                    return Some(Some(l));
                }
            }
            c += 1;
        }
        l += 1;
    }
    Some(None)
}

// ---------------------------------------------------------------------------
// Scopes
// ---------------------------------------------------------------------------
/// A declaration block placed in the output.
struct BlockSlot {
    pos: usize,
    key: Vec<char>,
    lines: Vec<Vec<char>>,
}

spec fn slot_view(s: BlockSlot) -> Slot {
    (s.pos as int, s.key@, lines_view(s.lines@))
}

spec fn slots_view(slots: Seq<BlockSlot>) -> Seq<Slot> {
    slots.map_values(|s: BlockSlot| slot_view(s))
}

/// Appends copies of `src[a..b]`.
fn push_lines(out: &mut Vec<Vec<char>>, src: &Vec<Vec<char>>, a: usize, b: usize)
    requires
        a <= b <= src.len(),
    ensures
        lines_view(final(out)@) == lines_view(old(out)@) + lines_view(src@).subrange(a as int, b as int),
{
    let ghost before = lines_view(out@);
    let mut i = a;
    while i < b
        invariant
            a <= i <= b <= src.len(),
            lines_view(out@) == before + lines_view(src@).subrange(a as int, i as int),
        decreases b - i,
    {
        let ghost prev = lines_view(out@);
        out.push(copy_line(&src[i]));
        assert(lines_view(out@) =~= prev.push(src@[i as int]@));
        assert(lines_view(src@).subrange(a as int, i + 1) =~= lines_view(src@).subrange(
            a as int,
            i as int,
        ).push(src@[i as int]@));
        i += 1;
    }
}

/// Lays the blocks out again in key order (see [`replace_slots`]).
fn replace_sorted_slots(out: &Vec<Vec<char>>, slots: &Vec<BlockSlot>) -> (r: Vec<Vec<char>>)
    requires
        laid_out(lines_view(out@), slots_view(slots@)),
    ensures
        lines_view(r@) == replace_slots(lines_view(out@), slots_view(slots@)),
{
    let ghost sv = slots_view(slots@);
    let ghost v0 = lines_view(out@);
    let mut res: Vec<Vec<char>> = Vec::new();
    if slots.len() < 2 {
        push_lines(&mut res, out, 0, out.len());
        assert(lines_view(res@) =~= v0);
        return res;
    }
    let mut keys: Vec<Vec<char>> = Vec::new();
    let mut j: usize = 0;
    while j < slots.len()
        invariant
            j <= slots.len(),
            sv == slots_view(slots@),
            keys@.len() == j,
            forall|m: int| 0 <= m < j ==> #[trigger] keys@[m]@ == sv[m].1,
        decreases slots.len() - j,
    {
        keys.push(copy_line(&slots[j].key));
        j += 1;
    }
    assert(keys_view(keys@) =~= slot_keys(sv));
    let ghost so = stable_order(slot_keys(sv), sv.len() as int);
    proof {
        lemma_stable_order_range(slot_keys(sv), sv.len() as int);
    }
    let order = sort_order(&keys);
    let mut from: usize = 0;
    let mut k: usize = 0;
    assert(lines_view(res@) =~= seq![]);
    while k < slots.len()
        invariant
            k <= slots.len(),
            slots.len() >= 2,
            v0 == lines_view(out@),
            sv == slots_view(slots@),
            sv.len() == slots.len(),
            laid_out(v0, sv),
            order@.len() == slots.len(),
            so == stable_order(slot_keys(sv), sv.len() as int),
            forall|m: int| 0 <= m < sv.len() ==> 0 <= #[trigger] so[m] < sv.len(),
            order@.map_values(|i: usize| i as int) == so,
            from <= out.len(),
            k < slots.len() ==> from <= sv[k as int].0,
            lines_view(res@) + relay(v0, sv, so, k as int, from as int) == relay(v0, sv, so, 0, 0),
        decreases slots.len() - k,
    {
        assert(sv[k as int] == slot_view(slots@[k as int]));
        let pos = slots[k].pos;
        let len = slots[k].lines.len();
        assert(sv[k as int].2.len() == len);
        let o = order[k];
        assert(order@.map_values(|i: usize| i as int)[k as int] == o as int);
        assert(0 <= so[k as int] < sv.len());
        assert(sv[o as int] == slot_view(slots@[o as int]));
        let ghost before = lines_view(res@);
        push_lines(&mut res, out, from, pos);
        push_lines(&mut res, &slots[o].lines, 0, slots[o].lines.len());
        assert(lines_view(slots@[o as int].lines@).subrange(0, slots@[o as int].lines@.len() as int)
            =~= sv[so[k as int]].2);
        assert(lines_view(res@) =~= before + v0.subrange(from as int, pos as int) + sv[so[k as int]].2);
        from = pos + len;
        if k + 1 < slots.len() {
            assert(sv[k as int].0 + sv[k as int].2.len() <= sv[k + 1].0);
        }
        k += 1;
    }
    let ghost before = lines_view(res@);
    push_lines(&mut res, out, from, out.len());
    assert(lines_view(res@) =~= before + v0.subrange(from as int, v0.len() as int));
    res
}

/// The block from line `i` to line `end`, with its inside sorted when it has
/// more than one line between the braces (see [`chunk_of`]).
fn block_chunk(ls: &Vec<Vec<char>>, key: SortKey, i: usize, end: usize) -> (r: Result<
    Vec<Vec<char>>,
    SortError,
>)
    requires
        i <= end < ls.len(),
    ensures
        r matches Ok(c) ==> chunk_of(lines_view(ls@), key, i as int, end as int) == Ok::<
            Seq<Seq<char>>,
            SortError,
        >(lines_view(c@)),
        r matches Err(e) ==> chunk_of(lines_view(ls@), key, i as int, end as int) == Err::<
            Seq<Seq<char>>,
            SortError,
        >(e),
    decreases ls.len(), 0int,
{
    let ghost v = lines_view(ls@);
    let mut chunk: Vec<Vec<char>> = Vec::new();
    if end > i + 1 {
        let mut inner_lines: Vec<Vec<char>> = Vec::new();
        push_lines(&mut inner_lines, ls, i + 1, end);
        assert(lines_view(inner_lines@) =~= v.subrange(i + 1, end as int));
        let inner = match sort_scope(&inner_lines, key) {
            Ok(t) => t,
            Err(e) => {
                return Err(e);
            },
        };
        let split = split_lines(&inner);
        assert(lines_view(split@) =~= lines(inner@));
        chunk.push(copy_line(&ls[i]));
        assert(lines_view(chunk@) =~= seq![v[i as int]]);
        push_lines(&mut chunk, &split, 0, split.len());
        assert(lines_view(split@).subrange(0, split@.len() as int) =~= lines(inner@));
        let ghost mid = lines_view(chunk@);
        assert(mid =~= seq![v[i as int]] + lines(inner@));
        chunk.push(copy_line(&ls[end]));
        assert(lines_view(chunk@) =~= mid.push(v[end as int]));
        assert(lines_view(chunk@) =~= seq![v[i as int]] + lines(inner@) + seq![v[end as int]]);
    } else {
        push_lines(&mut chunk, ls, i, end + 1);
        assert(lines_view(chunk@) =~= v.subrange(i as int, end + 1));
    }
    Ok(chunk)
}

/// Sorts a scope's lines (see [`scope`]).
fn sort_scope(ls: &Vec<Vec<char>>, key: SortKey) -> (r: Result<Vec<char>, SortError>)
    ensures
        r matches Ok(t) ==> scope(lines_view(ls@), key) == Ok::<Seq<char>, SortError>(t@),
        r matches Err(e) ==> scope(lines_view(ls@), key) == Err::<Seq<char>, SortError>(e),
    decreases ls.len(), 1int,
{
    let ghost v = lines_view(ls@);
    let mut out: Vec<Vec<char>> = Vec::new();
    let mut slots: Vec<BlockSlot> = Vec::new();
    let mut i: usize = 0;
    assert(lines_view(out@) =~= seq![]);
    assert(slots_view(slots@) =~= seq![]);
    while i < ls.len()
        invariant
            i <= ls.len(),
            v == lines_view(ls@),
            walk(v, key, 0, seq![], seq![]) == walk(
                v,
                key,
                i as int,
                lines_view(out@),
                slots_view(slots@),
            ),
        decreases ls.len() - i,
    {
        assert(v[i as int] == ls@[i as int]@);
        match parse_declaration_key(&ls[i]) {
            None => {
                let ghost prev = lines_view(out@);
                out.push(copy_line(&ls[i]));
                assert(lines_view(out@) =~= prev.push(v[i as int]));
                i += 1;
            },
            Some(k) => {
                let end = match find_block_end(ls, i) {
                    Some(Some(e)) => e,
                    Some(None) => i,
                    None => {
                        return Err(SortError::TooDeep);
                    },
                };
                proof {
                    lemma_block_end_bounds(v, i as int);
                }
                let chunk = match block_chunk(ls, key, i, end) {
                    Ok(c) => c,
                    Err(e) => {
                        return Err(e);
                    },
                };
                let ghost prev_out = lines_view(out@);
                let ghost prev_slots = slots_view(slots@);
                let pos = out.len();
                push_lines(&mut out, &chunk, 0, chunk.len());
                assert(lines_view(chunk@).subrange(0, chunk@.len() as int) =~= lines_view(chunk@));
                slots.push(BlockSlot { pos, key: k, lines: chunk });
                assert(slots_view(slots@) =~= prev_slots.push(
                    (prev_out.len() as int, k@, lines_view(chunk@)),
                ));
                i = end + 1;
            },
        }
    }
    proof {
        law_scope_blocks_laid_out(v, key);
    }
    let replaced = replace_sorted_slots(&out, &slots);
    let runs = sort_field_runs(&replaced, key);
    Ok(join_lines(&runs))
}

/// Sorts `.proto` text: `message` and `enum` blocks by `kind:name` within each
/// scope (insides first), and each run of field lines by `key`. The result ends
/// with a line break when the input did. It succeeds on every text of at most
/// `i32::MAX` characters, and on a text without carriage returns or empty lines
/// it keeps exactly the text's lines.
pub fn sort_proto(source: &str, field_key: SortKey) -> (r: Result<String, SortError>)
    ensures
        r matches Ok(t) ==> sorted_source(source@, field_key) == Ok::<Seq<char>, SortError>(t@),
        r matches Err(e) ==> sorted_source(source@, field_key) == Err::<Seq<char>, SortError>(e),
        source@.len() <= i32::MAX ==> r is Ok,
        (forall|k: int| 0 <= k < source@.len() ==> #[trigger] source@[k] != '\r') && (forall|i: int|
            0 <= i < lines(source@).len() ==> (#[trigger] lines(source@)[i]).len() > 0) ==> (
        r matches Ok(t) ==> lines(t@).to_multiset() == lines(source@).to_multiset()),
{
    proof {
        if source@.len() <= i32::MAX {
            law_sorting_succeeds(source@, field_key);
        }
        if (forall|k: int| 0 <= k < source@.len() ==> #[trigger] source@[k] != '\r') && (forall|i: int|
            0 <= i < lines(source@).len() ==> (#[trigger] lines(source@)[i]).len() > 0) {
            law_sorting_keeps_lines(source@, field_key);
        }
    }
    let chars = chars_of(source);
    let ls = split_lines(&chars);
    assert(lines_view(ls@) =~= lines(source@));
    let mut sorted = match sort_scope(&ls, field_key) {
        Ok(t) => t,
        Err(e) => {
            return Err(e);
        },
    };
    if chars.len() > 0 && chars[chars.len() - 1] == '\n' {
        sorted.push('\n');
    }
    Ok(string_of(sorted.as_slice()))
}

// ---------------------------------------------------------------------------
// Number keys
// ---------------------------------------------------------------------------
pub proof fn lemma_digit_char(d: nat)
    requires
        d < 10,
    ensures
        is_digit(digit_char(d)),
        digit_value(digit_char(d)) == d,
        digit_char(d) as u32 == 48 + d,
{
}

pub proof fn lemma_decimal_digits(n: nat)
    ensures
        all_digits(decimal(n)),
        digits_value(decimal(n)) == n,
        decimal(n).len() >= 1,
    decreases n,
{
    if n < 10 {
        lemma_digit_char(n);
        assert(decimal(n) == seq![digit_char(n)]);
        assert(decimal(n).drop_last() =~= seq![]);
        assert(decimal(n).last() == digit_char(n));
        assert(digits_value(decimal(n)) == digits_value(decimal(n).drop_last()) * 10 + digit_value(decimal(n).last()));
    } else {
        lemma_decimal_digits(n / 10);
        lemma_digit_char(n % 10);
        let s = decimal(n);
        assert(s.drop_last() =~= decimal(n / 10));
        assert(s.last() == digit_char(n % 10));
        assert(digits_value(s) == digits_value(decimal(n / 10)) * 10 + digit_value(digit_char(n % 10)));
        assert(n == (n / 10) * 10 + n % 10) by (nonlinear_arith);
        assert(digits_value(decimal(n / 10)) == n / 10);
        assert(digit_value(digit_char(n % 10)) == n % 10);
    }
}

pub proof fn lemma_zeros_value(z: nat, s: Seq<char>)
    ensures
        digits_value(Seq::new(z, |i: int| '0') + s) == digits_value(s) + digits_value(Seq::new(z, |i: int| '0')) * pow10(s.len()),
        digits_value(Seq::new(z, |i: int| '0')) == 0,
    decreases s.len(), z,
{
    if s.len() > 0 {
        lemma_zeros_value(z, s.drop_last());
        assert((Seq::new(z, |i: int| '0') + s).drop_last() =~= Seq::new(z, |i: int| '0') + s.drop_last());
        assert(pow10(s.len()) == 10 * pow10(s.drop_last().len()));
    } else {
        assert(Seq::new(z, |i: int| '0') + s =~= Seq::new(z, |i: int| '0'));
        if z > 0 {
            lemma_zeros_value((z - 1) as nat, seq![]);
            assert(Seq::new(z, |i: int| '0').drop_last() =~= Seq::new((z - 1) as nat, |i: int| '0'));
            assert(Seq::new((z - 1) as nat, |i: int| '0') + seq![] =~= Seq::new((z - 1) as nat, |i: int| '0'));
            assert(digit_value('0') == 0);
        }
    }
}

/// `padded10(n)` is ten decimal digits worth `n`.
pub proof fn lemma_padded10(n: nat)
    requires
        n <= u32::MAX,
    ensures
        padded10(n).len() == 10,
        all_digits(padded10(n)),
        digits_value(padded10(n)) == n,
{
    reveal_with_fuel(pow10, 11);
    lemma_decimal_len(n, 10);
    lemma_decimal_digits(n);
    let z = (10 - decimal(n).len()) as nat;
    lemma_zeros_value(z, decimal(n));
    assert forall|i: int| 0 <= i < padded10(n).len() implies is_digit(#[trigger] padded10(n)[i]) by {
        if i >= z {
            assert(padded10(n)[i] == decimal(n)[i - z]);
        }
    }
}

/// Equal digit strings of equal length have equal values, and the other way round.
pub proof fn lemma_digits_injective(s: Seq<char>, t: Seq<char>)
    requires
        s.len() == t.len(),
        all_digits(s),
        all_digits(t),
        digits_value(s) == digits_value(t),
    ensures
        s == t,
    decreases s.len(),
{
    if s.len() > 0 {
        let a = s.drop_last();
        let b = t.drop_last();
        assert(all_digits(a));
        assert(all_digits(b));
        assert(is_digit(s.last()));
        assert(is_digit(t.last()));
        let x = digits_value(a);
        let y = digits_value(b);
        let c = digit_value(s.last());
        let d = digit_value(t.last());
        assert(c < 10 && d < 10);
        assert(x * 10 + c == y * 10 + d);
        assert(x == y && c == d) by (nonlinear_arith)
            requires
                x * 10 + c == y * 10 + d,
                c < 10,
                d < 10,
        ;
        lemma_digits_injective(a, b);
        assert(s.last() == t.last()) by {
            vstd::utf8::char_u32_cast(s.last(), s.last() as u32);
            vstd::utf8::char_u32_cast(t.last(), t.last() as u32);
        }
        assert(s =~= a.push(s.last()));
        assert(t =~= b.push(t.last()));
    } else {
        assert(s =~= t);
    }
}

/// `p` followed by `x` sorts before `p` followed by `y` when `x` is the smaller character.
pub proof fn lemma_lex_last(p: Seq<char>, x: char, y: char)
    requires
        (x as u32) < (y as u32),
    ensures
        lex_lt(p.push(x), p.push(y)),
    decreases p.len(),
{
    if p.len() > 0 {
        lemma_lex_last(p.drop_first(), x, y);
        assert(p.push(x).drop_first() =~= p.drop_first().push(x));
        assert(p.push(y).drop_first() =~= p.drop_first().push(y));
    }
}

/// Two texts of equal length in order stay in order when extended.
pub proof fn lemma_lex_extend(a: Seq<char>, b: Seq<char>, u: Seq<char>, w: Seq<char>)
    requires
        a.len() == b.len(),
        lex_lt(a, b),
    ensures
        lex_lt(a + u, b + w),
    decreases a.len(),
{
    if a.len() > 0 && a[0] == b[0] {
        lemma_lex_extend(a.drop_first(), b.drop_first(), u, w);
        assert((a + u).drop_first() =~= a.drop_first() + u);
        assert((b + w).drop_first() =~= b.drop_first() + w);
    }
}

/// Among digit strings of one length, the smaller value sorts first.
pub proof fn lemma_digits_order(s: Seq<char>, t: Seq<char>)
    requires
        s.len() == t.len(),
        all_digits(s),
        all_digits(t),
        digits_value(s) < digits_value(t),
    ensures
        lex_lt(s, t),
    decreases s.len(),
{
    if s.len() > 0 {
        let a = s.drop_last();
        let b = t.drop_last();
        assert(all_digits(a));
        assert(all_digits(b));
        assert(is_digit(s.last()));
        assert(is_digit(t.last()));
        let x = digits_value(a);
        let y = digits_value(b);
        let c = digit_value(s.last());
        let d = digit_value(t.last());
        assert(c < 10 && d < 10);
        assert(s =~= a.push(s.last()));
        assert(t =~= b.push(t.last()));
        if x < y {
            lemma_digits_order(a, b);
            lemma_lex_extend(a, b, seq![s.last()], seq![t.last()]);
            assert(a + seq![s.last()] =~= s);
            assert(b + seq![t.last()] =~= t);
        } else if x == y {
            lemma_digits_injective(a, b);
            assert(c < d);
            lemma_lex_last(a, s.last(), t.last());
        } else {
            assert(x * 10 + c > y * 10 + d) by (nonlinear_arith)
                requires
                    x > y,
                    c < 10,
                    d < 10,
            ;
        }
    }
}

/// Ordering fields by number: a field with a smaller number has a smaller key,
/// whatever the two names.
pub proof fn law_number_keys_follow_numbers(a: u32, b: u32, x: Seq<char>, y: Seq<char>)
    requires
        a < b,
    ensures
        lex_lt(field_order_key(x, a, SortKey::Number), field_order_key(y, b, SortKey::Number)),
{
    lemma_padded10(a as nat);
    lemma_padded10(b as nat);
    lemma_digits_order(padded10(a as nat), padded10(b as nat));
    lemma_lex_extend(padded10(a as nat), padded10(b as nat), ":"@ + x, ":"@ + y);
    assert(field_order_key(x, a, SortKey::Number) =~= padded10(a as nat) + (":"@ + x));
    assert(field_order_key(y, b, SortKey::Number) =~= padded10(b as nat) + (":"@ + y));
}

/// A sorted run of field lines holds the same lines, each once, in key order,
/// lines with equal keys in their original order.
pub proof fn law_sorted_run_in_order(run: Seq<Seq<char>>, key: SortKey)
    ensures
        sorted_run(run, key).len() == run.len(),
        forall|i: int, j: int|
            0 <= i < j < run.len() ==> crate::text::lex_le(
                #[trigger] line_order_key(sorted_run(run, key)[i], key),
                #[trigger] line_order_key(sorted_run(run, key)[j], key),
            ),
        forall|i: int|
            0 <= i < run.len() ==> exists|j: int|
                0 <= j < run.len() && #[trigger] sorted_run(run, key)[i] == run[j],
{
    let keys = run_keys(run, key);
    let o = stable_order(keys, run.len() as int);
    crate::sorting::law_stable_order_sorts(keys, run.len() as int);
    assert forall|i: int, j: int| 0 <= i < j < run.len() implies crate::text::lex_le(
        #[trigger] line_order_key(sorted_run(run, key)[i], key),
        #[trigger] line_order_key(sorted_run(run, key)[j], key),
    ) by {
        assert(sorted_run(run, key)[i] == run[o[i]]);
        assert(sorted_run(run, key)[j] == run[o[j]]);
        assert(crate::text::lex_le(keys[o[i]], keys[o[j]]));
    }
    assert forall|i: int| 0 <= i < run.len() implies exists|j: int|
        0 <= j < run.len() && #[trigger] sorted_run(run, key)[i] == run[j] by {
        assert(sorted_run(run, key)[i] == run[o[i]]);
    }
}

// ---------------------------------------------------------------------------
// Block placement
// ---------------------------------------------------------------------------
/// The lines a slot covers in `ls`.
pub open spec fn slot_lines(ls: Seq<Seq<char>>, s: Slot) -> Seq<Seq<char>> {
    ls.subrange(s.0, s.0 + s.2.len())
}

/// The slots cover disjoint ranges of `out`, in order, each holding its block.
pub open spec fn laid_out(out: Seq<Seq<char>>, slots: Seq<Slot>) -> bool {
    &&& forall|j: int|
        0 <= j < slots.len() ==> 0 <= (#[trigger] slots[j]).0 && slots[j].0 + slots[j].2.len()
            <= out.len() && slot_lines(out, slots[j]) == slots[j].2
    &&& forall|a: int, b: int|
        0 <= a < b < slots.len() ==> (#[trigger] slots[a]).0 + slots[a].2.len() <= (#[trigger] slots[b]).0
}

/// Reading a scope lays its blocks out in the output as the slots say.
pub proof fn lemma_walk_laid_out(ls: Seq<Seq<char>>, key: SortKey, i: int, out: Seq<Seq<char>>, slots: Seq<Slot>)
    requires
        laid_out(out, slots),
    ensures
        walk(ls, key, i, out, slots) matches Ok((o2, s2)) ==> laid_out(o2, s2),
    decreases ls.len() - i,
{
    if 0 <= i < ls.len() {
        match declaration_key(ls[i]) {
            None => {
                let o1 = out.push(ls[i]);
                assert forall|j: int| 0 <= j < slots.len() implies slot_lines(o1, #[trigger] slots[j])
                    == slots[j].2 by {
                    assert(slot_lines(o1, slots[j]) =~= slot_lines(out, slots[j]));
                }
                lemma_walk_laid_out(ls, key, i + 1, o1, slots);
            },
            Some(k) => match block_end(ls, i) {
                None => {},
                Some(found) => {
                    let end = match found {
                        Some(e) => e,
                        None => i,
                    };
                    lemma_block_end_bounds(ls, i);
                    match chunk_of(ls, key, i, end) {
                        Err(_) => {},
                        Ok(c) => {
                            let o1 = out + c;
                            let s1 = slots.push((out.len() as int, k, c));
                            assert forall|j: int| 0 <= j < s1.len() implies 0 <= (#[trigger] s1[j]).0
                                && s1[j].0 + s1[j].2.len() <= o1.len() && slot_lines(o1, s1[j]) == s1[j].2 by {
                                if j < slots.len() {
                                    assert(s1[j] == slots[j]);
                                    assert(slot_lines(o1, slots[j]) =~= slot_lines(out, slots[j]));
                                } else {
                                    assert(slot_lines(o1, s1[j]) =~= c);
                                }
                            }
                            assert forall|a: int, b: int| 0 <= a < b < s1.len() implies (#[trigger] s1[a]).0
                                + s1[a].2.len() <= (#[trigger] s1[b]).0 by {
                                if b < slots.len() {
                                    assert(s1[a] == slots[a] && s1[b] == slots[b]);
                                } else {
                                    assert(s1[a] == slots[a]);
                                }
                            }
                            lemma_walk_laid_out(ls, key, end + 1, o1, s1);
                        },
                    }
                },
            },
        }
    }
}

/// The lines of the blocks `idx[0]`, `idx[1]`, ..., counted with repetition.
pub open spec fn blocks_lines(slots: Seq<Slot>, idx: Seq<int>) -> Multiset<Seq<char>>
    decreases idx.len(),
{
    if idx.len() == 0 {
        Multiset::empty()
    } else {
        slots[idx[0]].2.to_multiset().add(blocks_lines(slots, idx.skip(1)))
    }
}

/// The block indices `0, 1, ..., n - 1` in their original order.
pub open spec fn in_place(n: int) -> Seq<int> {
    Seq::new(n as nat, |i: int| i)
}

proof fn lemma_blocks_lines_insert(slots: Seq<Slot>, idx: Seq<int>, p: int, x: int)
    requires
        0 <= p <= idx.len(),
    ensures
        blocks_lines(slots, idx.insert(p, x)) =~= blocks_lines(slots, idx).add(
            slots[x].2.to_multiset(),
        ),
    decreases idx.len(),
{
    broadcast use vstd::multiset::group_multiset_axioms;

    let ins = idx.insert(p, x);
    if p == 0 {
        assert(ins.skip(1) =~= idx);
        if idx.len() > 0 {
            assert(blocks_lines(slots, idx) == slots[idx[0]].2.to_multiset().add(
                blocks_lines(slots, idx.skip(1)),
            ));
        } else {
            assert(blocks_lines(slots, idx) == Multiset::<Seq<char>>::empty());
        }
    } else {
        assert(ins[0] == idx[0]);
        assert(ins.skip(1) =~= idx.skip(1).insert(p - 1, x));
        lemma_blocks_lines_insert(slots, idx.skip(1), p - 1, x);
    }
}

proof fn lemma_stable_blocks_lines(slots: Seq<Slot>, keys: Seq<Seq<char>>, n: int)
    requires
        0 <= n,
    ensures
        blocks_lines(slots, stable_order(keys, n)) =~= blocks_lines(slots, in_place(n)),
    decreases n,
{
    if n > 0 {
        let o = stable_order(keys, n - 1);
        lemma_stable_order_range(keys, n - 1);
        lemma_insert_position_bounds(o, keys, keys[n - 1], 0);
        lemma_stable_blocks_lines(slots, keys, n - 1);
        lemma_blocks_lines_insert(slots, o, insert_position(o, keys, keys[n - 1], 0), n - 1);
        assert(in_place(n) =~= in_place(n - 1).insert(n - 1, n - 1));
        lemma_blocks_lines_insert(slots, in_place(n - 1), n - 1, n - 1);
    }
}

proof fn lemma_relay_lines(out: Seq<Seq<char>>, slots: Seq<Slot>, o: Seq<int>, id: Seq<int>, k: int, from: int)
    requires
        o.len() == slots.len(),
        id.len() == slots.len(),
        0 <= k <= slots.len(),
    ensures
        relay(out, slots, o, k, from).to_multiset().add(blocks_lines(slots, id.skip(k))) =~= relay(
            out,
            slots,
            id,
            k,
            from,
        ).to_multiset().add(blocks_lines(slots, o.skip(k))),
    decreases slots.len() - k,
{
    broadcast use vstd::multiset::group_multiset_axioms;

    if k < slots.len() {
        let next = slots[k].0 + slots[k].2.len();
        lemma_relay_lines(out, slots, o, id, k + 1, next);
        assert(o.skip(k).skip(1) =~= o.skip(k + 1));
        assert(id.skip(k).skip(1) =~= id.skip(k + 1));
        let gap = out.subrange(from, slots[k].0);
        let ro1 = relay(out, slots, o, k + 1, next);
        let ri1 = relay(out, slots, id, k + 1, next);
        assert(relay(out, slots, o, k, from) == gap + slots[o[k]].2 + ro1);
        assert(relay(out, slots, id, k, from) == gap + slots[id[k]].2 + ri1);
        vstd::seq_lib::lemma_multiset_commutative(gap, slots[o[k]].2);
        vstd::seq_lib::lemma_multiset_commutative(gap + slots[o[k]].2, ro1);
        vstd::seq_lib::lemma_multiset_commutative(gap, slots[id[k]].2);
        vstd::seq_lib::lemma_multiset_commutative(gap + slots[id[k]].2, ri1);
        assert(o.skip(k)[0] == o[k]);
        assert(id.skip(k)[0] == id[k]);
        let bo = slots[o[k]].2.to_multiset();
        let bi = slots[id[k]].2.to_multiset();
        assert(blocks_lines(slots, o.skip(k)) == bo.add(blocks_lines(slots, o.skip(k + 1))));
        assert(blocks_lines(slots, id.skip(k)) == bi.add(blocks_lines(slots, id.skip(k + 1))));
        let g = gap.to_multiset();
        let lhs = relay(out, slots, o, k, from).to_multiset().add(blocks_lines(slots, id.skip(k)));
        let rhs = relay(out, slots, id, k, from).to_multiset().add(blocks_lines(slots, o.skip(k)));
        let bo1 = blocks_lines(slots, o.skip(k + 1));
        let bi1 = blocks_lines(slots, id.skip(k + 1));
        assert(ro1.to_multiset().add(bi1) == ri1.to_multiset().add(bo1));
        assert(lhs =~= g.add(bo).add(bi).add(ro1.to_multiset().add(bi1)));
        assert(rhs =~= g.add(bo).add(bi).add(ri1.to_multiset().add(bo1)));
    } else {
        assert(o.skip(k).len() == 0);
        assert(id.skip(k).len() == 0);
        assert(blocks_lines(slots, o.skip(k)) == Multiset::<Seq<char>>::empty());
        assert(blocks_lines(slots, id.skip(k)) == Multiset::<Seq<char>>::empty());
    }
}

proof fn lemma_relay_in_place(out: Seq<Seq<char>>, slots: Seq<Slot>, k: int, from: int)
    requires
        laid_out(out, slots),
        0 <= k <= slots.len(),
        0 <= from <= out.len(),
        k < slots.len() ==> from <= slots[k].0,
    ensures
        relay(out, slots, in_place(slots.len() as int), k, from) == out.subrange(from, out.len() as int),
    decreases slots.len() - k,
{
    if k < slots.len() {
        let next = slots[k].0 + slots[k].2.len();
        if k + 1 < slots.len() {
            assert(slots[k].0 + slots[k].2.len() <= slots[k + 1].0);
        }
        lemma_relay_in_place(out, slots, k + 1, next);
        assert(slot_lines(out, slots[k]) == slots[k].2);
        assert(in_place(slots.len() as int)[k] == k);
        assert(out.subrange(from, slots[k].0) + slots[k].2 + out.subrange(next, out.len() as int)
            =~= out.subrange(from, out.len() as int));
    }
}

/// Sorting a scope's blocks: the blocks are laid out again, one after another, in
/// key order, blocks of equal keys in their original order, with the lines between
/// blocks kept between them; whatever the blocks' lengths, the scope keeps exactly
/// its lines, each as often as before.
pub proof fn law_blocks_take_sorted_places(out: Seq<Seq<char>>, slots: Seq<Slot>)
    requires
        laid_out(out, slots),
    ensures
        replace_slots(out, slots).to_multiset() == out.to_multiset(),
        slots.len() >= 2 ==> ({
            let o = stable_order(slot_keys(slots), slots.len() as int);
            &&& replace_slots(out, slots) == relay(out, slots, o, 0, 0)
            &&& is_permutation(o, slots.len() as int)
            &&& is_sorted_by(o, slot_keys(slots))
            &&& is_stable_by(o, slot_keys(slots))
        }),
{
    broadcast use vstd::multiset::group_multiset_axioms;

    if slots.len() >= 2 {
        let n = slots.len() as int;
        let keys = slot_keys(slots);
        let o = stable_order(keys, n);
        let id = in_place(n);
        crate::sorting::law_stable_order_sorts(keys, n);
        lemma_stable_order_range(keys, n);
        lemma_relay_lines(out, slots, o, id, 0, 0);
        assert(o.skip(0) =~= o);
        assert(id.skip(0) =~= id);
        lemma_stable_blocks_lines(slots, keys, n);
        lemma_relay_in_place(out, slots, 0, 0);
        assert(out.subrange(0, out.len() as int) =~= out);
        let x = blocks_lines(slots, id);
        let r = relay(out, slots, o, 0, 0).to_multiset();
        assert(r.add(x) =~= out.to_multiset().add(x));
        assert forall|v: Seq<char>| r.count(v) == out.to_multiset().count(v) by {
            assert(r.add(x).count(v) == out.to_multiset().add(x).count(v));
        }
        assert(r =~= out.to_multiset());
    }
}

/// Reading a scope from its first line lays its blocks out as the slots say.
pub proof fn law_scope_blocks_laid_out(ls: Seq<Seq<char>>, key: SortKey)
    ensures
        walk(ls, key, 0, seq![], seq![]) matches Ok((out, slots)) ==> laid_out(out, slots),
{
    lemma_walk_laid_out(ls, key, 0, seq![], seq![]);
}


// ---------------------------------------------------------------------------
// Sorting keeps the lines
// ---------------------------------------------------------------------------
proof fn lemma_picked_insert(run: Seq<Seq<char>>, idx: Seq<int>, p: int, x: int)
    requires
        0 <= p <= idx.len(),
    ensures
        idx.insert(p, x).map_values(|j: int| run[j]).to_multiset() == idx.map_values(
            |j: int| run[j],
        ).to_multiset().insert(run[x]),
{
    broadcast use vstd::seq_lib::group_to_multiset_ensures;

    let f = |j: int| run[j];
    assert(idx.insert(p, x).map_values(f) =~= idx.map_values(f).insert(p, run[x]));
}

proof fn lemma_stable_picked(run: Seq<Seq<char>>, keys: Seq<Seq<char>>, n: int)
    requires
        0 <= n <= run.len(),
    ensures
        stable_order(keys, n).map_values(|j: int| run[j]).to_multiset() == run.take(n).to_multiset(),
    decreases n,
{
    broadcast use vstd::seq_lib::group_to_multiset_ensures;

    if n > 0 {
        let o = stable_order(keys, n - 1);
        lemma_stable_order_range(keys, n - 1);
        lemma_insert_position_bounds(o, keys, keys[n - 1], 0);
        lemma_stable_picked(run, keys, n - 1);
        lemma_picked_insert(run, o, insert_position(o, keys, keys[n - 1], 0), n - 1);
        assert(run.take(n) =~= run.take(n - 1).push(run[n - 1]));
    } else {
        assert(stable_order(keys, n).map_values(|j: int| run[j]) =~= seq![]);
        assert(run.take(n) =~= seq![]);
    }
}

proof fn lemma_field_runs_lines(ls: Seq<Seq<char>>, key: SortKey, i: int)
    requires
        0 <= i <= ls.len(),
    ensures
        field_runs(ls, key, i).to_multiset() == ls.skip(i).to_multiset(),
    decreases ls.len() - i,
{
    broadcast use vstd::seq_lib::group_to_multiset_ensures;

    if i < ls.len() {
        if field_line(ls[i]) is None {
            lemma_field_runs_lines(ls, key, i + 1);
            vstd::seq_lib::lemma_multiset_commutative(seq![ls[i]], field_runs(ls, key, i + 1));
            vstd::seq_lib::lemma_multiset_commutative(seq![ls[i]], ls.skip(i + 1));
            assert(ls.skip(i) =~= seq![ls[i]] + ls.skip(i + 1));
        } else {
            let e = run_end(ls, i + 1);
            lemma_run_end_bounds(ls, i + 1);
            lemma_field_runs_lines(ls, key, e);
            let run = ls.subrange(i, e);
            lemma_stable_picked(run, run_keys(run, key), run.len() as int);
            assert(run.take(run.len() as int) =~= run);
            vstd::seq_lib::lemma_multiset_commutative(sorted_run(run, key), field_runs(ls, key, e));
            vstd::seq_lib::lemma_multiset_commutative(run, ls.skip(e));
            assert(ls.skip(i) =~= run + ls.skip(e));
        }
    } else {
        assert(ls.skip(i) =~= seq![]);
    }
}

/// Lines of `a` that all lines of `b` share: the same multiset keeps plain lines plain.
proof fn lemma_plain_by_multiset(a: Seq<Seq<char>>, b: Seq<Seq<char>>)
    requires
        a.to_multiset() == b.to_multiset(),
        all_plain(b),
    ensures
        all_plain(a),
{
    broadcast use vstd::seq_lib::group_to_multiset_ensures;

    assert forall|i: int| 0 <= i < a.len() implies (#[trigger] a[i]).len() > 0 && no_break(a[i]) by {
        assert(a.contains(a[i]));
        assert(a.to_multiset().count(a[i]) > 0);
        assert(b.contains(a[i]));
        let j = choose|j: int| 0 <= j < b.len() && b[j] == a[i];
        assert(all_plain(b) ==> b[j].len() > 0 && no_break(b[j]));
    }
}

proof fn lemma_no_lines_ms()
    ensures
        Seq::<Seq<char>>::empty().to_multiset() == Multiset::<Seq<char>>::empty(),
{
    vstd::seq_lib::to_multiset_len(Seq::<Seq<char>>::empty());
    vstd::multiset::lemma_multiset_empty_len(Seq::<Seq<char>>::empty().to_multiset());
}

proof fn lemma_scope_lines(ls: Seq<Seq<char>>, key: SortKey)
    requires
        all_plain(ls),
    ensures
        scope(ls, key) matches Ok(t) ==> lines(t).to_multiset() == ls.to_multiset() && all_plain(
            lines(t),
        ),
    decreases ls.len(), 1int, 0int,
{
    lemma_walk_lines(ls, key, 0, seq![], seq![]);
    if let Ok((out, slots)) = walk(ls, key, 0, seq![], seq![]) {
        assert(ls.skip(0) =~= ls);
        lemma_no_lines_ms();
        assert(out.to_multiset() =~= ls.to_multiset()) by {
            broadcast use vstd::multiset::group_multiset_axioms;
        }
        law_scope_blocks_laid_out(ls, key);
        law_blocks_take_sorted_places(out, slots);
        let replaced = replace_slots(out, slots);
        lemma_field_runs_lines(replaced, key, 0);
        assert(replaced.skip(0) =~= replaced);
        let fr = field_runs(replaced, key, 0);
        lemma_plain_by_multiset(fr, ls);
        crate::text::lemma_lines_join(fr);
    }
}

#[verifier::rlimit(40)]
proof fn lemma_chunk_lines(ls: Seq<Seq<char>>, key: SortKey, i: int, end: int)
    requires
        all_plain(ls),
        0 <= i <= end < ls.len(),
    ensures
        chunk_of(ls, key, i, end) matches Ok(c) ==> c.to_multiset() == ls.subrange(i, end + 1).to_multiset(),
    decreases ls.len(), 0int, 0int,
{
    if i + 1 < end {
        let inner_ls = ls.subrange(i + 1, end);
        assert forall|k: int| 0 <= k < inner_ls.len() implies (#[trigger] inner_ls[k]).len() > 0
            && no_break(inner_ls[k]) by {
            assert(inner_ls[k] == ls[i + 1 + k]);
        }
        lemma_scope_lines(inner_ls, key);
        if let Ok(inner) = scope(inner_ls, key) {
            let mid = lines(inner);
            vstd::seq_lib::lemma_multiset_commutative(seq![ls[i]], mid);
            vstd::seq_lib::lemma_multiset_commutative(seq![ls[i]] + mid, seq![ls[end]]);
            vstd::seq_lib::lemma_multiset_commutative(seq![ls[i]], inner_ls);
            vstd::seq_lib::lemma_multiset_commutative(seq![ls[i]] + inner_ls, seq![ls[end]]);
            assert(ls.subrange(i, end + 1) =~= seq![ls[i]] + inner_ls + seq![ls[end]]);
        }
    }
}

proof fn lemma_walk_lines(ls: Seq<Seq<char>>, key: SortKey, i: int, out: Seq<Seq<char>>, slots: Seq<Slot>)
    requires
        all_plain(ls),
        0 <= i <= ls.len(),
    ensures
        walk(ls, key, i, out, slots) matches Ok((o2, s2)) ==> o2.to_multiset() == out.to_multiset().add(
            ls.skip(i).to_multiset(),
        ),
    decreases ls.len(), 0int, ls.len() - i + 1,
{
    if i < ls.len() {
        match declaration_key(ls[i]) {
            None => {
                let o1 = out.push(ls[i]);
                lemma_walk_lines(ls, key, i + 1, o1, slots);
                vstd::seq_lib::to_multiset_build(out, ls[i]);
                assert(ls.skip(i) =~= ls.skip(i + 1).insert(0, ls[i]));
                vstd::seq_lib::to_multiset_insert(ls.skip(i + 1), 0, ls[i]);
                if let Ok((o2, _)) = walk(ls, key, i + 1, o1, slots) {
                    assert(o2.to_multiset() =~= out.to_multiset().add(ls.skip(i).to_multiset())) by {
                        broadcast use vstd::multiset::group_multiset_axioms;
                    }
                }
            },
            Some(k) => match block_end(ls, i) {
                None => {},
                Some(found) => {
                    let end = match found {
                        Some(e) => e,
                        None => i,
                    };
                    lemma_block_end_bounds(ls, i);
                    lemma_chunk_lines(ls, key, i, end);
                    if let Ok(c) = chunk_of(ls, key, i, end) {
                        let o1 = out + c;
                        let s1 = slots.push((out.len() as int, k, c));
                        lemma_walk_lines(ls, key, end + 1, o1, s1);
                        vstd::seq_lib::lemma_multiset_commutative(out, c);
                        vstd::seq_lib::lemma_multiset_commutative(ls.subrange(i, end + 1), ls.skip(end + 1));
                        assert(ls.skip(i) =~= ls.subrange(i, end + 1) + ls.skip(end + 1));
                        if let Ok((o2, _)) = walk(ls, key, end + 1, o1, s1) {
                            assert(o2.to_multiset() =~= out.to_multiset().add(ls.skip(i).to_multiset())) by {
                                broadcast use vstd::multiset::group_multiset_axioms;
                            }
                        }
                    }
                },
            },
        }
    } else {
        assert(ls.skip(i) =~= seq![]);
        vstd::seq_lib::to_multiset_len(ls.skip(i));
        vstd::multiset::lemma_multiset_empty_len(ls.skip(i).to_multiset());
        assert(out.to_multiset().add(ls.skip(i).to_multiset()) =~= out.to_multiset()) by {
            broadcast use vstd::multiset::group_multiset_axioms;
        }
    }
}

/// Sorting keeps the lines: on a text without carriage returns or empty lines,
/// `sort_proto` puts out the same lines, each as often as before, and ends with a
/// line break exactly when the text did.
pub proof fn law_sorting_keeps_lines(source: Seq<char>, key: SortKey)
    requires
        forall|k: int| 0 <= k < source.len() ==> #[trigger] source[k] != '\r',
        forall|i: int| 0 <= i < lines(source).len() ==> (#[trigger] lines(source)[i]).len() > 0,
    ensures
        sorted_source(source, key) matches Ok(r) ==> lines(r).to_multiset() == lines(source).to_multiset()
            && ((r.len() > 0 && r.last() == '\n') == (source.len() > 0 && source.last() == '\n')),
{
    let ls = lines(source);
    crate::text::lemma_lines_no_break(source);
    lemma_scope_lines(ls, key);
    if let Ok(t) = scope(ls, key) {
        let fr = lines(t);
        if let Ok((out, slots)) = walk(ls, key, 0, seq![], seq![]) {
            law_scope_blocks_laid_out(ls, key);
            law_blocks_take_sorted_places(out, slots);
            let x = field_runs(replace_slots(out, slots), key, 0);
            lemma_walk_lines(ls, key, 0, seq![], seq![]);
            lemma_field_runs_lines(replace_slots(out, slots), key, 0);
            assert(replace_slots(out, slots).skip(0) =~= replace_slots(out, slots));
            assert(ls.skip(0) =~= ls);
            lemma_no_lines_ms();
            assert(out.to_multiset() =~= ls.to_multiset()) by {
                broadcast use vstd::multiset::group_multiset_axioms;
            }
            lemma_plain_by_multiset(x, ls);
            crate::text::lemma_lines_join(x);
            assert(t == join(x));
            if source.len() > 0 && source.last() == '\n' {
                vstd::seq_lib::to_multiset_len(x);
                vstd::seq_lib::to_multiset_len(ls);
                reveal_strlit("\n");
                assert(t.push('\n') =~= join(x) + "\n"@);
            } else {
                if x.len() > 0 {
                    assert(t.len() > 0 && t.last() == x.last().last()) by {
                        lemma_join_last(x);
                    }
                }
            }
        }
    }
}

proof fn lemma_join_last(x: Seq<Seq<char>>)
    requires
        all_plain(x),
        x.len() > 0,
    ensures
        join(x).len() > 0 && join(x).last() == x.last().last(),
{
    if x.len() > 1 {
        assert(join(x) == join(x.drop_last()) + "\n"@ + x.last());
    }
}


// ---------------------------------------------------------------------------
// Sorting succeeds
// ---------------------------------------------------------------------------
/// The number of characters in `ls`, line breaks not counted.
pub open spec fn chars_in(ls: Seq<Seq<char>>) -> int
    decreases ls.len(),
{
    if ls.len() == 0 {
        0
    } else {
        chars_in(ls.drop_last()) + ls.last().len()
    }
}

proof fn lemma_chars_in_concat(x: Seq<Seq<char>>, y: Seq<Seq<char>>)
    ensures
        chars_in(x + y) == chars_in(x) + chars_in(y),
        chars_in(y) >= 0,
    decreases y.len(),
{
    if y.len() > 0 {
        lemma_chars_in_concat(x, y.drop_last());
        assert((x + y).drop_last() =~= x + y.drop_last());
    } else {
        assert(x + y =~= x);
    }
}

proof fn lemma_chars_in_parts(ls: Seq<Seq<char>>, a: int, b: int)
    requires
        0 <= a <= b <= ls.len(),
    ensures
        0 <= chars_in(ls.subrange(a, b)) <= chars_in(ls),
{
    lemma_chars_in_concat(ls.take(a), ls.subrange(a, b));
    lemma_chars_in_concat(ls.take(a) + ls.subrange(a, b), ls.skip(b));
    lemma_chars_in_concat(seq![], ls.take(a));
    assert(ls =~= ls.take(a) + ls.subrange(a, b) + ls.skip(b));
}

proof fn lemma_chars_in_front(ls: Seq<Seq<char>>, l: int)
    requires
        0 <= l < ls.len(),
    ensures
        chars_in(ls.skip(l)) == ls[l].len() + chars_in(ls.skip(l + 1)),
{
    lemma_chars_in_concat(seq![ls[l]], ls.skip(l + 1));
    assert(ls.skip(l) =~= seq![ls[l]] + ls.skip(l + 1));
    let one = seq![ls[l]];
    assert(one.drop_last() =~= Seq::<Seq<char>>::empty());
    assert(chars_in(one.drop_last()) == 0);
    assert(one.last() == ls[l]);
    assert(chars_in(one) == ls[l].len());
}

proof fn lemma_first_comment(line: Seq<char>, j: int)
    requires
        occurs_at(line, "//"@, j),
    ensures
        exists|m: int| occurs_at(line, "//"@, m) && forall|k: int| 0 <= k < m ==> !occurs_at(line, "//"@, k),
    decreases j,
{
    if exists|k: int| 0 <= k < j && occurs_at(line, "//"@, k) {
        let k = choose|k: int| 0 <= k < j && occurs_at(line, "//"@, k);
        lemma_first_comment(line, k);
    } else {
        assert(occurs_at(line, "//"@, j) && forall|k: int| 0 <= k < j ==> !occurs_at(line, "//"@, k));
    }
}

proof fn lemma_code_end_bound(line: Seq<char>)
    ensures
        0 <= code_end(line) <= line.len(),
{
    if exists|i: int| occurs_at(line, "//"@, i) {
        let j = choose|i: int| occurs_at(line, "//"@, i);
        lemma_first_comment(line, j);
    }
}

proof fn lemma_scan_block_some(ls: Seq<Seq<char>>, l: int, c: int, depth: int)
    requires
        0 <= l <= ls.len(),
        0 <= c,
        l < ls.len() ==> c <= ls[l].len(),
        (if depth >= 0 { depth } else { -depth }) + chars_in(ls.skip(l)) - c <= i32::MAX,
    ensures
        scan_block(ls, l, c, depth) is Some,
    decreases ls.len() - l, code_end(ls[l]) - c,
{
    if l < ls.len() {
        lemma_code_end_bound(ls[l]);
        lemma_chars_in_front(ls, l);
        lemma_chars_in_concat(seq![], ls.skip(l + 1));
        if c >= code_end(ls[l]) {
            lemma_scan_block_some(ls, l + 1, 0, depth);
        } else if ls[l][c] == '{' {
            lemma_scan_block_some(ls, l, c + 1, depth + 1);
        } else if ls[l][c] == '}' {
            if depth - 1 != 0 {
                lemma_scan_block_some(ls, l, c + 1, depth - 1);
            }
        } else {
            lemma_scan_block_some(ls, l, c + 1, depth);
        }
    }
}

proof fn lemma_scope_ok(ls: Seq<Seq<char>>, key: SortKey)
    requires
        chars_in(ls) <= i32::MAX,
    ensures
        scope(ls, key) is Ok,
    decreases ls.len(), 1int, 0int,
{
    lemma_walk_ok(ls, key, 0, seq![], seq![]);
}

proof fn lemma_chunk_ok(ls: Seq<Seq<char>>, key: SortKey, i: int, end: int)
    requires
        chars_in(ls) <= i32::MAX,
        0 <= i <= end < ls.len(),
    ensures
        chunk_of(ls, key, i, end) is Ok,
    decreases ls.len(), 0int, 0int,
{
    if i + 1 < end {
        lemma_chars_in_parts(ls, i + 1, end);
        lemma_scope_ok(ls.subrange(i + 1, end), key);
    }
}

proof fn lemma_walk_ok(ls: Seq<Seq<char>>, key: SortKey, i: int, out: Seq<Seq<char>>, slots: Seq<Slot>)
    requires
        chars_in(ls) <= i32::MAX,
        0 <= i <= ls.len(),
    ensures
        walk(ls, key, i, out, slots) is Ok,
    decreases ls.len(), 0int, ls.len() - i + 1,
{
    if i < ls.len() {
        match declaration_key(ls[i]) {
            None => {
                lemma_walk_ok(ls, key, i + 1, out.push(ls[i]), slots);
            },
            Some(k) => {
                lemma_chars_in_parts(ls, i, ls.len() as int);
                assert(ls.subrange(i, ls.len() as int) =~= ls.skip(i));
                lemma_scan_block_some(ls, i, 0, 0);
                let found = block_end(ls, i)->Some_0;
                let end = match found {
                    Some(e) => e,
                    None => i,
                };
                lemma_block_end_bounds(ls, i);
                lemma_chunk_ok(ls, key, i, end);
                let c = chunk_of(ls, key, i, end)->Ok_0;
                lemma_walk_ok(ls, key, end + 1, out + c, slots.push((out.len() as int, k, c)));
            },
        }
    }
}

proof fn lemma_line_state_chars(s: Seq<char>)
    ensures
        chars_in(line_state(s).0) + line_state(s).1.len() <= s.len(),
    decreases s.len(),
{
    if s.len() > 0 {
        lemma_line_state_chars(s.drop_last());
        let (done, cur) = line_state(s.drop_last());
        if s.last() == '\n' {
            assert(done.push(cur).drop_last() =~= done);
        }
    }
}

proof fn lemma_strip_chars(x: Seq<Seq<char>>)
    ensures
        chars_in(x.map_values(|l: Seq<char>| strip_cr(l))) <= chars_in(x),
    decreases x.len(),
{
    if x.len() > 0 {
        lemma_strip_chars(x.drop_last());
        assert(x.map_values(|l: Seq<char>| strip_cr(l)).drop_last() =~= x.drop_last().map_values(
            |l: Seq<char>| strip_cr(l),
        ));
    }
}

/// Sorting succeeds on every text of at most `i32::MAX` characters: the brace
/// depth it counts can never leave the range of an `i32`.
pub proof fn law_sorting_succeeds(source: Seq<char>, key: SortKey)
    requires
        source.len() <= i32::MAX,
    ensures
        sorted_source(source, key) is Ok,
{
    lemma_line_state_chars(source);
    let (done, cur) = line_state(source);
    lemma_strip_chars(done);
    let ended = done.map_values(|l: Seq<char>| strip_cr(l));
    assert(ended.push(cur).drop_last() =~= ended);
    lemma_scope_ok(lines(source), key);
}

} // verus!

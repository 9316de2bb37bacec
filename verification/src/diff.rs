//! A single-hunk unified diff between a text and its formatted version.
use vstd::prelude::*;

use crate::text::{
    chars_of, copy_line, decimal, lines, lines_view, push_all, push_decimal, push_str, same,
    split_lines, string_of,
};

verus! {

/// Context lines kept around the changed region.
pub const CONTEXT: usize = 3;

/// One line of a hunk.
#[derive(Debug, Clone, PartialEq, Eq)]
pub enum DiffEdit {
    Equal(Vec<char>),
    Delete(Vec<char>),
    Insert(Vec<char>),
}

/// The meaning of a [`DiffEdit`].
pub enum Edit {
    Equal(Seq<char>),
    Delete(Seq<char>),
    Insert(Seq<char>),
}

impl View for DiffEdit {
    type V = Edit;

    open spec fn view(&self) -> Edit {
        match self {
            DiffEdit::Equal(l) => Edit::Equal(l@),
            DiffEdit::Delete(l) => Edit::Delete(l@),
            DiffEdit::Insert(l) => Edit::Insert(l@),
        }
    }
}

/// A hunk: 1-based start lines and line counts on both sides, and its lines.
#[derive(Debug, PartialEq, Eq)]
pub struct DiffHunk {
    pub old_start: usize,
    pub old_count: usize,
    pub new_start: usize,
    pub new_count: usize,
    pub edits: Vec<DiffEdit>,
}

/// Number of leading lines that `old` and `new` share.
pub open spec fn common_prefix(old: Seq<Seq<char>>, new: Seq<Seq<char>>, i: int) -> int
    decreases old.len() - i,
{
    if i < 0 || i >= old.len() || i >= new.len() || old[i] != new[i] {
        i
    } else {
        common_prefix(old, new, i + 1)
    }
}

/// Number of trailing lines that `old` and `new` share outside their first `p` lines.
pub open spec fn common_suffix(old: Seq<Seq<char>>, new: Seq<Seq<char>>, p: int, s: int) -> int
    decreases old.len() - p - s,
{
    if s < 0 || s >= old.len() - p || s >= new.len() - p || old[old.len() - 1 - s] != new[new.len()
        - 1 - s] {
        s
    } else {
        common_suffix(old, new, p, s + 1)
    }
}

pub open spec fn min(a: int, b: int) -> int {
    if a <= b {
        a
    } else {
        b
    }
}

pub open spec fn equal_edits(ls: Seq<Seq<char>>) -> Seq<Edit> {
    ls.map_values(|l: Seq<char>| Edit::Equal(l))
}

/// The hunk between two line sequences: the lines that differ after removing the
/// common prefix and suffix, with up to three context lines on each side.
pub open spec fn hunk_of(old: Seq<Seq<char>>, new: Seq<Seq<char>>) -> (int, int, int, int, Seq<Edit>) {
    let p = common_prefix(old, new, 0);
    let s = common_suffix(old, new, p, 0);
    let old_start = if p >= 3 { p - 3 } else { 0 };
    let new_start = old_start;
    let old_change_end = old.len() - s;
    let new_change_end = new.len() - s;
    let old_end = min(old_change_end + 3, old.len() as int);
    let new_end = min(new_change_end + 3, new.len() as int);
    let tail = min(old_end - old_change_end, new_end - new_change_end);
    let edits = equal_edits(old.subrange(old_start, p)) + old.subrange(p, old_change_end).map_values(
        |l: Seq<char>| Edit::Delete(l),
    ) + new.subrange(p, new_change_end).map_values(|l: Seq<char>| Edit::Insert(l)) + equal_edits(
        old.subrange(old_change_end, old_change_end + tail),
    );
    let edits = if edits.len() == 0 && old_start < old.len() && new_start < new.len() {
        seq![Edit::Equal(old[old_start])]
    } else {
        edits
    };
    (old_start + 1, old_end - old_start, new_start + 1, new_end - new_start, edits)
}

proof fn lemma_prefix_bounds(old: Seq<Seq<char>>, new: Seq<Seq<char>>, i: int)
    requires
        0 <= i <= old.len(),
        i <= new.len(),
    ensures
        i <= common_prefix(old, new, i) <= old.len(),
        common_prefix(old, new, i) <= new.len(),
    decreases old.len() - i,
{
    if i < old.len() && i < new.len() && old[i] == new[i] {
        lemma_prefix_bounds(old, new, i + 1);
    }
}

proof fn lemma_suffix_bounds(old: Seq<Seq<char>>, new: Seq<Seq<char>>, p: int, s: int)
    requires
        0 <= p <= old.len(),
        p <= new.len(),
        0 <= s <= old.len() - p,
        s <= new.len() - p,
    ensures
        s <= common_suffix(old, new, p, s) <= old.len() - p,
        common_suffix(old, new, p, s) <= new.len() - p,
    decreases old.len() - p - s,
{
    if s < old.len() - p && s < new.len() - p && old[old.len() - 1 - s] == new[new.len() - 1 - s] {
        lemma_suffix_bounds(old, new, p, s + 1);
    }
}


proof fn lemma_prefix_equal(old: Seq<Seq<char>>, new: Seq<Seq<char>>, i: int, j: int)
    requires
        0 <= i <= j < common_prefix(old, new, i),
        i <= new.len(),
    ensures
        old[j] == new[j],
    decreases old.len() - i,
{
    if i < j {
        lemma_prefix_equal(old, new, i + 1, j);
    }
}

proof fn lemma_suffix_equal(old: Seq<Seq<char>>, new: Seq<Seq<char>>, p: int, s: int, k: int)
    requires
        0 <= s <= k < common_suffix(old, new, p, s),
    ensures
        old[old.len() - 1 - k] == new[new.len() - 1 - k],
    decreases old.len() - p - s,
{
    if s < k {
        lemma_suffix_equal(old, new, p, s + 1, k);
    }
}

proof fn lemma_prefix_stops(old: Seq<Seq<char>>, new: Seq<Seq<char>>, i: int)
    requires
        0 <= i,
    ensures
        ({
            let p = common_prefix(old, new, i);
            p < old.len() && p < new.len() ==> old[p] != new[p]
        }),
    decreases old.len() - i,
{
    if i < old.len() && i < new.len() && old[i] == new[i] {
        lemma_prefix_stops(old, new, i + 1);
    }
}

proof fn lemma_suffix_stops(old: Seq<Seq<char>>, new: Seq<Seq<char>>, p: int, s: int)
    requires
        0 <= s,
    ensures
        ({
            let t = common_suffix(old, new, p, s);
            t < old.len() - p && t < new.len() - p ==> old[old.len() - 1 - t] != new[new.len() - 1 - t]
        }),
    decreases old.len() - p - s,
{
    if s < old.len() - p && s < new.len() - p && old[old.len() - 1 - s] == new[new.len() - 1 - s] {
        lemma_suffix_stops(old, new, p, s + 1);
    }
}

/// The hunk's change rewrites `old` into `new`: both share the lines before the
/// deleted ones and the lines after them, and putting the inserted lines in place of
/// the deleted ones turns `old` into `new`. The shared lines are as many as can be:
/// one more line at the front, or at the back, would differ.
pub proof fn law_hunk_rewrites_old_into_new(old: Seq<Seq<char>>, new: Seq<Seq<char>>)
    ensures
        ({
            let p = common_prefix(old, new, 0);
            let s = common_suffix(old, new, p, 0);
            &&& 0 <= p && 0 <= s
            &&& p + s <= old.len() && p + s <= new.len()
            &&& old == old.subrange(0, p) + old.subrange(p, old.len() - s) + old.subrange(
                old.len() - s,
                old.len() as int,
            )
            &&& new == old.subrange(0, p) + new.subrange(p, new.len() - s) + old.subrange(
                old.len() - s,
                old.len() as int,
            )
            &&& p < old.len() && p < new.len() ==> old[p] != new[p]
            &&& s < old.len() - p && s < new.len() - p ==> old[old.len() - 1 - s] != new[new.len()
                - 1 - s]
        }),
{
    lemma_prefix_stops(old, new, 0);
    lemma_suffix_stops(old, new, common_prefix(old, new, 0), 0);
    let p = common_prefix(old, new, 0);
    lemma_prefix_bounds(old, new, 0);
    let s = common_suffix(old, new, p, 0);
    lemma_suffix_bounds(old, new, p, 0);
    assert forall|j: int| 0 <= j < p implies old[j] == new[j] by {
        lemma_prefix_equal(old, new, 0, j);
    }
    assert(old =~= old.subrange(0, p) + old.subrange(p, old.len() - s) + old.subrange(
        old.len() - s,
        old.len() as int,
    ));
    let rebuilt = old.subrange(0, p) + new.subrange(p, new.len() - s) + old.subrange(
        old.len() - s,
        old.len() as int,
    );
    assert forall|j: int| 0 <= j < new.len() implies rebuilt[j] == new[j] by {
        if j >= new.len() - s {
            lemma_suffix_equal(old, new, p, 0, new.len() - 1 - j);
        }
    }
    assert(new =~= rebuilt);
}

pub open spec fn edits_view(es: Seq<DiffEdit>) -> Seq<Edit> {
    es.map_values(|e: DiffEdit| e@)
}

/// Which kind of edit lines become.
pub enum EditKind {
    Equal,
    Delete,
    Insert,
}

pub open spec fn edit_of(kind: EditKind, l: Seq<char>) -> Edit {
    match kind {
        EditKind::Equal => Edit::Equal(l),
        EditKind::Delete => Edit::Delete(l),
        EditKind::Insert => Edit::Insert(l),
    }
}

pub open spec fn tagged(ls: Seq<Seq<char>>, kind: EditKind) -> Seq<Edit>
    decreases ls.len(),
{
    if ls.len() == 0 {
        seq![]
    } else {
        tagged(ls.drop_last(), kind).push(edit_of(kind, ls.last()))
    }
}

fn push_edits(edits: &mut Vec<DiffEdit>, src: &Vec<Vec<char>>, a: usize, b: usize, kind: EditKind)
    requires
        a <= b <= src.len(),
    ensures
        edits_view(final(edits)@) == edits_view(old(edits)@) + tagged(
            lines_view(src@).subrange(a as int, b as int),
            kind,
        ),
{
    let ghost start = edits_view(edits@);
    let mut i = a;
    while i < b
        invariant
            a <= i <= b <= src.len(),
            edits_view(edits@) == start + tagged(
                lines_view(src@).subrange(a as int, i as int),
                kind,
            ),
        decreases b - i,
    {
        let ghost before = edits@;
        let line = copy_line(&src[i]);
        let e = match kind {
            EditKind::Equal => DiffEdit::Equal(line),
            EditKind::Delete => DiffEdit::Delete(line),
            EditKind::Insert => DiffEdit::Insert(line),
        };
        assert(e@ == edit_of(kind, src@[i as int]@));
        edits.push(e);
        assert(edits_view(edits@) =~= edits_view(before).push(e@));
        assert(lines_view(src@).subrange(a as int, i + 1).drop_last() =~= lines_view(
            src@,
        ).subrange(a as int, i as int));
        i += 1;
    }
}

pub proof fn lemma_tagged_equal(ls: Seq<Seq<char>>)
    ensures
        tagged(ls, EditKind::Equal) == equal_edits(ls),
    decreases ls.len(),
{
    if ls.len() > 0 {
        lemma_tagged_equal(ls.drop_last());
        assert(equal_edits(ls) =~= equal_edits(ls.drop_last()).push(Edit::Equal(ls.last())));
    } else {
        assert(equal_edits(ls) =~= seq![]);
    }
}

pub proof fn lemma_tagged_map(ls: Seq<Seq<char>>, kind: EditKind)
    ensures
        tagged(ls, kind) == ls.map_values(|l: Seq<char>| edit_of(kind, l)),
    decreases ls.len(),
{
    if ls.len() > 0 {
        lemma_tagged_map(ls.drop_last(), kind);
        assert(ls.map_values(|l: Seq<char>| edit_of(kind, l)) =~= ls.drop_last().map_values(
            |l: Seq<char>| edit_of(kind, l),
        ).push(edit_of(kind, ls.last())));
    } else {
        assert(ls.map_values(|l: Seq<char>| edit_of(kind, l)) =~= seq![]);
    }
}

fn common_prefix_len(old: &Vec<Vec<char>>, new: &Vec<Vec<char>>) -> (p: usize)
    ensures
        p == common_prefix(lines_view(old@), lines_view(new@), 0),
        p <= old.len(),
        p <= new.len(),
{
    let ghost o = lines_view(old@);
    let ghost n = lines_view(new@);
    let mut prefix: usize = 0;
    while prefix < old.len() && prefix < new.len() && same(&old[prefix], &new[prefix])
        invariant
            prefix <= old.len(),
            prefix <= new.len(),
            o == lines_view(old@),
            n == lines_view(new@),
            common_prefix(o, n, 0) == common_prefix(o, n, prefix as int),
        decreases old.len() - prefix,
    {
        prefix += 1;
    }
    prefix
}

fn common_suffix_len(old: &Vec<Vec<char>>, new: &Vec<Vec<char>>, prefix: usize) -> (s: usize)
    requires
        prefix <= old.len(),
        prefix <= new.len(),
    ensures
        s == common_suffix(lines_view(old@), lines_view(new@), prefix as int, 0),
        s <= old.len() - prefix,
        s <= new.len() - prefix,
{
    let ghost o = lines_view(old@);
    let ghost n = lines_view(new@);
    let mut suffix: usize = 0;
    while suffix < old.len() - prefix && suffix < new.len() - prefix && same(
        &old[old.len() - 1 - suffix],
        &new[new.len() - 1 - suffix],
    )
        invariant
            prefix <= old.len(),
            prefix <= new.len(),
            suffix <= old.len() - prefix,
            suffix <= new.len() - prefix,
            o == lines_view(old@),
            n == lines_view(new@),
            common_suffix(o, n, prefix as int, 0) == common_suffix(
                o,
                n,
                prefix as int,
                suffix as int,
            ),
        decreases old.len() - suffix,
    {
        suffix += 1;
    }
    suffix
}

/// The hunk between two line sequences (see [`hunk_of`]).
pub fn diff_hunk(old: &Vec<Vec<char>>, new: &Vec<Vec<char>>) -> (r: DiffHunk)
    ensures
        ({
            let h = hunk_of(lines_view(old@), lines_view(new@));
            &&& r.old_start == h.0
            &&& r.old_count == h.1
            &&& r.new_start == h.2
            &&& r.new_count == h.3
            &&& edits_view(r.edits@) == h.4
        }),
{
    let ghost o = lines_view(old@);
    let ghost n = lines_view(new@);
    let prefix = common_prefix_len(old, new);
    let suffix = common_suffix_len(old, new, prefix);
    let hunk_old_start = if prefix >= CONTEXT {
        prefix - CONTEXT
    } else {
        0
    };
    let hunk_new_start = hunk_old_start;
    let old_change_end = old.len() - suffix;
    let new_change_end = new.len() - suffix;
    let hunk_old_end = if old.len() - old_change_end >= CONTEXT {
        old_change_end + CONTEXT
    } else {
        old.len()
    };
    let hunk_new_end = if new.len() - new_change_end >= CONTEXT {
        new_change_end + CONTEXT
    } else {
        new.len()
    };
    let a = hunk_old_end - old_change_end;
    let b = hunk_new_end - new_change_end;
    let tail = if a <= b {
        a
    } else {
        b
    };
    let mut edits: Vec<DiffEdit> = Vec::new();
    push_edits(&mut edits, old, hunk_old_start, prefix, EditKind::Equal);
    push_edits(&mut edits, old, prefix, old_change_end, EditKind::Delete);
    push_edits(&mut edits, new, prefix, new_change_end, EditKind::Insert);
    push_edits(&mut edits, old, old_change_end, old_change_end + tail, EditKind::Equal);
    proof {
        lemma_tagged_equal(o.subrange(hunk_old_start as int, prefix as int));
        lemma_tagged_map(o.subrange(prefix as int, old_change_end as int), EditKind::Delete);
        lemma_tagged_map(n.subrange(prefix as int, new_change_end as int), EditKind::Insert);
        lemma_tagged_equal(o.subrange(old_change_end as int, old_change_end + tail));
        assert(edits_view(Seq::<DiffEdit>::empty()) =~= Seq::<Edit>::empty());
        let h = hunk_of(o, n);
        assert(o.subrange(prefix as int, old_change_end as int).map_values(
            |l: Seq<char>| edit_of(EditKind::Delete, l),
        ) =~= o.subrange(prefix as int, old_change_end as int).map_values(
            |l: Seq<char>| Edit::Delete(l),
        ));
        assert(n.subrange(prefix as int, new_change_end as int).map_values(
            |l: Seq<char>| edit_of(EditKind::Insert, l),
        ) =~= n.subrange(prefix as int, new_change_end as int).map_values(
            |l: Seq<char>| Edit::Insert(l),
        ));
    }
    if edits.len() == 0 && hunk_old_start < old.len() && hunk_new_start < new.len() {
        edits.push(DiffEdit::Equal(copy_line(&old[hunk_old_start])));
        assert(edits_view(edits@) =~= seq![Edit::Equal(o[hunk_old_start as int])]);
    }
    DiffHunk {
        old_start: hunk_old_start + 1,
        old_count: hunk_old_end - hunk_old_start,
        new_start: hunk_new_start + 1,
        new_count: hunk_new_end - hunk_new_start,
        edits,
    }
}

// ---------------------------------------------------------------------------
// Rendering
// ---------------------------------------------------------------------------
/// `start` alone for a one-line range, else `start,count`.
pub open spec fn diff_range(start: int, count: int) -> Seq<char> {
    if count == 1 {
        decimal(start as nat)
    } else {
        decimal(start as nat) + ","@ + decimal(count as nat)
    }
}

/// The hunk's lines, each prefixed with ` `, `-` or `+` and ended by a newline.
pub open spec fn edit_lines(edits: Seq<Edit>) -> Seq<char>
    decreases edits.len(),
{
    if edits.len() == 0 {
        seq![]
    } else {
        edit_lines(edits.drop_last()) + match edits.last() {
            Edit::Equal(l) => " "@ + l,
            Edit::Delete(l) => "-"@ + l,
            Edit::Insert(l) => "+"@ + l,
        } + "\n"@
    }
}

/// The unified diff of `old` against `new`, both labelled `path`.
pub open spec fn unified(path: Seq<char>, old: Seq<char>, new: Seq<char>) -> Seq<char> {
    let h = hunk_of(lines(old), lines(new));
    "--- "@ + path + "\n"@ + "+++ "@ + path + "\n"@ + "@@ -"@ + diff_range(h.0, h.1) + " +"@
        + diff_range(h.2, h.3) + " @@\n"@ + edit_lines(h.4)
}

fn push_range(out: &mut Vec<char>, start: usize, count: usize)
    ensures
        final(out)@ == old(out)@ + diff_range(start as int, count as int),
{
    push_decimal(out, start as u64);
    if count != 1 {
        push_str(out, ",");
        push_decimal(out, count as u64);
    }
}

/// Renders a unified diff of `old` against `new` (one hunk, three lines of context).
pub fn unified_diff(path: &str, old: &str, new: &str) -> (r: String)
    ensures
        r@ == unified(path@, old@, new@),
{
    let old_text = chars_of(old);
    let new_text = chars_of(new);
    let old_lines = split_lines(&old_text);
    let new_lines = split_lines(&new_text);
    assert(lines_view(old_lines@) =~= lines(old@));
    assert(lines_view(new_lines@) =~= lines(new@));
    let hunk = diff_hunk(&old_lines, &new_lines);
    let ghost h = hunk_of(lines(old@), lines(new@));
    let mut out: Vec<char> = Vec::new();
    push_str(&mut out, "--- ");
    push_str(&mut out, path);
    push_str(&mut out, "\n");
    push_str(&mut out, "+++ ");
    push_str(&mut out, path);
    push_str(&mut out, "\n");
    push_str(&mut out, "@@ -");
    push_range(&mut out, hunk.old_start, hunk.old_count);
    push_str(&mut out, " +");
    push_range(&mut out, hunk.new_start, hunk.new_count);
    push_str(&mut out, " @@\n");
    let ghost header = out@;
    let ghost es = edits_view(hunk.edits@);
    let mut i: usize = 0;
    while i < hunk.edits.len()
        invariant
            i <= hunk.edits.len(),
            es == edits_view(hunk.edits@),
            out@ == header + edit_lines(es.take(i as int)),
        decreases hunk.edits.len() - i,
    {
        assert(es.take(i + 1).drop_last() =~= es.take(i as int));
        match &hunk.edits[i] {
            DiffEdit::Equal(l) => {
                push_str(&mut out, " ");
                push_all(&mut out, l);
            },
            DiffEdit::Delete(l) => {
                push_str(&mut out, "-");
                push_all(&mut out, l);
            },
            DiffEdit::Insert(l) => {
                push_str(&mut out, "+");
                push_all(&mut out, l);
            },
        }
        push_str(&mut out, "\n");
        assert(out@ =~= header + edit_lines(es.take(i + 1)));
        i += 1;
    }
    assert(es.take(hunk.edits.len() as int) =~= es);
    assert(out@ =~= unified(path@, old@, new@));
    string_of(out.as_slice())
}

} // verus!

//! A small JSONPath-like selector: `$`, `.key`, `['key']`, `[0]`, `.*` and `[*]`.
use vstd::prelude::*;

use crate::json::{entry_index, object_get, JsonValue};
use crate::text::{
    chars_of, decimal, is_digit, is_space, leading_spaces, parse_unsigned, parse_unsigned_at, string_of, slice_of,
    trailing_spaces, trim, trim_bounds, trim_end, trim_start,
};

verus! {

/// One step of a selector path.
#[derive(Debug, PartialEq, Eq)]
pub enum Segment {
    Key(String),
    Index(usize),
    Wildcard,
}

/// The meaning of a [`Segment`].
pub enum Step {
    Key(Seq<char>),
    Index(nat),
    Wildcard,
}

impl View for Segment {
    type V = Step;

    open spec fn view(&self) -> Step {
        match self {
            Segment::Key(k) => Step::Key(k@),
            Segment::Index(i) => Step::Index(*i as nat),
            Segment::Wildcard => Step::Wildcard,
        }
    }
}

pub open spec fn steps_of(path: Seq<Segment>) -> Seq<Step> {
    path.map_values(|s: Segment| s@)
}

/// Why a selector could not be parsed.
#[derive(Debug, PartialEq, Eq)]
pub enum PathError {
    /// `.` not followed by a key.
    EmptyKey,
    /// `[*` not followed by `]`.
    UnterminatedWildcard,
    /// A quoted key not closed by its quote and `]`.
    UnterminatedKey,
    /// `[` with no closing `]`.
    UnterminatedIndex,
    /// The text between `[` and `]` is not an array index.
    InvalidIndex(String),
    /// A character that cannot start a step.
    UnexpectedToken(char),
}

/// The meaning of a [`PathError`].
pub enum PathFault {
    EmptyKey,
    UnterminatedWildcard,
    UnterminatedKey,
    UnterminatedIndex,
    InvalidIndex(Seq<char>),
    UnexpectedToken(char),
}

impl View for PathError {
    type V = PathFault;

    open spec fn view(&self) -> PathFault {
        match self {
            PathError::EmptyKey => PathFault::EmptyKey,
            PathError::UnterminatedWildcard => PathFault::UnterminatedWildcard,
            PathError::UnterminatedKey => PathFault::UnterminatedKey,
            PathError::UnterminatedIndex => PathFault::UnterminatedIndex,
            PathError::InvalidIndex(t) => PathFault::InvalidIndex(t@),
            PathError::UnexpectedToken(c) => PathFault::UnexpectedToken(*c),
        }
    }
}

/// First index at or after `i` holding `.` or `[` (or the end).
pub open spec fn key_end(s: Seq<char>, i: int) -> int
    decreases s.len() - i,
{
    if i >= s.len() || s[i] == '.' || s[i] == '[' {
        i
    } else {
        key_end(s, i + 1)
    }
}

/// First index at or after `i` holding `c` (or the end).
pub open spec fn char_end(s: Seq<char>, i: int, c: char) -> int
    decreases s.len() - i,
{
    if i >= s.len() || s[i] == c {
        i
    } else {
        char_end(s, i + 1, c)
    }
}

pub open spec fn then_steps(first: Seq<Step>, rest: Result<Seq<Step>, PathFault>) -> Result<
    Seq<Step>,
    PathFault,
> {
    match rest {
        Ok(v) => Ok(first + v),
        Err(e) => Err(e),
    }
}

/// The steps written in `s[i..]`.
pub open spec fn parse_steps(s: Seq<char>, i: int) -> Result<Seq<Step>, PathFault>
    decreases s.len() - i,
{
    if i < 0 || i >= s.len() {
        Ok(seq![])
    } else if s[i] == '.' {
        if i + 1 < s.len() && s[i + 1] == '*' {
            then_steps(seq![Step::Wildcard], parse_steps(s, i + 2))
        } else {
            let e = key_end(s, i + 1);
            proof {
                lemma_key_end_bounds(s, i + 1);
            }
            if e <= i + 1 {
                Err(PathFault::EmptyKey)
            } else {
                then_steps(seq![Step::Key(s.subrange(i + 1, e))], parse_steps(s, e))
            }
        }
    } else if s[i] == '[' {
        if i + 1 < s.len() && s[i + 1] == '*' {
            if i + 2 < s.len() && s[i + 2] == ']' {
                then_steps(seq![Step::Wildcard], parse_steps(s, i + 3))
            } else {
                Err(PathFault::UnterminatedWildcard)
            }
        } else if i + 1 < s.len() && (s[i + 1] == '"' || s[i + 1] == '\'') {
            let e = char_end(s, i + 2, s[i + 1]);
            proof {
                lemma_char_end_bounds(s, i + 2, s[i + 1]);
            }
            if e + 1 < s.len() && s[e + 1] == ']' {
                then_steps(seq![Step::Key(s.subrange(i + 2, e))], parse_steps(s, e + 2))
            } else {
                Err(PathFault::UnterminatedKey)
            }
        } else {
            let e = char_end(s, i + 1, ']');
            proof {
                lemma_char_end_bounds(s, i + 1, ']');
            }
            if e < s.len() {
                match parse_unsigned(s.subrange(i + 1, e), usize::MAX as nat) {
                    Some(n) => then_steps(seq![Step::Index(n)], parse_steps(s, e + 1)),
                    None => Err(PathFault::InvalidIndex(s.subrange(i + 1, e))),
                }
            } else {
                Err(PathFault::UnterminatedIndex)
            }
        }
    } else {
        Err(PathFault::UnexpectedToken(s[i]))
    }
}

/// The steps of a selector: surrounding whitespace is ignored and a leading `$` is optional.
pub open spec fn path_steps(input: Seq<char>) -> Result<Seq<Step>, PathFault> {
    let t = trim(input);
    parse_steps(t, if t.len() > 0 && t[0] == '$' { 1 } else { 0 })
}

pub proof fn lemma_key_end_bounds(s: Seq<char>, i: int)
    requires
        0 <= i <= s.len(),
    ensures
        i <= key_end(s, i) <= s.len(),
    decreases s.len() - i,
{
    if i < s.len() {
        lemma_key_end_bounds(s, i + 1);
    }
}

pub proof fn lemma_char_end_bounds(s: Seq<char>, i: int, c: char)
    requires
        0 <= i <= s.len(),
    ensures
        i <= char_end(s, i, c) <= s.len(),
    decreases s.len() - i,
{
    if i < s.len() {
        lemma_char_end_bounds(s, i + 1, c);
    }
}

proof fn lemma_then_steps(a: Seq<Step>, b: Seq<Step>, r: Result<Seq<Step>, PathFault>)
    ensures
        then_steps(a, then_steps(b, r)) == then_steps(a + b, r),
{
    if let Ok(v) = r {
        assert(a + (b + v) =~= (a + b) + v);
    }
}

proof fn lemma_key_end(s: Seq<char>, a: int, i: int)
    requires
        0 <= a <= i <= s.len(),
        forall|k: int| a <= k < i ==> s[k] != '.' && s[k] != '[',
    ensures
        key_end(s, a) == key_end(s, i),
    decreases i - a,
{
    if a < i {
        lemma_key_end(s, a + 1, i);
    }
}

proof fn lemma_char_end(s: Seq<char>, a: int, i: int, c: char)
    requires
        0 <= a <= i <= s.len(),
        forall|k: int| a <= k < i ==> s[k] != c,
    ensures
        char_end(s, a, c) == char_end(s, i, c),
    decreases i - a,
{
    if a < i {
        lemma_char_end(s, a + 1, i, c);
    }
}

fn scan_key(s: &Vec<char>, from: usize) -> (e: usize)
    requires
        from <= s.len(),
    ensures
        from <= e <= s.len(),
        e == key_end(s@, from as int),
{
    let mut i = from;
    while i < s.len() && s[i] != '.' && s[i] != '['
        invariant
            from <= i <= s.len(),
            forall|k: int| from <= k < i ==> s@[k] != '.' && s@[k] != '[',
        decreases s.len() - i,
    {
        i += 1;
    }
    proof {
        lemma_key_end(s@, from as int, i as int);
    }
    i
}

fn scan_char(s: &Vec<char>, from: usize, c: char) -> (e: usize)
    requires
        from <= s.len(),
    ensures
        from <= e <= s.len(),
        e == char_end(s@, from as int, c),
{
    let mut i = from;
    while i < s.len() && s[i] != c
        invariant
            from <= i <= s.len(),
            forall|k: int| from <= k < i ==> s@[k] != c,
        decreases s.len() - i,
    {
        i += 1;
    }
    proof {
        lemma_char_end(s@, from as int, i as int, c);
    }
    i
}

/// Parses a selector such as `$.payload[0]['data']` or `$.items[*].id`.
pub fn parse_path(input: &str) -> (r: Result<Vec<Segment>, PathError>)
    ensures
        match r {
            Ok(v) => path_steps(input@) == Ok::<Seq<Step>, PathFault>(steps_of(v@)),
            Err(e) => path_steps(input@) == Err::<Seq<Step>, PathFault>(e@),
        },
{
    let all = chars_of(input);
    let (a, b) = trim_bounds(&all, 0, all.len());
    let s = slice_of(&all, a, b);
    assert(all@.subrange(0, all@.len() as int) == input@);
    let ghost t = s@;
    let mut i: usize = if s.len() > 0 && s[0] == '$' {
        1
    } else {
        0
    };
    let ghost start = i as int;
    let mut segments: Vec<Segment> = Vec::new();
    while i < s.len()
        invariant
            t == s@,
            t == trim(input@),
            start == (if t.len() > 0 && t[0] == '$' { 1int } else { 0int }),
            i <= s.len(),
            parse_steps(t, start) == then_steps(steps_of(segments@), parse_steps(t, i as int)),
        decreases s.len() - i,
    {
        let ghost before = segments@;
        let ch = s[i];
        if ch == '.' {
            if i + 1 < s.len() && s[i + 1] == '*' {
                segments.push(Segment::Wildcard);
                assert(steps_of(segments@) =~= steps_of(before) + seq![Step::Wildcard]);
                proof {
                    lemma_then_steps(steps_of(before), seq![Step::Wildcard], parse_steps(t, i + 2));
                }
                i = i + 2;
            } else {
                let e = scan_key(&s, i + 1);
                if e == i + 1 {
                    return Err(PathError::EmptyKey);
                }
                let key = slice_of(&s, i + 1, e);
                segments.push(Segment::Key(string_of(key.as_slice())));
                assert(steps_of(segments@) =~= steps_of(before) + seq![
                    Step::Key(s@.subrange(i + 1, e as int)),
                ]);
                proof {
                    lemma_then_steps(
                        steps_of(before),
                        seq![Step::Key(s@.subrange(i + 1, e as int))],
                        parse_steps(t, e as int),
                    );
                }
                i = e;
            }
        } else if ch == '[' {
            if i + 1 < s.len() && s[i + 1] == '*' {
                if !(i + 2 < s.len() && s[i + 2] == ']') {
                    return Err(PathError::UnterminatedWildcard);
                }
                segments.push(Segment::Wildcard);
                assert(steps_of(segments@) =~= steps_of(before) + seq![Step::Wildcard]);
                proof {
                    lemma_then_steps(steps_of(before), seq![Step::Wildcard], parse_steps(t, i + 3));
                }
                i = i + 3;
            } else if i + 1 < s.len() && (s[i + 1] == '"' || s[i + 1] == '\'') {
                let quote = s[i + 1];
                let e = scan_char(&s, i + 2, quote);
                if !(e < s.len() && e + 1 < s.len() && s[e + 1] == ']') {
                    return Err(PathError::UnterminatedKey);
                }
                let key = slice_of(&s, i + 2, e);
                segments.push(Segment::Key(string_of(key.as_slice())));
                assert(steps_of(segments@) =~= steps_of(before) + seq![
                    Step::Key(s@.subrange(i + 2, e as int)),
                ]);
                proof {
                    lemma_then_steps(
                        steps_of(before),
                        seq![Step::Key(s@.subrange(i + 2, e as int))],
                        parse_steps(t, e + 2),
                    );
                }
                i = e + 2;
            } else {
                let e = scan_char(&s, i + 1, ']');
                if e >= s.len() {
                    return Err(PathError::UnterminatedIndex);
                }
                match parse_unsigned_at(&s, i + 1, e, usize::MAX as u64) {
                    Some(n) => {
                        segments.push(Segment::Index(n as usize));
                        assert(steps_of(segments@) =~= steps_of(before) + seq![
                            Step::Index(n as nat),
                        ]);
                        proof {
                            lemma_then_steps(
                                steps_of(before),
                                seq![Step::Index(n as nat)],
                                parse_steps(t, e + 1),
                            );
                        }
                        i = e + 1;
                    },
                    None => {
                        let text = slice_of(&s, i + 1, e);
                        return Err(PathError::InvalidIndex(string_of(text.as_slice())));
                    },
                }
            }
        } else {
            return Err(PathError::UnexpectedToken(ch));
        }
    }
    assert(steps_of(segments@) + seq![] =~= steps_of(segments@));
    Ok(segments)
}

// ---------------------------------------------------------------------------
// Selection
// ---------------------------------------------------------------------------
/// Values that `key` selects from `v`: an object's value under `key`, or, for an
/// array, what `key` selects from each item in turn.
pub open spec fn key_matches(v: JsonValue, key: Seq<char>) -> Seq<JsonValue>
    decreases v, 1nat,
{
    match v {
        JsonValue::Object(entries) => match entry_index(entries@, key) {
            Some(i) => seq![entries@[i].1],
            None => seq![],
        },
        JsonValue::Array(items) => key_matches_all(items@, key),
        _ => seq![],
    }
}

/// [`key_matches`] of each item, concatenated.
pub open spec fn key_matches_all(items: Seq<JsonValue>, key: Seq<char>) -> Seq<JsonValue>
    decreases items, 0nat,
{
    if items.len() == 0 {
        seq![]
    } else {
        key_matches_all(items.drop_last(), key) + key_matches(items.last(), key)
    }
}

/// The children of an array or object (in entry order).
pub open spec fn children(v: JsonValue) -> Seq<JsonValue> {
    match v {
        JsonValue::Array(items) => items@,
        JsonValue::Object(entries) => entries@.map_values(|e: (String, JsonValue)| e.1),
        _ => seq![],
    }
}

/// What one step selects from one value.
pub open spec fn step_matches(v: JsonValue, step: Step) -> Seq<JsonValue> {
    match step {
        Step::Key(k) => key_matches(v, k),
        Step::Index(n) => match v {
            JsonValue::Array(items) => if n < items@.len() {
                seq![items@[n as int]]
            } else {
                seq![]
            },
            _ => seq![],
        },
        Step::Wildcard => children(v),
    }
}

/// What one step selects from each of `vs`, concatenated.
pub open spec fn step_all(vs: Seq<JsonValue>, step: Step) -> Seq<JsonValue>
    decreases vs.len(),
{
    if vs.len() == 0 {
        seq![]
    } else {
        step_all(vs.drop_last(), step) + step_matches(vs.last(), step)
    }
}

/// What a path selects from `vs`, step after step.
pub open spec fn select_path(vs: Seq<JsonValue>, path: Seq<Step>) -> Seq<JsonValue>
    decreases path.len(),
{
    if path.len() == 0 {
        vs
    } else {
        select_path(step_all(vs, path[0]), path.drop_first())
    }
}

pub open spec fn derefs(r: Seq<&JsonValue>) -> Seq<JsonValue> {
    r.map_values(|x: &JsonValue| *x)
}

fn select_key<'a>(value: &'a JsonValue, key: &str, out: &mut Vec<&'a JsonValue>)
    ensures
        derefs(final(out)@) == derefs(old(out)@) + key_matches(*value, key@),
    decreases *value, 1nat,
{
    match value {
        JsonValue::Object(entries) => {
            if let Some(item) = object_get(entries, key) {
                out.push(item);
                assert(derefs(final(out)@) =~= derefs(old(out)@) + key_matches(*value, key@));
            } else {
                assert(derefs(final(out)@) =~= derefs(old(out)@) + key_matches(*value, key@));
            }
        },
        JsonValue::Array(items) => {
            select_key_items(items, key, out);
        },
        _ => {
            assert(derefs(final(out)@) =~= derefs(old(out)@) + key_matches(*value, key@));
        },
    }
}

fn select_key_items<'a>(items: &'a Vec<JsonValue>, key: &str, out: &mut Vec<&'a JsonValue>)
    ensures
        derefs(final(out)@) == derefs(old(out)@) + key_matches_all(items@, key@),
    decreases items@, 0nat,
{
    let mut i: usize = 0;
    while i < items.len()
        invariant
            i <= items.len(),
            derefs(out@) == derefs(old(out)@) + key_matches_all(items@.take(i as int), key@),
        decreases items.len() - i,
    {
        let ghost prev = derefs(out@);
        assert(items@.take(i + 1).drop_last() =~= items@.take(i as int));
        select_key(&items[i], key, out);
        assert(derefs(out@) =~= derefs(old(out)@) + key_matches_all(
            items@.take(i + 1),
            key@,
        ));
        i += 1;
    }
    assert(items@.take(items.len() as int) =~= items@);
}

fn select_step<'a>(value: &'a JsonValue, segment: &Segment, out: &mut Vec<&'a JsonValue>)
    ensures
        derefs(final(out)@) == derefs(old(out)@) + step_matches(*value, segment@),
{
    match segment {
        Segment::Key(key) => select_key(value, key.as_str(), out),
        Segment::Index(index) => {
            if let JsonValue::Array(items) = value {
                if *index < items.len() {
                    out.push(&items[*index]);
                }
            }
            assert(derefs(final(out)@) =~= derefs(old(out)@) + step_matches(*value, segment@));
        },
        Segment::Wildcard => {
            match value {
                JsonValue::Array(items) => {
                    let mut i: usize = 0;
                    while i < items.len()
                        invariant
                            i <= items.len(),
                            derefs(out@) == derefs(old(out)@) + items@.take(i as int),
                        decreases items.len() - i,
                    {
                        let ghost prev = out@;
                        out.push(&items[i]);
                        assert(derefs(out@) =~= derefs(prev).push(items@[i as int]));
                        assert(derefs(out@) =~= derefs(old(out)@) + items@.take(i + 1));
                        i += 1;
                    }
                    assert(items@.take(items.len() as int) =~= items@);
                },
                JsonValue::Object(entries) => {
                    let ghost vals = entries@.map_values(|e: (String, JsonValue)| e.1);
                    let mut i: usize = 0;
                    while i < entries.len()
                        invariant
                            i <= entries.len(),
                            vals == entries@.map_values(|e: (String, JsonValue)| e.1),
                            derefs(out@) == derefs(old(out)@) + vals.take(i as int),
                        decreases entries.len() - i,
                    {
                        let ghost prev = out@;
                        out.push(&entries[i].1);
                        assert(derefs(out@) =~= derefs(prev).push(vals[i as int]));
                        assert(derefs(out@) =~= derefs(old(out)@) + vals.take(i + 1));
                        i += 1;
                    }
                    assert(vals.take(entries.len() as int) =~= vals);
                },
                _ => {
                    assert(derefs(final(out)@) =~= derefs(old(out)@) + step_matches(
                        *value,
                        segment@,
                    ));
                },
            }
        },
    }
}

/// Every value that `path` selects from `value`, in document order.
pub fn select_many<'a>(value: &'a JsonValue, path: &Vec<Segment>) -> (r: Vec<&'a JsonValue>)
    ensures
        derefs(r@) == select_path(seq![*value], steps_of(path@)),
{
    let mut current: Vec<&'a JsonValue> = Vec::new();
    current.push(value);
    assert(derefs(current@) =~= seq![*value]);
    let mut k: usize = 0;
    assert(steps_of(path@).skip(0) =~= steps_of(path@));
    while k < path.len()
        invariant
            k <= path.len(),
            select_path(seq![*value], steps_of(path@)) == select_path(
                derefs(current@),
                steps_of(path@).skip(k as int),
            ),
        decreases path.len() - k,
    {
        let mut next: Vec<&'a JsonValue> = Vec::new();
        let mut j: usize = 0;
        while j < current.len()
            invariant
                k < path.len(),
                j <= current.len(),
                derefs(next@) == step_all(derefs(current@).take(j as int), path@[k as int]@),
            decreases current.len() - j,
        {
            assert(derefs(current@).take(j + 1).drop_last() =~= derefs(current@).take(j as int));
            select_step(current[j], &path[k], &mut next);
            j += 1;
        }
        assert(derefs(current@).take(current.len() as int) =~= derefs(current@));
        assert(steps_of(path@).skip(k as int)[0] == path@[k as int]@);
        assert(steps_of(path@).skip(k as int).drop_first() =~= steps_of(path@).skip(k + 1));
        current = next;
        k += 1;
        if current.len() == 0 {
            proof {
                lemma_select_nothing(steps_of(path@).skip(k as int));
            }
            assert(derefs(current@) =~= seq![]);
            return current;
        }
    }
    current
}

/// The first value that `path` selects from `value`.
pub fn select<'a>(value: &'a JsonValue, path: &Vec<Segment>) -> (r: Option<&'a JsonValue>)
    ensures
        match r {
            Some(v) => select_path(seq![*value], steps_of(path@)).len() > 0 && *v == select_path(
                seq![*value],
                steps_of(path@),
            )[0],
            None => select_path(seq![*value], steps_of(path@)).len() == 0,
        },
{
    let all = select_many(value, path);
    if all.len() == 0 {
        None
    } else {
        Some(all[0])
    }
}

/// Nothing is selected from nothing.
pub proof fn lemma_select_nothing(path: Seq<Step>)
    ensures
        select_path(seq![], path) == Seq::<JsonValue>::empty(),
    decreases path.len(),
{
    if path.len() > 0 {
        assert(step_all(seq![], path[0]) =~= seq![]);
        lemma_select_nothing(path.drop_first());
    }
}

/// A key step on a list of values selects what the key selects from each of them.
pub proof fn lemma_key_step_all(vs: Seq<JsonValue>, key: Seq<char>)
    ensures
        step_all(vs, Step::Key(key)) == key_matches_all(vs, key),
    decreases vs.len(),
{
    if vs.len() > 0 {
        lemma_key_step_all(vs.drop_last(), key);
    }
}

/// `$.items.id` is shorthand for `$.items[*].id`: on an array, a key selects what it
/// selects from every item, exactly as a wildcard step followed by the key does.
pub proof fn law_array_key_shorthand(items: Vec<JsonValue>, key: Seq<char>, rest: Seq<Step>)
    ensures
        select_path(seq![JsonValue::Array(items)], seq![Step::Key(key)] + rest) == select_path(
            seq![JsonValue::Array(items)],
            seq![Step::Wildcard, Step::Key(key)] + rest,
        ),
{
    let v = JsonValue::Array(items);
    let p1 = seq![Step::Key(key)] + rest;
    let p2 = seq![Step::Wildcard, Step::Key(key)] + rest;
    assert(p1[0] == Step::Key(key));
    assert(p1.drop_first() =~= rest);
    assert(p2[0] == Step::Wildcard);
    assert(p2.drop_first() =~= seq![Step::Key(key)] + rest);
    assert(seq![v].drop_last() =~= Seq::<JsonValue>::empty());
    assert(seq![v].last() == v);
    assert(step_all(Seq::<JsonValue>::empty(), Step::Key(key)) =~= Seq::<JsonValue>::empty());
    assert(step_all(Seq::<JsonValue>::empty(), Step::Wildcard) =~= Seq::<JsonValue>::empty());
    assert(key_matches(v, key) == key_matches_all(items@, key));
    assert(step_matches(v, Step::Key(key)) == key_matches_all(items@, key));
    assert(step_matches(v, Step::Wildcard) == items@);
    assert(step_all(seq![v], Step::Key(key)) =~= key_matches_all(items@, key));
    assert(step_all(seq![v], Step::Wildcard) =~= items@);
    lemma_key_step_all(items@, key);
    let p3 = seq![Step::Key(key)] + rest;
    assert(p3[0] == Step::Key(key));
    assert(p3.drop_first() =~= rest);
    assert(select_path(items@, p3) == select_path(step_all(items@, Step::Key(key)), rest));
    assert(select_path(seq![v], p2) == select_path(items@, p3));
    assert(select_path(seq![v], p1) == select_path(key_matches_all(items@, key), rest));
}


// ---------------------------------------------------------------------------
// The optional `$`
// ---------------------------------------------------------------------------
proof fn lemma_key_end_shift(p: Seq<char>, s: Seq<char>, i: int)
    requires
        0 <= i <= s.len(),
    ensures
        key_end(p + s, i + p.len()) == key_end(s, i) + p.len(),
    decreases s.len() - i,
{
    if i < s.len() {
        assert((p + s)[i + p.len()] == s[i]);
        lemma_key_end_shift(p, s, i + 1);
    }
}

proof fn lemma_char_end_shift(p: Seq<char>, s: Seq<char>, i: int, c: char)
    requires
        0 <= i <= s.len(),
    ensures
        char_end(p + s, i + p.len(), c) == char_end(s, i, c) + p.len(),
    decreases s.len() - i,
{
    if i < s.len() {
        assert((p + s)[i + p.len()] == s[i]);
        lemma_char_end_shift(p, s, i + 1, c);
    }
}

proof fn lemma_parse_steps_shift(p: Seq<char>, s: Seq<char>, i: int)
    requires
        0 <= i,
    ensures
        parse_steps(p + s, i + p.len()) == parse_steps(s, i),
    decreases s.len() - i,
{
    let t = p + s;
    let d = p.len() as int;
    if i < s.len() {
        assert forall|m: int| i <= m < s.len() implies t[m + d] == s[m] by {}
        assert(t[i + d] == s[i]);
        if s[i] == '.' {
            if i + 1 < s.len() && s[i + 1] == '*' {
                assert(t[i + d + 1] == s[i + 1]);
                lemma_parse_steps_shift(p, s, i + 2);
            } else {
                if i + 1 < s.len() {
                    assert(t[i + d + 1] == s[i + 1]);
                }
                lemma_key_end_shift(p, s, i + 1);
                lemma_key_end_bounds(s, i + 1);
                let e = key_end(s, i + 1);
                assert(t.subrange(i + d + 1, e + d) =~= s.subrange(i + 1, e));
                lemma_parse_steps_shift(p, s, e);
            }
        } else if s[i] == '[' {
            if i + 1 < s.len() {
                assert(t[i + d + 1] == s[i + 1]);
            }
            if i + 2 < s.len() {
                assert(t[i + d + 2] == s[i + 2]);
            }
            if i + 1 < s.len() && s[i + 1] == '*' {
                if i + 2 < s.len() && s[i + 2] == ']' {
                    lemma_parse_steps_shift(p, s, i + 3);
                }
            } else if i + 1 < s.len() && (s[i + 1] == '"' || s[i + 1] == '\'') {
                lemma_char_end_shift(p, s, i + 2, s[i + 1]);
                lemma_char_end_bounds(s, i + 2, s[i + 1]);
                let e = char_end(s, i + 2, s[i + 1]);
                if e + 1 < s.len() {
                    assert(t[e + d + 1] == s[e + 1]);
                }
                assert(t.subrange(i + d + 2, e + d) =~= s.subrange(i + 2, e));
                if e + 1 < s.len() {
                    lemma_parse_steps_shift(p, s, e + 2);
                }
            } else {
                lemma_char_end_shift(p, s, i + 1, ']');
                lemma_char_end_bounds(s, i + 1, ']');
                let e = char_end(s, i + 1, ']');
                assert(t.subrange(i + d + 1, e + d) =~= s.subrange(i + 1, e));
                if e < s.len() {
                    lemma_parse_steps_shift(p, s, e + 1);
                }
            }
        }
    }
}

proof fn lemma_spaces_bounds(s: Seq<char>)
    ensures
        leading_spaces(s) <= s.len(),
        trailing_spaces(s) <= s.len(),
    decreases s.len(),
{
    if s.len() > 0 {
        lemma_spaces_bounds(s.drop_first());
        lemma_spaces_bounds(s.drop_last());
    }
}

proof fn lemma_trailing_after_dollar(s: Seq<char>)
    ensures
        trailing_spaces(seq!['$'] + s) == trailing_spaces(s),
    decreases s.len(),
{
    assert(('$' as u32) == 0x24);
    assert(!is_space('$'));
    let d = seq!['$'] + s;
    if s.len() > 0 {
        assert(d.last() == s.last());
        assert(d.drop_last() =~= seq!['$'] + s.drop_last());
        lemma_trailing_after_dollar(s.drop_last());
    } else {
        assert(d =~= seq!['$']);
        assert(d.last() == '$');
    }
}

/// The leading `$` is optional: on a selector without leading whitespace that does
/// not start with `$`, writing `$` before it changes nothing; the empty selector and
/// `$` alone select the value itself.
pub proof fn law_dollar_is_optional(s: Seq<char>)
    requires
        trim_start(s) == s,
        !(s.len() > 0 && s[0] == '$'),
    ensures
        path_steps(seq!['$'] + s) == path_steps(s),
        path_steps(seq![]) == Ok::<Seq<Step>, PathFault>(seq![]),
        path_steps(seq!['$']) == Ok::<Seq<Step>, PathFault>(seq![]),
{
    let d = seq!['$'] + s;
    assert(('$' as u32) == 0x24);
    assert(!is_space('$'));
    lemma_spaces_bounds(s);
    lemma_spaces_bounds(d);
    lemma_trailing_after_dollar(s);
    let t = trailing_spaces(s) as int;
    let ts = trim(s);
    assert(leading_spaces(d) == 0);
    assert(d.skip(0) =~= d);
    assert(ts == s.take(s.len() - t));
    assert(trim(d) =~= seq!['$'] + ts);
    lemma_parse_steps_shift(seq!['$'], ts, 0);
    if ts.len() > 0 {
        assert(ts[0] == s[0]);
    }
    let e: Seq<char> = seq![];
    assert(leading_spaces(e) == 0);
    assert(trim(e) =~= e);
    let one = seq!['$'];
    assert(leading_spaces(one) == 0);
    assert(one.skip(0) =~= one);
    assert(trailing_spaces(one) == 0);
    assert(one.take(1) =~= one);
    assert(trim(one) == one);
}

// ---------------------------------------------------------------------------
// Bracketed selectors
// ---------------------------------------------------------------------------
/// A step written in brackets: `['key']`, `[index]` or `[*]`.
pub open spec fn bracketed_step(st: Step) -> Seq<char> {
    match st {
        Step::Key(k) => seq!['[', '\''] + k + seq!['\'', ']'],
        Step::Index(n) => seq!['['] + decimal(n) + seq![']'],
        Step::Wildcard => seq!['[', '*', ']'],
    }
}

/// Steps written one after another in brackets.
pub open spec fn bracketed(steps: Seq<Step>) -> Seq<char>
    decreases steps.len(),
{
    if steps.len() == 0 {
        seq![]
    } else {
        bracketed_step(steps[0]) + bracketed(steps.drop_first())
    }
}

/// A step that brackets can hold: a key without `'`, an index that fits a `usize`.
pub open spec fn writable(st: Step) -> bool {
    match st {
        Step::Key(k) => forall|m: int| 0 <= m < k.len() ==> k[m] != '\'',
        Step::Index(n) => n <= usize::MAX,
        Step::Wildcard => true,
    }
}

proof fn lemma_bracketed_last(steps: Seq<Step>)
    requires
        steps.len() > 0,
    ensures
        bracketed(steps).len() > 0 && bracketed(steps).last() == ']',
    decreases steps.len(),
{
    let piece = bracketed_step(steps[0]);
    let rest = bracketed(steps.drop_first());
    if steps.len() > 1 {
        lemma_bracketed_last(steps.drop_first());
        assert((piece + rest).last() == rest.last());
    } else {
        assert(rest =~= seq![]);
        assert(piece + rest =~= piece);
    }
}

proof fn lemma_bracketed_steps(steps: Seq<Step>)
    requires
        forall|i: int| 0 <= i < steps.len() ==> writable(#[trigger] steps[i]),
    ensures
        parse_steps(bracketed(steps), 0) == Ok::<Seq<Step>, PathFault>(steps),
    decreases steps.len(),
{
    if steps.len() == 0 {
        assert(parse_steps(bracketed(steps), 0) == Ok::<Seq<Step>, PathFault>(seq![]));
        assert(steps =~= seq![]);
    } else {
        let st = steps[0];
        assert(writable(steps[0]));
        let piece = bracketed_step(st);
        let rest = bracketed(steps.drop_first());
        let t = piece + rest;
        assert forall|i: int| 0 <= i < steps.drop_first().len() implies writable(
            #[trigger] steps.drop_first()[i],
        ) by {
            assert(steps.drop_first()[i] == steps[i + 1]);
        }
        lemma_bracketed_steps(steps.drop_first());
        lemma_parse_steps_shift(piece, rest, 0);
        assert(t[0] == '[');
        match st {
            Step::Key(k) => {
                let e: int = 2 + k.len() as int;
                assert(t[1] == '\'');
                assert forall|m: int| 2 <= m < e implies t[m] != '\'' by {
                    assert(t[m] == k[m - 2]);
                }
                lemma_char_end(t, 2, e, '\'');
                assert(t[e] == '\'');
                assert(t[e + 1] == ']');
                assert(t.subrange(2, e) =~= k);
            },
            Step::Index(n) => {
                let dec = decimal(n);
                crate::proto_sort::lemma_decimal_digits(n);
                let e: int = 1 + dec.len() as int;
                assert(t[1] == dec[0]);
                assert(is_digit(dec[0]));
                assert forall|m: int| 1 <= m < e implies t[m] != ']' by {
                    assert(t[m] == dec[m - 1]);
                    assert(is_digit(dec[m - 1]));
                }
                lemma_char_end(t, 1, e, ']');
                assert(t[e] == ']');
                assert(t.subrange(1, e) =~= dec);
                assert(dec[0] != '+');
            },
            Step::Wildcard => {
                assert(t[1] == '*');
                assert(t[2] == ']');
            },
        }
        assert(seq![st] + steps.drop_first() =~= steps);
    }
}

/// Bracketed selectors read back: `$` followed by steps written in brackets (keys
/// without `'`) parses to exactly those steps.
pub proof fn law_bracketed_round_trip(steps: Seq<Step>)
    requires
        forall|i: int| 0 <= i < steps.len() ==> writable(#[trigger] steps[i]),
    ensures
        path_steps(seq!['$'] + bracketed(steps)) == Ok::<Seq<Step>, PathFault>(steps),
{
    let b = bracketed(steps);
    let d = seq!['$'] + b;
    assert(('$' as u32) == 0x24);
    assert((']' as u32) == 0x5d);
    assert(!is_space('$'));
    assert(!is_space(']'));
    if steps.len() > 0 {
        lemma_bracketed_last(steps);
        assert(d.last() == b.last());
    }
    assert(leading_spaces(d) == 0);
    assert(d.skip(0) =~= d);
    assert(trailing_spaces(d) == 0);
    assert(d.take(d.len() as int) =~= d);
    assert(trim(d) == d);
    lemma_parse_steps_shift(seq!['$'], b, 0);
    lemma_bracketed_steps(steps);
}


/// `[` and the quote `q`, the key `k`, then `q` and `]`.
pub open spec fn quoted_key(q: char, k: Seq<char>) -> Seq<char> {
    seq!['[', q] + k + seq![q, ']']
}

proof fn lemma_quoted_key_step(q: char, k: Seq<char>, rest: Seq<char>)
    requires
        q == '"' || q == '\'',
        forall|m: int| 0 <= m < k.len() ==> k[m] != q,
    ensures
        parse_steps(quoted_key(q, k) + rest, 0) == then_steps(seq![Step::Key(k)], parse_steps(rest, 0)),
{
    let piece = quoted_key(q, k);
    let t = piece + rest;
    lemma_parse_steps_shift(piece, rest, 0);
    let e: int = 2 + k.len() as int;
    assert(t[0] == '[');
    assert(t[1] == q);
    assert forall|m: int| 2 <= m < e implies t[m] != q by {
        assert(t[m] == k[m - 2]);
    }
    lemma_char_end(t, 2, e, q);
    assert(t[e] == q);
    assert(t[e + 1] == ']');
    assert(t.subrange(2, e) =~= k);
    assert(piece.len() == e + 2);
}

proof fn lemma_dollar_quoted(q: char, k: Seq<char>)
    ensures
        path_steps(seq!['$'] + quoted_key(q, k)) == parse_steps(quoted_key(q, k), 0),
{
    assert((']' as u32) == 0x5d);
    assert(('$' as u32) == 0x24);
    assert(!is_space('$'));
    assert(!is_space(']'));
    let piece = quoted_key(q, k);
    let d = seq!['$'] + piece;
    assert(d.last() == ']');
    assert(leading_spaces(d) == 0);
    assert(d.skip(0) =~= d);
    assert(trailing_spaces(d) == 0);
    assert(d.take(d.len() as int) =~= d);
    assert(trim(d) == d);
    lemma_parse_steps_shift(seq!['$'], piece, 0);
}

/// A bracketed key may be quoted with `"` or `'`: for a key without quote
/// characters, `$["key"]` and `$['key']` both select exactly that key, and so does
/// each quoted step in front of any further selector text.
pub proof fn law_either_quote(k: Seq<char>, rest: Seq<char>)
    requires
        forall|m: int| 0 <= m < k.len() ==> k[m] != '"' && k[m] != '\'',
    ensures
        path_steps(seq!['$'] + quoted_key('"', k)) == Ok::<Seq<Step>, PathFault>(seq![Step::Key(k)]),
        path_steps(seq!['$'] + quoted_key('\'', k)) == Ok::<Seq<Step>, PathFault>(seq![Step::Key(k)]),
        parse_steps(quoted_key('"', k) + rest, 0) == then_steps(seq![Step::Key(k)], parse_steps(rest, 0)),
        parse_steps(quoted_key('\'', k) + rest, 0) == then_steps(seq![Step::Key(k)], parse_steps(rest, 0)),
{
    lemma_quoted_key_step('"', k, rest);
    lemma_quoted_key_step('\'', k, rest);
    let e: Seq<char> = seq![];
    lemma_quoted_key_step('"', k, e);
    lemma_quoted_key_step('\'', k, e);
    assert(parse_steps(e, 0) == Ok::<Seq<Step>, PathFault>(seq![]));
    assert(seq![Step::Key(k)] + Seq::<Step>::empty() =~= seq![Step::Key(k)]);
    assert((']' as u32) == 0x5d);
    assert(('$' as u32) == 0x24);
    assert(!is_space('$'));
    assert(!is_space(']'));
    lemma_dollar_quoted('"', k);
    lemma_dollar_quoted('\'', k);
    assert(quoted_key('"', k) + e =~= quoted_key('"', k));
    assert(quoted_key('\'', k) + e =~= quoted_key('\'', k));
}

} // verus!

//! Completion candidates drawn from a protobuf schema: message, enum and field
//! names, and query paths into a message.
use vstd::prelude::*;

use crate::text::{
    chars_of, compare, has_prefix, has_suffix, lemma_lex_irreflexive, lemma_lex_total,
    lemma_lex_transitive, lex_lt, push_all, push_str, same, slice_of, str_eq, string_of,
    Order,
};

verus! {

// ---------------------------------------------------------------------------
// The schema
// ---------------------------------------------------------------------------
/// The type of a field's values.
#[derive(Debug, Clone, Copy, PartialEq, Eq)]
pub enum FieldKind {
    Double,
    Float,
    Int32,
    Int64,
    Uint32,
    Uint64,
    Sint32,
    Sint64,
    Fixed32,
    Fixed64,
    Sfixed32,
    Sfixed64,
    Bool,
    String,
    Bytes,
    /// A message type, by its position in [`Schema::messages`].
    Message(usize),
    Enum,
}

/// A field of a message: its name, its JSON name, its type, and whether it is
/// repeated (a list) or a map.
#[derive(Debug)]
pub struct FieldInfo {
    pub name: String,
    pub json_name: String,
    pub kind: FieldKind,
    pub is_list: bool,
    pub is_map: bool,
}

/// A message type: its fully qualified name, whether it is a map's entry type,
/// and its fields in declaration order.
#[derive(Debug)]
pub struct MessageInfo {
    pub full_name: String,
    pub is_map_entry: bool,
    pub fields: Vec<FieldInfo>,
}

/// The message and enum types of a descriptor pool.
#[derive(Debug)]
pub struct Schema {
    pub messages: Vec<MessageInfo>,
    /// Fully qualified enum names.
    pub enums: Vec<String>,
}

impl Schema {
    /// Every message-typed field refers to a message of the schema.
    pub open spec fn wf(&self) -> bool {
        forall|m: int, f: int|
            #![trigger self.messages@[m].fields@[f]]
            0 <= m < self.messages@.len() && 0 <= f < self.messages@[m].fields@.len() ==> (
            self.messages@[m].fields@[f].kind matches FieldKind::Message(t) ==> t
                < self.messages@.len())
    }

    /// Whether every message-typed field refers to a message of the schema.
    pub fn is_well_formed(&self) -> (r: bool)
        ensures
            r == self.wf(),
    {
        let n = self.messages.len();
        let mut m: usize = 0;
        while m < n
            invariant
                m <= n,
                n == self.messages@.len(),
                forall|a: int, f: int|
                    #![trigger self.messages@[a].fields@[f]]
                    0 <= a < m && 0 <= f < self.messages@[a].fields@.len() ==> (
                    self.messages@[a].fields@[f].kind matches FieldKind::Message(t) ==> t < n),
            decreases n - m,
        {
            let fields = &self.messages[m].fields;
            let mut f: usize = 0;
            while f < fields.len()
                invariant
                    f <= fields.len(),
                    m < n,
                    n == self.messages@.len(),
                    fields == &self.messages@[m as int].fields,
                    forall|a: int, g: int|
                        #![trigger self.messages@[a].fields@[g]]
                        0 <= a < m && 0 <= g < self.messages@[a].fields@.len() ==> (
                        self.messages@[a].fields@[g].kind matches FieldKind::Message(t) ==> t < n),
                    forall|g: int|
                        0 <= g < f ==> ((#[trigger] self.messages@[m as int].fields@[g]).kind matches FieldKind::Message(t)
                            ==> t < n),
                decreases fields.len() - f,
            {
                if let FieldKind::Message(t) = fields[f].kind {
                    if t >= n {
                        assert(self.messages@[m as int].fields@[f as int].kind == FieldKind::Message(t));
                        return false;
                    }
                }
                f += 1;
            }
            m += 1;
        }
        true
    }
}

/// A completion: the text to insert and a short description.
#[derive(Debug, Clone, PartialEq, Eq)]
pub struct Candidate {
    pub value: String,
    pub detail: String,
}

/// A candidate's meaning: value and detail.
pub type Cand = (Seq<char>, Seq<char>);

impl View for Candidate {
    type V = Cand;

    open spec fn view(&self) -> Cand {
        (self.value@, self.detail@)
    }
}

pub open spec fn cands_view(cs: Seq<Candidate>) -> Seq<Cand> {
    cs.map_values(|c: Candidate| c@)
}

/// Why candidates could not be computed.
#[derive(Debug, Clone, PartialEq, Eq)]
pub enum SchemaError {
    /// No message has this name.
    MessageNotFound(String),
    /// A path step names no field: the field, and the path being resolved.
    FieldNotFound(String, String),
    /// A map field whose values are not messages.
    MapWithoutMessages(String),
    /// A path step names a field that is not a message: the field and its type.
    NotAMessage(String, String),
    /// `--message` is needed and the schema has no message type; the context.
    NoMessages(String),
    /// `--message` is needed and the schema has several message types; the context.
    SeveralMessages(String),
}

// ---------------------------------------------------------------------------
// Sorted, duplicate-free candidate lists
// ---------------------------------------------------------------------------
/// Candidates ordered by value, then by detail.
pub open spec fn cand_lt(a: Cand, b: Cand) -> bool {
    lex_lt(a.0, b.0) || (a.0 == b.0 && lex_lt(a.1, b.1))
}

/// Strictly increasing: sorted, and no candidate twice.
pub open spec fn sorted_unique(cs: Seq<Cand>) -> bool {
    forall|i: int, j: int| 0 <= i < j < cs.len() ==> cand_lt(#[trigger] cs[i], #[trigger] cs[j])
}

pub proof fn lemma_cand_order(a: Cand, b: Cand, c: Cand)
    ensures
        !cand_lt(a, a),
        cand_lt(a, b) || cand_lt(b, a) || a == b,
        cand_lt(a, b) && cand_lt(b, c) ==> cand_lt(a, c),
{
    lemma_lex_irreflexive(a.0);
    lemma_lex_irreflexive(a.1);
    lemma_lex_total(a.0, b.0);
    lemma_lex_total(a.1, b.1);
    if cand_lt(a, b) && cand_lt(b, c) {
        if lex_lt(a.0, b.0) && lex_lt(b.0, c.0) {
            lemma_lex_transitive(a.0, b.0, c.0);
        } else if lex_lt(a.1, b.1) && lex_lt(b.1, c.1) && a.0 == b.0 && b.0 == c.0 {
            lemma_lex_transitive(a.1, b.1, c.1);
        }
    }
}

// ---------------------------------------------------------------------------
// Names
// ---------------------------------------------------------------------------
/// The part of a dotted name after its last `.` (all of it without a dot).
pub open spec fn last_segment(name: Seq<char>) -> Seq<char>
    decreases name.len(),
{
    if name.len() == 0 {
        name
    } else if name.last() == '.' {
        seq![]
    } else {
        last_segment(name.drop_last()).push(name.last())
    }
}

/// A name matches a prefix when it, or its last segment, starts with it.
pub open spec fn name_matches(name: Seq<char>, prefix: Seq<char>) -> bool {
    has_prefix(name, prefix) || has_prefix(last_segment(name), prefix)
}

/// Candidates for the messages whose name matches `prefix`.
pub open spec fn message_list(ms: Seq<MessageInfo>, prefix: Seq<char>) -> Seq<Cand>
    decreases ms.len(),
{
    if ms.len() == 0 {
        seq![]
    } else {
        message_list(ms.drop_last(), prefix) + if name_matches(ms.last().full_name@, prefix) {
            seq![(ms.last().full_name@, "message"@)]
        } else {
            seq![]
        }
    }
}

/// Candidates for the enums whose name matches `prefix`.
pub open spec fn enum_list(es: Seq<String>, prefix: Seq<char>) -> Seq<Cand>
    decreases es.len(),
{
    if es.len() == 0 {
        seq![]
    } else {
        enum_list(es.drop_last(), prefix) + if name_matches(es.last()@, prefix) {
            seq![(es.last()@, "enum"@)]
        } else {
            seq![]
        }
    }
}

// ---------------------------------------------------------------------------
// Fields
// ---------------------------------------------------------------------------
pub open spec fn kind_label(k: FieldKind) -> Seq<char> {
    match k {
        FieldKind::Double => "double"@,
        FieldKind::Float => "float"@,
        FieldKind::Int32 => "int32"@,
        FieldKind::Int64 => "int64"@,
        FieldKind::Uint32 => "uint32"@,
        FieldKind::Uint64 => "uint64"@,
        FieldKind::Sint32 => "sint32"@,
        FieldKind::Sint64 => "sint64"@,
        FieldKind::Fixed32 => "fixed32"@,
        FieldKind::Fixed64 => "fixed64"@,
        FieldKind::Sfixed32 => "sfixed32"@,
        FieldKind::Sfixed64 => "sfixed64"@,
        FieldKind::Bool => "bool"@,
        FieldKind::String => "string"@,
        FieldKind::Bytes => "bytes"@,
        FieldKind::Message(_) => "message"@,
        FieldKind::Enum => "enum"@,
    }
}

/// Index of the first field of `fs` whose name (or, with `json`, JSON name) is `name`.
pub open spec fn field_index(fs: Seq<FieldInfo>, name: Seq<char>, json: bool) -> Option<int>
    decreases fs.len(),
{
    if fs.len() == 0 {
        None
    } else {
        match field_index(fs.drop_last(), name, json) {
            Some(i) => Some(i),
            None => if (if json {
                fs.last().json_name@
            } else {
                fs.last().name@
            }) == name {
                Some(fs.len() - 1)
            } else {
                None
            },
        }
    }
}

/// The type label of the entry field `name` (`key` or `value`) of a map entry
/// message, `unknown` where it is missing.
pub open spec fn entry_label(s: Schema, kind: FieldKind, name: Seq<char>) -> Seq<char> {
    match kind {
        FieldKind::Message(e) => match field_index(s.messages@[e as int].fields@, name, false) {
            Some(i) => kind_label(s.messages@[e as int].fields@[i].kind),
            None => "unknown"@,
        },
        _ => "unknown"@,
    }
}

/// A field's type as shown next to a candidate: `map<K, V>`, `repeated T` or `T`.
pub open spec fn field_detail(s: Schema, f: FieldInfo) -> Seq<char> {
    if f.is_map {
        "map<"@ + entry_label(s, f.kind, "key"@) + ", "@ + entry_label(s, f.kind, "value"@) + ">"@
    } else if f.is_list {
        "repeated "@ + kind_label(f.kind)
    } else {
        kind_label(f.kind)
    }
}

/// `name` appended to a path: bare at the root, after the path when it already
/// ends with `.`, otherwise after a `.`.
pub open spec fn join_path(path: Seq<char>, name: Seq<char>) -> Seq<char> {
    if path.len() == 0 {
        name
    } else if has_suffix(path, "."@) {
        path + name
    } else {
        path + "."@ + name
    }
}

/// Query steps into a field besides its name: a map key, or list positions.
pub open spec fn access_steps(f: FieldInfo) -> Seq<Seq<char>> {
    if f.is_map {
        seq![f.json_name@ + "[\"<key>\"]"@]
    } else if f.is_list {
        seq![f.json_name@ + "[*]"@, f.json_name@ + "[0]"@]
    } else {
        seq![]
    }
}

/// The access steps that start with `prefix`, as candidates under `path`.
pub open spec fn access_list(steps: Seq<Seq<char>>, prefix: Seq<char>, path: Seq<char>, detail: Seq<char>) -> Seq<Cand>
    decreases steps.len(),
{
    if steps.len() == 0 {
        seq![]
    } else {
        access_list(steps.drop_last(), prefix, path, detail) + if has_prefix(steps.last(), prefix) {
            seq![(join_path(path, steps.last()), detail)]
        } else {
            seq![]
        }
    }
}

/// The candidates one field offers: its JSON name (or else its name) when it
/// starts with `prefix`, and in query mode its access steps.
pub open spec fn field_cands(s: Schema, f: FieldInfo, prefix: Seq<char>, path: Seq<char>, query: bool) -> Seq<Cand> {
    let name = if has_prefix(f.json_name@, prefix) {
        f.json_name@
    } else if has_prefix(f.name@, prefix) {
        f.name@
    } else {
        seq![]
    };
    let detail = field_detail(s, f);
    let own = if name.len() > 0 {
        seq![(join_path(path, name), detail)]
    } else {
        seq![]
    };
    own + if query {
        access_list(access_steps(f), prefix, path, detail)
    } else {
        seq![]
    }
}

pub open spec fn fields_cands(s: Schema, fs: Seq<FieldInfo>, prefix: Seq<char>, path: Seq<char>, query: bool) -> Seq<Cand>
    decreases fs.len(),
{
    if fs.len() == 0 {
        seq![]
    } else {
        fields_cands(s, fs.drop_last(), prefix, path, query) + field_cands(s, fs.last(), prefix, path, query)
    }
}

/// Index of the message named `name`.
pub open spec fn message_index(ms: Seq<MessageInfo>, name: Seq<char>) -> Option<int>
    decreases ms.len(),
{
    if ms.len() == 0 {
        None
    } else {
        match message_index(ms.drop_last(), name) {
            Some(i) => Some(i),
            None => if ms.last().full_name@ == name {
                Some(ms.len() - 1)
            } else {
                None
            },
        }
    }
}

// ---------------------------------------------------------------------------
// Query paths
// ---------------------------------------------------------------------------
/// The meaning of a [`SchemaError`].
pub enum SchemaFault {
    MessageNotFound(Seq<char>),
    FieldNotFound(Seq<char>, Seq<char>),
    MapWithoutMessages(Seq<char>),
    NotAMessage(Seq<char>, Seq<char>),
    NoMessages(Seq<char>),
    SeveralMessages(Seq<char>),
}

impl View for SchemaError {
    type V = SchemaFault;

    open spec fn view(&self) -> SchemaFault {
        match self {
            SchemaError::MessageNotFound(m) => SchemaFault::MessageNotFound(m@),
            SchemaError::FieldNotFound(f, p) => SchemaFault::FieldNotFound(f@, p@),
            SchemaError::MapWithoutMessages(f) => SchemaFault::MapWithoutMessages(f@),
            SchemaError::NotAMessage(f, k) => SchemaFault::NotAMessage(f@, k@),
            SchemaError::NoMessages(c) => SchemaFault::NoMessages(c@),
            SchemaError::SeveralMessages(c) => SchemaFault::SeveralMessages(c@),
        }
    }
}

/// `s` without its leading `c` characters (`str::trim_start_matches`).
pub open spec fn trim_leading(s: Seq<char>, c: char) -> Seq<char>
    decreases s.len(),
{
    if s.len() > 0 && s[0] == c {
        trim_leading(s.drop_first(), c)
    } else {
        s
    }
}

/// Index of the first `.` at or after `i` (or the end).
pub open spec fn dot_end(s: Seq<char>, i: int) -> int
    decreases s.len() - i,
{
    if i < 0 || i >= s.len() || s[i] == '.' {
        i
    } else {
        dot_end(s, i + 1)
    }
}

pub proof fn lemma_dot_end(s: Seq<char>, i: int)
    requires
        0 <= i <= s.len(),
    ensures
        i <= dot_end(s, i) <= s.len(),
        forall|k: int| i <= k < dot_end(s, i) ==> #[trigger] s[k] != '.',
        dot_end(s, i) < s.len() ==> s[dot_end(s, i)] == '.',
    decreases s.len() - i,
{
    if i < s.len() && s[i] != '.' {
        lemma_dot_end(s, i + 1);
    }
}

/// Index of the first `[` (or the end).
pub open spec fn bracket_end(s: Seq<char>, i: int) -> int
    decreases s.len() - i,
{
    if i < 0 || i >= s.len() || s[i] == '[' {
        i
    } else {
        bracket_end(s, i + 1)
    }
}

/// The field a path segment names: the part before its first `[`.
pub open spec fn segment_field_name(seg: Seq<char>) -> Seq<char> {
    seg.take(bracket_end(seg, 0))
}

/// The message type of a map's values, if they are messages.
pub open spec fn map_value_message(s: Schema, entry: int) -> Option<int> {
    match field_index(s.messages@[entry].fields@, "value"@, false) {
        Some(i) => match s.messages@[entry].fields@[i].kind {
            FieldKind::Message(t) => Some(t as int),
            _ => None,
        },
        None => None,
    }
}

/// Follows the `.`-separated segments of `path` from position `i` down from
/// message `m`: empty segments and `*` are skipped, a field (by JSON name, else by
/// name) must be a message, or a map whose values are messages.
pub open spec fn resolve_from(s: Schema, m: int, path: Seq<char>, i: int, parent: Seq<char>) -> Result<int, SchemaFault>
    decreases path.len() + 1 - i,
{
    if i < 0 || i > path.len() {
        Ok(m)
    } else {
        let j = dot_end(path, i);
        proof {
            lemma_dot_end(path, i);
        }
        let name = segment_field_name(path.subrange(i, j));
        if j == i {
            resolve_from(s, m, path, j + 1, parent)
        } else if name == "*"@ {
            resolve_from(s, m, path, j + 1, parent)
        } else {
            let fs = s.messages@[m].fields@;
            let idx = match field_index(fs, name, true) {
                Some(k) => Some(k),
                None => field_index(fs, name, false),
            };
            match idx {
                None => Err(SchemaFault::FieldNotFound(name, parent)),
                Some(k) => match fs[k].kind {
                    FieldKind::Message(t) => if fs[k].is_map {
                        match map_value_message(s, t as int) {
                            Some(v) => resolve_from(s, v, path, j + 1, parent),
                            None => Err(SchemaFault::MapWithoutMessages(name)),
                        }
                    } else {
                        resolve_from(s, t as int, path, j + 1, parent)
                    },
                    other => Err(SchemaFault::NotAMessage(name, kind_label(other))),
                },
            }
        }
    }
}

/// The message a parent path leads to from `root`.
pub open spec fn resolve_parent(s: Schema, root: int, parent: Seq<char>) -> Result<int, SchemaFault> {
    let path = trim_leading(trim_leading(parent, '$'), '.');
    if path.len() == 0 {
        Ok(root)
    } else {
        resolve_from(s, root, path, 0, parent)
    }
}

/// Index of the last `.` in `s`.
pub open spec fn last_dot(s: Seq<char>) -> Option<int>
    decreases s.len(),
{
    if s.len() == 0 {
        None
    } else if s.last() == '.' {
        Some(s.len() - 1)
    } else {
        last_dot(s.drop_last())
    }
}

/// A partial query split at its last `.`: the parent path (`$` when empty) and
/// the field prefix; without a `.`, the parent is `$.` and the prefix loses its
/// leading `$`s.
pub open spec fn split_query_prefix(prefix: Seq<char>) -> (Seq<char>, Seq<char>) {
    match last_dot(prefix) {
        None => ("$."@, trim_leading(prefix, '$')),
        Some(d) => (if d == 0 {
            "$"@
        } else {
            prefix.take(d)
        }, prefix.skip(d + 1)),
    }
}

/// The candidates `query_path_candidates` draws from (before sorting).
pub open spec fn query_cands(s: Schema, message: Seq<char>, prefix: Seq<char>) -> Result<Seq<Cand>, SchemaFault> {
    match message_index(s.messages@, message) {
        None => Err(SchemaFault::MessageNotFound(message)),
        Some(r) => {
            let normalized = if prefix.len() == 0 {
                "$."@
            } else {
                prefix
            };
            let (parent, field_prefix) = split_query_prefix(normalized);
            match resolve_parent(s, r, parent) {
                Err(e) => Err(e),
                Ok(m) => Ok(fields_cands(s, s.messages@[m].fields@, field_prefix, parent, true)),
            }
        },
    }
}

/// The names of the messages that are not map entries.
pub open spec fn plain_messages(ms: Seq<MessageInfo>) -> Seq<Seq<char>>
    decreases ms.len(),
{
    if ms.len() == 0 {
        seq![]
    } else {
        plain_messages(ms.drop_last()) + if ms.last().is_map_entry {
            seq![]
        } else {
            seq![ms.last().full_name@]
        }
    }
}

// ---------------------------------------------------------------------------
// Executable pieces
// ---------------------------------------------------------------------------
/// Inserts `c` into a sorted, duplicate-free list, unless it is there already.
fn insert_candidate(out: &mut Vec<Candidate>, c: Candidate)
    requires
        sorted_unique(cands_view(old(out)@)),
    ensures
        sorted_unique(cands_view(final(out)@)),
        forall|x: Cand|
            cands_view(final(out)@).contains(x) <==> (cands_view(old(out)@).contains(x) || x == c@),
{
    let ghost v = cands_view(out@);
    let mut p: usize = 0;
    while p < out.len() && cand_before(&out[p], &c)
        invariant
            p <= out.len(),
            v == cands_view(out@),
            forall|k: int| 0 <= k < p ==> cand_lt(#[trigger] v[k], c@),
        decreases out.len() - p,
    {
        p += 1;
    }
    if p < out.len() && str_eq(out[p].value.as_str(), c.value.as_str()) && str_eq(
        out[p].detail.as_str(),
        c.detail.as_str(),
    ) {
        assert(v[p as int] == c@);
        assert forall|x: Cand| v.contains(x) <==> (v.contains(x) || x == c@) by {
            if x == c@ {
                assert(v[p as int] == x);
            }
        }
        return;
    }
    proof {
        if p < out.len() {
            lemma_cand_order(v[p as int], c@, c@);
            assert(v[p as int] != c@);
            assert(!cand_lt(v[p as int], c@));
            assert(cand_lt(c@, v[p as int]));
        }
    }
    out.insert(p, c);
    let ghost w = cands_view(out@);
    assert(w =~= v.insert(p as int, c@));
    assert forall|i: int, j: int| 0 <= i < j < w.len() implies cand_lt(#[trigger] w[i], #[trigger] w[j]) by {
        if j < p {
            assert(cand_lt(v[i], v[j]));
        } else if j == p {
            assert(cand_lt(v[i], c@));
        } else if i == p {
            assert(cand_lt(c@, v[p as int]));
            if j - 1 > p {
                assert(cand_lt(v[p as int], v[j - 1]));
                lemma_cand_order(c@, v[p as int], v[j - 1]);
            }
        } else if i < p {
            assert(cand_lt(v[i], v[j - 1]));
        } else {
            assert(cand_lt(v[i - 1], v[j - 1]));
        }
    }
    assert forall|x: Cand| w.contains(x) <==> (v.contains(x) || x == c@) by {
        if v.contains(x) {
            let k = choose|k: int| 0 <= k < v.len() && #[trigger] v[k] == x;
            if k < p {
                assert(w[k] == x);
            } else {
                assert(w[k + 1] == x);
            }
        }
        if x == c@ {
            assert(w[p as int] == x);
        }
        if w.contains(x) {
            let k = choose|k: int| 0 <= k < w.len() && #[trigger] w[k] == x;
            if k < p {
                assert(v[k] == x);
            } else if k > p {
                assert(v[k - 1] == x);
            }
        }
    }
}

/// `a` sorts strictly before `b`.
fn cand_before(a: &Candidate, b: &Candidate) -> (r: bool)
    ensures
        r == cand_lt(a@, b@),
{
    let av = chars_of(a.value.as_str());
    let bv = chars_of(b.value.as_str());
    match compare(&av, &bv) {
        Order::Less => true,
        Order::Greater => false,
        Order::Equal => {
            let ad = chars_of(a.detail.as_str());
            let bd = chars_of(b.detail.as_str());
            compare(&ad, &bd) == Order::Less
        },
    }
}

/// Sorts candidates by value and detail and drops repeats: the result is the
/// strictly increasing list of the candidates given.
pub fn sorted_candidates(candidates: Vec<Candidate>) -> (r: Vec<Candidate>)
    ensures
        sorted_unique(cands_view(r@)),
        forall|x: Cand| cands_view(r@).contains(x) <==> cands_view(candidates@).contains(x),
{
    let ghost input = cands_view(candidates@);
    let mut out: Vec<Candidate> = Vec::new();
    let mut rest = candidates;
    let n = rest.len();
    // Take the candidates from the back, each inserted into the sorted list.
    while rest.len() > 0
        invariant
            rest@.len() <= n,
            n == input.len(),
            cands_view(rest@) == input.take(rest@.len() as int),
            sorted_unique(cands_view(out@)),
            forall|x: Cand|
                cands_view(out@).contains(x) <==> input.skip(rest@.len() as int).contains(x),
        decreases rest.len(),
    {
        let c = rest.pop().unwrap();
        let ghost k = rest@.len() as int;
        assert(input[k] == c@) by {
            assert(input.take(k + 1)[k] == input[k]);
        }
        assert(cands_view(rest@) =~= input.take(k));
        insert_candidate(&mut out, c);
        assert forall|x: Cand| cands_view(out@).contains(x) <==> input.skip(k).contains(x) by {
            assert(input.skip(k) =~= seq![input[k]] + input.skip(k + 1));
            let a = input.skip(k);
            let b = input.skip(k + 1);
            if a.contains(x) {
                let j = choose|j: int| 0 <= j < a.len() && #[trigger] a[j] == x;
                if j > 0 {
                    assert(b[j - 1] == x);
                }
            }
            if b.contains(x) {
                let j = choose|j: int| 0 <= j < b.len() && #[trigger] b[j] == x;
                assert(a[j + 1] == x);
            }
            if x == input[k] {
                assert(input.skip(k)[0] == x);
            }
        }
    }
    assert(input.skip(0) =~= input);
    out
}

fn string_from(v: &Vec<char>) -> (r: String)
    ensures
        r@ == v@,
{
    string_of(v.as_slice())
}

fn text_of(t: &String) -> (r: Vec<char>)
    ensures
        r@ == t@,
{
    chars_of(t.as_str())
}

pub proof fn lemma_last_segment(name: Seq<char>, d: int)
    requires
        -1 <= d < name.len(),
        d >= 0 ==> name[d] == '.',
        forall|k: int| d < k < name.len() ==> #[trigger] name[k] != '.',
    ensures
        last_segment(name) == name.skip(d + 1),
    decreases name.len(),
{
    if name.len() > 0 && d < name.len() - 1 {
        lemma_last_segment(name.drop_last(), d);
        assert(name.drop_last().skip(d + 1).push(name.last()) =~= name.skip(d + 1));
    } else if name.len() > 0 {
        assert(name.skip(d + 1) =~= seq![]);
    } else {
        assert(name.skip(d + 1) =~= name);
    }
}

/// Whether `name` or its last segment starts with `prefix` (see [`name_matches`]).
fn matches_name(name: &Vec<char>, prefix: &Vec<char>) -> (r: bool)
    ensures
        r == name_matches(name@, prefix@),
{
    let mut d = name.len();
    while d > 0 && name[d - 1] != '.'
        invariant
            d <= name.len(),
            forall|k: int| d <= k < name.len() ==> #[trigger] name@[k] != '.',
        decreases d,
    {
        d -= 1;
    }
    proof {
        lemma_last_segment(name@, d - 1);
    }
    let short = slice_of(name, d, name.len());
    assert(short@ =~= name@.skip(d as int));
    let a = crate::text::matches_at(name, 0, prefix);
    let b = crate::text::matches_at(&short, 0, prefix);
    assert(name@.subrange(0, prefix@.len() as int) =~= name@.take(prefix@.len() as int));
    assert(short@.subrange(0, prefix@.len() as int) =~= short@.take(prefix@.len() as int));
    a || b
}

fn cand(value: &Vec<char>, detail: &str) -> (r: Candidate)
    ensures
        r@ == (value@, detail@),
{
    Candidate { value: string_from(value), detail: detail.to_string() }
}

/// Candidates for the messages whose full name, or its last segment, starts with
/// `prefix`, sorted and without repeats.
pub fn message_candidates(schema: &Schema, prefix: &str) -> (r: Vec<Candidate>)
    ensures
        sorted_unique(cands_view(r@)),
        forall|x: Cand| cands_view(r@).contains(x) <==> message_list(schema.messages@, prefix@).contains(x),
{
    let pv = chars_of(prefix);
    let mut list: Vec<Candidate> = Vec::new();
    let mut i: usize = 0;
    while i < schema.messages.len()
        invariant
            i <= schema.messages.len(),
            pv@ == prefix@,
            cands_view(list@) == message_list(schema.messages@.take(i as int), prefix@),
        decreases schema.messages.len() - i,
    {
        assert(schema.messages@.take(i + 1).drop_last() =~= schema.messages@.take(i as int));
        let name = text_of(&schema.messages[i].full_name);
        if matches_name(&name, &pv) {
            let ghost before = cands_view(list@);
            list.push(cand(&name, "message"));
            assert(cands_view(list@) =~= before.push((name@, "message"@)));
        }
        assert(cands_view(list@) =~= message_list(schema.messages@.take(i + 1), prefix@));
        i += 1;
    }
    assert(schema.messages@.take(i as int) =~= schema.messages@);
    sorted_candidates(list)
}

/// Candidates for the enums whose full name, or its last segment, starts with
/// `prefix`, sorted and without repeats.
pub fn enum_candidates(schema: &Schema, prefix: &str) -> (r: Vec<Candidate>)
    ensures
        sorted_unique(cands_view(r@)),
        forall|x: Cand| cands_view(r@).contains(x) <==> enum_list(schema.enums@, prefix@).contains(x),
{
    let pv = chars_of(prefix);
    let mut list: Vec<Candidate> = Vec::new();
    let mut i: usize = 0;
    while i < schema.enums.len()
        invariant
            i <= schema.enums.len(),
            pv@ == prefix@,
            cands_view(list@) == enum_list(schema.enums@.take(i as int), prefix@),
        decreases schema.enums.len() - i,
    {
        assert(schema.enums@.take(i + 1).drop_last() =~= schema.enums@.take(i as int));
        let name = text_of(&schema.enums[i]);
        if matches_name(&name, &pv) {
            let ghost before = cands_view(list@);
            list.push(cand(&name, "enum"));
            assert(cands_view(list@) =~= before.push((name@, "enum"@)));
        }
        assert(cands_view(list@) =~= enum_list(schema.enums@.take(i + 1), prefix@));
        i += 1;
    }
    assert(schema.enums@.take(i as int) =~= schema.enums@);
    sorted_candidates(list)
}

pub proof fn lemma_field_index_prefix(fs: Seq<FieldInfo>, name: Seq<char>, json: bool, k: int, x: int)
    requires
        0 <= k <= fs.len(),
        field_index(fs.take(k), name, json) == Some(x),
    ensures
        field_index(fs, name, json) == Some(x),
    decreases fs.len() - k,
{
    if k < fs.len() {
        assert(fs.take(k + 1).drop_last() =~= fs.take(k));
        lemma_field_index_prefix(fs, name, json, k + 1, x);
    } else {
        assert(fs.take(k) =~= fs);
    }
}

/// Index of the first field named `name` (see [`field_index`]).
fn find_field(fs: &Vec<FieldInfo>, name: &Vec<char>, json: bool) -> (r: Option<usize>)
    ensures
        match field_index(fs@, name@, json) {
            Some(i) => r matches Some(j) && j == i && i < fs@.len(),
            None => r is None,
        },
{
    let mut i: usize = 0;
    while i < fs.len()
        invariant
            i <= fs.len(),
            field_index(fs@.take(i as int), name@, json) is None,
        decreases fs.len() - i,
    {
        assert(fs@.take(i + 1).drop_last() =~= fs@.take(i as int));
        let candidate = if json {
            text_of(&fs[i].json_name)
        } else {
            text_of(&fs[i].name)
        };
        if crate::text::same(&candidate, name) {
            proof {
                lemma_field_index_prefix(fs@, name@, json, i + 1, i as int);
            }
            return Some(i);
        }
        i += 1;
    }
    assert(fs@.take(i as int) =~= fs@);
    None
}

pub proof fn lemma_message_index_prefix(ms: Seq<MessageInfo>, name: Seq<char>, k: int, x: int)
    requires
        0 <= k <= ms.len(),
        message_index(ms.take(k), name) == Some(x),
    ensures
        message_index(ms, name) == Some(x),
    decreases ms.len() - k,
{
    if k < ms.len() {
        assert(ms.take(k + 1).drop_last() =~= ms.take(k));
        lemma_message_index_prefix(ms, name, k + 1, x);
    } else {
        assert(ms.take(k) =~= ms);
    }
}

/// Index of the message named `name` (see [`message_index`]).
fn find_message(schema: &Schema, name: &Vec<char>) -> (r: Option<usize>)
    ensures
        match message_index(schema.messages@, name@) {
            Some(i) => r matches Some(j) && j == i && i < schema.messages@.len(),
            None => r is None,
        },
{
    let ms = &schema.messages;
    let mut i: usize = 0;
    while i < ms.len()
        invariant
            i <= ms.len(),
            ms == &schema.messages,
            message_index(ms@.take(i as int), name@) is None,
        decreases ms.len() - i,
    {
        assert(ms@.take(i + 1).drop_last() =~= ms@.take(i as int));
        let candidate = text_of(&ms[i].full_name);
        if crate::text::same(&candidate, name) {
            proof {
                lemma_message_index_prefix(ms@, name@, i + 1, i as int);
            }
            return Some(i);
        }
        i += 1;
    }
    assert(ms@.take(i as int) =~= ms@);
    None
}

fn kind_label_of(k: FieldKind) -> (r: &'static str)
    ensures
        r@ == kind_label(k),
{
    match k {
        FieldKind::Double => "double",
        FieldKind::Float => "float",
        FieldKind::Int32 => "int32",
        FieldKind::Int64 => "int64",
        FieldKind::Uint32 => "uint32",
        FieldKind::Uint64 => "uint64",
        FieldKind::Sint32 => "sint32",
        FieldKind::Sint64 => "sint64",
        FieldKind::Fixed32 => "fixed32",
        FieldKind::Fixed64 => "fixed64",
        FieldKind::Sfixed32 => "sfixed32",
        FieldKind::Sfixed64 => "sfixed64",
        FieldKind::Bool => "bool",
        FieldKind::String => "string",
        FieldKind::Bytes => "bytes",
        FieldKind::Message(_) => "message",
        FieldKind::Enum => "enum",
    }
}

/// The type label of a map entry's `key` or `value` field (see [`entry_label`]).
fn entry_label_of(schema: &Schema, kind: FieldKind, name: &str) -> (r: &'static str)
    requires
        kind matches FieldKind::Message(e) ==> e < schema.messages@.len(),
    ensures
        r@ == entry_label(*schema, kind, name@),
{
    match kind {
        FieldKind::Message(e) => {
            let nv = chars_of(name);
            match find_field(&schema.messages[e].fields, &nv, false) {
                Some(i) => kind_label_of(schema.messages[e].fields[i].kind),
                None => "unknown",
            }
        },
        _ => "unknown",
    }
}

/// A field's type as shown next to a candidate (see [`field_detail`]).
fn field_detail_of(schema: &Schema, f: &FieldInfo) -> (r: Vec<char>)
    requires
        f.kind matches FieldKind::Message(e) ==> e < schema.messages@.len(),
    ensures
        r@ == field_detail(*schema, *f),
{
    let mut out: Vec<char> = Vec::new();
    if f.is_map {
        push_str(&mut out, "map<");
        push_str(&mut out, entry_label_of(schema, f.kind, "key"));
        push_str(&mut out, ", ");
        push_str(&mut out, entry_label_of(schema, f.kind, "value"));
        push_str(&mut out, ">");
    } else if f.is_list {
        push_str(&mut out, "repeated ");
        push_str(&mut out, kind_label_of(f.kind));
    } else {
        push_str(&mut out, kind_label_of(f.kind));
    }
    assert(out@ =~= field_detail(*schema, *f));
    out
}

/// `name` appended to a path (see [`join_path`]).
fn join_path_of(path: &Vec<char>, name: &Vec<char>) -> (r: Vec<char>)
    ensures
        r@ == join_path(path@, name@),
{
    proof {
        reveal_strlit(".");
    }
    let mut out = crate::text::copy_line(path);
    if path.len() == 0 {
        return crate::text::copy_line(name);
    }
    if !crate::text::ends_with(path, ".") {
        out.push('.');
    }
    push_all(&mut out, name);
    assert(out@ =~= join_path(path@, name@));
    out
}

/// Appends the candidates one field offers (see [`field_cands`]).
fn push_field_cands(out: &mut Vec<Candidate>, schema: &Schema, f: &FieldInfo, prefix: &Vec<char>, path: &Vec<char>, query: bool)
    requires
        f.kind matches FieldKind::Message(e) ==> e < schema.messages@.len(),
    ensures
        cands_view(final(out)@) == cands_view(old(out)@) + field_cands(*schema, *f, prefix@, path@, query),
{
    let json_name = text_of(&f.json_name);
    let proto_name = text_of(&f.name);
    let name = if crate::text::matches_at(&json_name, 0, prefix) {
        crate::text::copy_line(&json_name)
    } else if crate::text::matches_at(&proto_name, 0, prefix) {
        crate::text::copy_line(&proto_name)
    } else {
        Vec::new()
    };
    assert(json_name@.subrange(0, prefix@.len() as int) =~= json_name@.take(prefix@.len() as int));
    assert(proto_name@.subrange(0, prefix@.len() as int) =~= proto_name@.take(prefix@.len() as int));
    let detail = field_detail_of(schema, f);
    let ghost before = cands_view(out@);
    if name.len() > 0 {
        let value = join_path_of(path, &name);
        out.push(Candidate { value: string_from(&value), detail: string_from(&detail) });
    }
    let ghost mid = cands_view(out@);
    assert(mid =~= before + (if name@.len() > 0 {
        seq![(join_path(path@, name@), detail@)]
    } else {
        seq![]
    }));
    if query {
        let mut steps: Vec<Vec<char>> = Vec::new();
        if f.is_map {
            let mut st = crate::text::copy_line(&json_name);
            push_str(&mut st, "[\"<key>\"]");
            steps.push(st);
        } else if f.is_list {
            let mut a = crate::text::copy_line(&json_name);
            push_str(&mut a, "[*]");
            let mut b = crate::text::copy_line(&json_name);
            push_str(&mut b, "[0]");
            steps.push(a);
            steps.push(b);
        }
        assert(crate::text::lines_view(steps@) =~= access_steps(*f));
        let ghost sv = access_steps(*f);
        let mut k: usize = 0;
        while k < steps.len()
            invariant
                k <= steps.len(),
                sv == crate::text::lines_view(steps@),
                cands_view(out@) == mid + access_list(sv.take(k as int), prefix@, path@, detail@),
            decreases steps.len() - k,
        {
            assert(sv.take(k + 1).drop_last() =~= sv.take(k as int));
            let st = &steps[k];
            assert(st@ == sv[k as int]);
            let ghost prev = cands_view(out@);
            if crate::text::matches_at(st, 0, prefix) {
                let value = join_path_of(path, st);
                out.push(Candidate { value: string_from(&value), detail: string_from(&detail) });
                assert(cands_view(out@) =~= prev.push((join_path(path@, st@), detail@)));
            }
            assert(st@.subrange(0, prefix@.len() as int) =~= st@.take(prefix@.len() as int));
            assert(cands_view(out@) =~= mid + access_list(sv.take(k + 1), prefix@, path@, detail@));
            k += 1;
        }
        assert(sv.take(k as int) =~= sv);
    }
    assert(cands_view(out@) =~= before + field_cands(*schema, *f, prefix@, path@, query));
}

/// The candidates of all fields of message `m` (see [`fields_cands`]), sorted.
fn message_field_candidates(schema: &Schema, m: usize, prefix: &Vec<char>, path: &Vec<char>, query: bool) -> (r: Vec<Candidate>)
    requires
        schema.wf(),
        m < schema.messages@.len(),
    ensures
        sorted_unique(cands_view(r@)),
        forall|x: Cand|
            cands_view(r@).contains(x) <==> fields_cands(
                *schema,
                schema.messages@[m as int].fields@,
                prefix@,
                path@,
                query,
            ).contains(x),
{
    let fs = &schema.messages[m].fields;
    let mut list: Vec<Candidate> = Vec::new();
    let mut i: usize = 0;
    while i < fs.len()
        invariant
            i <= fs.len(),
            schema.wf(),
            m < schema.messages@.len(),
            fs == &schema.messages@[m as int].fields,
            cands_view(list@) == fields_cands(*schema, fs@.take(i as int), prefix@, path@, query),
        decreases fs.len() - i,
    {
        assert(fs@.take(i + 1).drop_last() =~= fs@.take(i as int));
        assert(schema.messages@[m as int].fields@[i as int] == fs@[i as int]);
        push_field_cands(&mut list, schema, &fs[i], prefix, path, query);
        i += 1;
    }
    assert(fs@.take(i as int) =~= fs@);
    sorted_candidates(list)
}

/// Candidates for the fields of `message` whose JSON name or name starts with
/// `prefix`, sorted and without repeats.
pub fn field_candidates(schema: &Schema, message: &str, prefix: &str) -> (r: Result<Vec<Candidate>, SchemaError>)
    requires
        schema.wf(),
    ensures
        match message_index(schema.messages@, message@) {
            None => r matches Err(e) && e@ == SchemaFault::MessageNotFound(message@),
            Some(m) => r matches Ok(cs) && sorted_unique(cands_view(cs@)) && forall|x: Cand|
                cands_view(cs@).contains(x) <==> fields_cands(
                    *schema,
                    schema.messages@[m].fields@,
                    prefix@,
                    seq![],
                    false,
                ).contains(x),
        },
{
    let name = chars_of(message);
    match find_message(schema, &name) {
        None => Err(SchemaError::MessageNotFound(message.to_string())),
        Some(m) => {
            let pv = chars_of(prefix);
            let empty: Vec<char> = Vec::new();
            Ok(message_field_candidates(schema, m, &pv, &empty, false))
        },
    }
}

pub proof fn lemma_trim_leading(s: Seq<char>, c: char, k: int)
    requires
        0 <= k <= s.len(),
        forall|j: int| 0 <= j < k ==> #[trigger] s[j] == c,
        k == s.len() || s[k] != c,
    ensures
        trim_leading(s, c) == s.skip(k),
    decreases k,
{
    if k > 0 {
        assert forall|j: int| 0 <= j < k - 1 implies #[trigger] s.drop_first()[j] == c by {
            assert(s.drop_first()[j] == s[j + 1]);
        }
        if k < s.len() {
            assert(s.drop_first()[k - 1] == s[k]);
        }
        lemma_trim_leading(s.drop_first(), c, k - 1);
        assert(s.drop_first().skip(k - 1) =~= s.skip(k));
    } else {
        assert(s.skip(0) =~= s);
    }
}

/// `s` without its leading `c` characters.
fn trim_leading_of(s: &Vec<char>, c: char) -> (r: Vec<char>)
    ensures
        r@ == trim_leading(s@, c),
{
    let mut k: usize = 0;
    while k < s.len() && s[k] == c
        invariant
            k <= s.len(),
            forall|j: int| 0 <= j < k ==> #[trigger] s@[j] == c,
        decreases s.len() - k,
    {
        k += 1;
    }
    proof {
        lemma_trim_leading(s@, c, k as int);
    }
    let r = slice_of(s, k, s.len());
    assert(r@ =~= s@.skip(k as int));
    r
}

pub proof fn lemma_bracket_end(s: Seq<char>, i: int, e: int)
    requires
        0 <= i <= e <= s.len(),
        forall|k: int| i <= k < e ==> #[trigger] s[k] != '[',
        e == s.len() || s[e] == '[',
    ensures
        bracket_end(s, i) == e,
    decreases e - i,
{
    if i < e {
        lemma_bracket_end(s, i + 1, e);
    }
}

/// The message reached from `root` along a parent path (see [`resolve_parent`]).
fn resolve_parent_of(schema: &Schema, root: usize, parent: &Vec<char>) -> (r: Result<usize, SchemaError>)
    requires
        schema.wf(),
        root < schema.messages@.len(),
    ensures
        match resolve_parent(*schema, root as int, parent@) {
            Ok(m) => r matches Ok(x) && x == m && m < schema.messages@.len(),
            Err(e) => r matches Err(x) && x@ == e,
        },
{
    let path = trim_leading_of(&trim_leading_of(parent, '$'), '.');
    if path.len() == 0 {
        return Ok(root);
    }
    let mut cur = root;
    let mut i: usize = 0;
    loop
        invariant
            schema.wf(),
            cur < schema.messages@.len(),
            i <= path@.len(),
            path@ == trim_leading(trim_leading(parent@, '$'), '.'),
            path@.len() > 0,
            resolve_parent(*schema, root as int, parent@) == resolve_from(
                *schema,
                cur as int,
                path@,
                i as int,
                parent@,
            ),
        decreases path.len() - i,
    {
        let mut j = i;
        while j < path.len() && path[j] != '.'
            invariant
                i <= j <= path.len(),
                forall|k: int| i <= k < j ==> #[trigger] path@[k] != '.',
            decreases path.len() - j,
        {
            j += 1;
        }
        proof {
            crate::schema::lemma_dot_end(path@, i as int);
            if dot_end(path@, i as int) != j {
                if dot_end(path@, i as int) < j {
                    assert(path@[dot_end(path@, i as int)] == '.');
                } else {
                    assert(path@[j as int] == '.');
                }
            }
        }
        if j > i {
            let seg = slice_of(&path, i, j);
            let mut b: usize = 0;
            while b < seg.len() && seg[b] != '['
                invariant
                    b <= seg.len(),
                    forall|k: int| 0 <= k < b ==> #[trigger] seg@[k] != '[',
                decreases seg.len() - b,
            {
                b += 1;
            }
            proof {
                lemma_bracket_end(seg@, 0, b as int);
            }
            let name = slice_of(&seg, 0, b);
            assert(name@ =~= segment_field_name(path@.subrange(i as int, j as int)));
            proof {
                reveal_strlit("*");
            }
            if !crate::text::is(&name, "*") {
                let fs = &schema.messages[cur].fields;
                let idx = match find_field(fs, &name, true) {
                    Some(k) => Some(k),
                    None => find_field(fs, &name, false),
                };
                let k = match idx {
                    Some(k) => k,
                    None => {
                        return Err(SchemaError::FieldNotFound(string_from(&name), string_from(parent)));
                    },
                };
                let f = &fs[k];
                assert(schema.messages@[cur as int].fields@[k as int] == *f);
                match f.kind {
                    FieldKind::Message(t) => {
                        if f.is_map {
                            let value_name = chars_of("value");
                            match find_field(&schema.messages[t].fields, &value_name, false) {
                                Some(v) => {
                                    assert(schema.messages@[t as int].fields@[v as int] == schema.messages[t as int].fields@[v as int]);
                                    match schema.messages[t].fields[v].kind {
                                        FieldKind::Message(vt) => {
                                            cur = vt;
                                        },
                                        _ => {
                                            return Err(SchemaError::MapWithoutMessages(string_from(&name)));
                                        },
                                    }
                                },
                                None => {
                                    return Err(SchemaError::MapWithoutMessages(string_from(&name)));
                                },
                            }
                        } else {
                            cur = t;
                        }
                    },
                    other => {
                        return Err(SchemaError::NotAMessage(string_from(&name), kind_label_of(other).to_string()));
                    },
                }
            }
        }
        assert(resolve_from(*schema, cur as int, path@, j + 1, parent@) == resolve_parent(
            *schema,
            root as int,
            parent@,
        ));
        if j == path.len() {
            assert(resolve_from(*schema, cur as int, path@, j + 1, parent@) == Ok::<int, SchemaFault>(cur as int));
            return Ok(cur);
        }
        i = j + 1;
    }
}

pub proof fn lemma_last_dot(s: Seq<char>, d: int)
    requires
        -1 <= d < s.len(),
        d >= 0 ==> s[d] == '.',
        forall|k: int| d < k < s.len() ==> #[trigger] s[k] != '.',
    ensures
        last_dot(s) == if d < 0 {
            None::<int>
        } else {
            Some(d)
        },
    decreases s.len(),
{
    if s.len() > 0 && d < s.len() - 1 {
        lemma_last_dot(s.drop_last(), d);
    }
}

/// A partial query split at its last `.` (see [`split_query_prefix`]).
fn split_query_prefix_of(prefix: &Vec<char>) -> (r: (Vec<char>, Vec<char>))
    ensures
        (r.0@, r.1@) == split_query_prefix(prefix@),
{
    let mut d = prefix.len();
    while d > 0 && prefix[d - 1] != '.'
        invariant
            d <= prefix.len(),
            forall|k: int| d <= k < prefix.len() ==> #[trigger] prefix@[k] != '.',
        decreases d,
    {
        d -= 1;
    }
    proof {
        lemma_last_dot(prefix@, d - 1);
        reveal_strlit("$.");
        reveal_strlit("$");
    }
    if d == 0 {
        (chars_of("$."), trim_leading_of(prefix, '$'))
    } else {
        let parent = if d == 1 {
            chars_of("$")
        } else {
            slice_of(prefix, 0, d - 1)
        };
        let field = slice_of(prefix, d, prefix.len());
        assert(field@ =~= prefix@.skip(d as int));
        assert(d > 1 ==> parent@ =~= prefix@.take(d - 1));
        (parent, field)
    }
}

/// Candidates for completing a partial query into `message`: the fields (and
/// list or map access steps) of the message the parent path leads to, sorted and
/// without repeats.
pub fn query_path_candidates(schema: &Schema, message: &str, prefix: &str) -> (r: Result<Vec<Candidate>, SchemaError>)
    requires
        schema.wf(),
    ensures
        match query_cands(*schema, message@, prefix@) {
            Err(e) => r matches Err(x) && x@ == e,
            Ok(cs) => r matches Ok(v) && sorted_unique(cands_view(v@)) && forall|x: Cand|
                cands_view(v@).contains(x) <==> cs.contains(x),
        },
{
    let name = chars_of(message);
    let root = match find_message(schema, &name) {
        None => {
            return Err(SchemaError::MessageNotFound(message.to_string()));
        },
        Some(m) => m,
    };
    let pv = chars_of(prefix);
    proof {
        reveal_strlit("$.");
    }
    let normalized = if pv.len() == 0 {
        chars_of("$.")
    } else {
        pv
    };
    let (parent, field_prefix) = split_query_prefix_of(&normalized);
    let m = resolve_parent_of(schema, root, &parent)?;
    Ok(message_field_candidates(schema, m, &field_prefix, &parent, true))
}

/// The message a command works on: the one given, else the only message of the
/// schema that is not a map entry.
pub fn resolve_message_name(schema: &Schema, message: Option<String>, context: &str) -> (r: Result<String, SchemaError>)
    ensures
        match message {
            Some(m) => r matches Ok(x) && x@ == m@,
            None => {
                let names = plain_messages(schema.messages@);
                if names.len() == 1 {
                    r matches Ok(x) && x@ == names[0]
                } else if names.len() == 0 {
                    r matches Err(e) && e@ == SchemaFault::NoMessages(context@)
                } else {
                    r matches Err(e) && e@ == SchemaFault::SeveralMessages(context@)
                }
            },
        },
{
    if let Some(m) = message {
        return Ok(m);
    }
    let mut names: Vec<Vec<char>> = Vec::new();
    let mut i: usize = 0;
    while i < schema.messages.len()
        invariant
            i <= schema.messages.len(),
            crate::text::lines_view(names@) == plain_messages(schema.messages@.take(i as int)),
        decreases schema.messages.len() - i,
    {
        assert(schema.messages@.take(i + 1).drop_last() =~= schema.messages@.take(i as int));
        if !schema.messages[i].is_map_entry {
            let ghost before = crate::text::lines_view(names@);
            names.push(text_of(&schema.messages[i].full_name));
            assert(crate::text::lines_view(names@) =~= before.push(schema.messages@[i as int].full_name@));
        }
        assert(crate::text::lines_view(names@) =~= plain_messages(schema.messages@.take(i + 1)));
        i += 1;
    }
    assert(schema.messages@.take(i as int) =~= schema.messages@);
    if names.len() == 1 {
        Ok(string_from(&names[0]))
    } else if names.len() == 0 {
        Err(SchemaError::NoMessages(context.to_string()))
    } else {
        Err(SchemaError::SeveralMessages(context.to_string()))
    }
}

// ---------------------------------------------------------------------------
// Proto files
// ---------------------------------------------------------------------------
pub open spec fn opt_prefixed(t: Option<&str>, prefix: Seq<char>) -> bool {
    match t {
        Some(s) => has_prefix(s@, prefix),
        None => false,
    }
}

/// A `.proto` file is offered when its path, its path below the include root, or
/// its file name starts with the prefix.
pub fn proto_file_matches(value: &str, relative: Option<&str>, file_name: Option<&str>, prefix: &str) -> (r: bool)
    ensures
        r == (has_prefix(value@, prefix@) || opt_prefixed(relative, prefix@) || opt_prefixed(
            file_name,
            prefix@,
        )),
{
    let pv = chars_of(prefix);
    let starts = |t: &str| -> (b: bool)
        ensures
            b == has_prefix(t@, prefix@),
        {
            let tv = chars_of(t);
            let b = crate::text::matches_at(&tv, 0, &pv);
            assert(tv@.subrange(0, pv@.len() as int) =~= tv@.take(pv@.len() as int));
            b
        };
    let a = starts(value);
    let b = match relative {
        Some(t) => starts(t),
        None => false,
    };
    let c = match file_name {
        Some(t) => starts(t),
        None => false,
    };
    a || b || c
}

/// Values strictly increase.
pub open spec fn values_increase(cs: Seq<Cand>) -> bool {
    forall|i: int, j: int| 0 <= i < j < cs.len() ==> lex_lt(#[trigger] cs[i].0, #[trigger] cs[j].0)
}

/// `c` is the first candidate of `cs` with its value.
pub open spec fn first_with_value(cs: Seq<Cand>, c: Cand) -> bool {
    exists|k: int|
        0 <= k < cs.len() && cs[k] == c && forall|m: int| 0 <= m < k ==> (#[trigger] cs[m]).0 != c.0
}

/// Some candidate of `cs` has value `v`.
pub open spec fn has_value(cs: Seq<Cand>, v: Seq<char>) -> bool {
    exists|i: int| 0 <= i < cs.len() && (#[trigger] cs[i]).0 == v
}

/// Adds `c` to a list built from the candidates `t`, unless its value is there.
fn insert_first(out: &mut Vec<Candidate>, c: &Candidate, Ghost(t): Ghost<Seq<Cand>>)
    requires
        values_increase(cands_view(old(out)@)),
        forall|i: int| 0 <= i < old(out)@.len() ==> first_with_value(t, #[trigger] cands_view(old(out)@)[i]),
        forall|k: int| 0 <= k < t.len() ==> has_value(cands_view(old(out)@), #[trigger] t[k].0),
    ensures
        values_increase(cands_view(final(out)@)),
        forall|i: int| 0 <= i < final(out)@.len() ==> first_with_value(t.push(c@), #[trigger] cands_view(final(out)@)[i]),
        forall|k: int| 0 <= k < t.len() + 1 ==> has_value(cands_view(final(out)@), #[trigger] t.push(c@)[k].0),
{
    let ghost v = cands_view(out@);
    let ghost t2 = t.push(c@);
    let cv = chars_of(c.value.as_str());
    let mut p: usize = 0;
    while p < out.len() && compare(&chars_of(out[p].value.as_str()), &cv) == Order::Less
        invariant
            p <= out.len(),
            v == cands_view(out@),
            cv@ == c.value@,
            forall|k: int| 0 <= k < p ==> lex_lt(#[trigger] v[k].0, c.value@),
        decreases out.len() - p,
    {
        p += 1;
    }
    proof {
        assert forall|i: int| 0 <= i < v.len() implies first_with_value(t2, #[trigger] v[i]) by {
            assert(first_with_value(t, v[i]));
            let k = choose|k: int|
                0 <= k < t.len() && t[k] == v[i] && forall|m: int| 0 <= m < k ==> (#[trigger] t[m]).0 != v[i].0;
            assert(t2[k] == v[i]);
            assert forall|m: int| 0 <= m < k implies (#[trigger] t2[m]).0 != v[i].0 by {
                assert(t2[m] == t[m]);
            }
        }
    }
    if p < out.len() && str_eq(out[p].value.as_str(), c.value.as_str()) {
        proof {
            assert forall|k: int| 0 <= k < t.len() + 1 implies has_value(v, #[trigger] t2[k].0) by {
                if k == t.len() {
                    assert(v[p as int].0 == t2[k].0);
                } else {
                    assert(t2[k] == t[k]);
                }
            }
        }
        return;
    }
    proof {
        if p < out.len() {
            lemma_lex_total(v[p as int].0, c.value@);
            assert(lex_lt(c.value@, v[p as int].0));
        }
        assert forall|m: int| 0 <= m < t.len() implies (#[trigger] t[m]).0 != c.value@ by {
            assert(has_value(v, t[m].0));
            let i = choose|i: int| 0 <= i < v.len() && (#[trigger] v[i]).0 == t[m].0;
            if t[m].0 == c.value@ {
                if i < p {
                    lemma_lex_irreflexive(c.value@);
                } else if i > p {
                    assert(lex_lt(v[p as int].0, v[i].0));
                    lemma_lex_transitive(c.value@, v[p as int].0, v[i].0);
                    lemma_lex_irreflexive(c.value@);
                }
            }
        }
    }
    let copy = Candidate { value: c.value.clone(), detail: c.detail.clone() };
    out.insert(p, copy);
    proof {
        let w = cands_view(out@);
        assert(w =~= v.insert(p as int, c@));
        assert forall|i: int, j: int| 0 <= i < j < w.len() implies lex_lt(#[trigger] w[i].0, #[trigger] w[j].0) by {
            if j < p {
                assert(lex_lt(v[i].0, v[j].0));
            } else if j == p {
            } else if i == p {
                if j - 1 > p {
                    assert(lex_lt(v[p as int].0, v[j - 1].0));
                    lemma_lex_transitive(c.value@, v[p as int].0, v[j - 1].0);
                }
            } else if i < p {
                assert(lex_lt(v[i].0, v[j - 1].0));
            } else {
                assert(lex_lt(v[i - 1].0, v[j - 1].0));
            }
        }
        assert forall|i: int| 0 <= i < w.len() implies first_with_value(t2, #[trigger] w[i]) by {
            if i == p {
                assert(t2[t.len() as int] == c@);
                assert forall|m: int| 0 <= m < t.len() implies (#[trigger] t2[m]).0 != c.value@ by {
                    assert(t2[m] == t[m]);
                }
            } else if i < p {
                assert(w[i] == v[i]);
            } else {
                assert(w[i] == v[i - 1]);
            }
        }
        assert forall|k: int| 0 <= k < t.len() + 1 implies has_value(w, #[trigger] t2[k].0) by {
            if k == t.len() {
                assert(w[p as int].0 == t2[k].0);
            } else {
                assert(t2[k] == t[k]);
                assert(has_value(v, t[k].0));
                let i = choose|i: int| 0 <= i < v.len() && (#[trigger] v[i]).0 == t[k].0;
                if i < p {
                    assert(w[i] == v[i]);
                } else {
                    assert(w[i + 1] == v[i]);
                }
            }
        }
    }
}

/// Sorts candidates by value and keeps, for each value, the first candidate that
/// has it.
pub fn unique_by_value(candidates: Vec<Candidate>) -> (r: Vec<Candidate>)
    ensures
        values_increase(cands_view(r@)),
        forall|i: int| 0 <= i < r@.len() ==> first_with_value(cands_view(candidates@), #[trigger] cands_view(r@)[i]),
        forall|k: int| 0 <= k < candidates@.len() ==> has_value(cands_view(r@), #[trigger] cands_view(candidates@)[k].0),
{
    let ghost input = cands_view(candidates@);
    let mut out: Vec<Candidate> = Vec::new();
    let mut n: usize = 0;
    while n < candidates.len()
        invariant
            n <= candidates.len(),
            input == cands_view(candidates@),
            values_increase(cands_view(out@)),
            forall|i: int| 0 <= i < out@.len() ==> first_with_value(input.take(n as int), #[trigger] cands_view(out@)[i]),
            forall|k: int| 0 <= k < n ==> has_value(cands_view(out@), #[trigger] input.take(n as int)[k].0),
        decreases candidates.len() - n,
    {
        assert(input.take(n + 1) =~= input.take(n as int).push(input[n as int]));
        insert_first(&mut out, &candidates[n], Ghost(input.take(n as int)));
        n += 1;
    }
    assert(input.take(n as int) =~= input);
    out
}

// ---------------------------------------------------------------------------
// Laws
// ---------------------------------------------------------------------------
/// Candidate lists depend only on which candidates there are: two sorted,
/// duplicate-free lists with the same members are the same list.
pub proof fn law_sorted_candidates_determined(a: Seq<Cand>, b: Seq<Cand>)
    requires
        sorted_unique(a),
        sorted_unique(b),
        forall|x: Cand| a.contains(x) <==> b.contains(x),
    ensures
        a == b,
    decreases a.len() + b.len(),
{
    if a.len() > 0 && b.len() > 0 {
        // The first elements are the least members of the same set.
        let x = a[0];
        let y = b[0];
        assert(b.contains(x));
        assert(a.contains(y));
        let i = choose|i: int| 0 <= i < b.len() && b[i] == x;
        let j = choose|j: int| 0 <= j < a.len() && a[j] == y;
        if x != y {
            lemma_cand_order(x, y, x);
            if i > 0 {
                assert(cand_lt(y, x));
            }
            if j > 0 {
                assert(cand_lt(x, y));
            }
            lemma_cand_order(x, y, x);
            lemma_cand_order(y, x, y);
            assert(false);
        }
        let a1 = a.drop_first();
        let b1 = b.drop_first();
        assert forall|z: Cand| a1.contains(z) <==> b1.contains(z) by {
            if a1.contains(z) {
                let k = choose|k: int| 0 <= k < a1.len() && a1[k] == z;
                assert(a[k + 1] == z);
                assert(cand_lt(a[0], a[k + 1]));
                lemma_cand_order(z, z, z);
                assert(b.contains(z));
                let m = choose|m: int| 0 <= m < b.len() && b[m] == z;
                if m == 0 {
                    assert(z == x);
                } else {
                    assert(b1[m - 1] == z);
                }
            }
            if b1.contains(z) {
                let k = choose|k: int| 0 <= k < b1.len() && b1[k] == z;
                assert(b[k + 1] == z);
                assert(cand_lt(b[0], b[k + 1]));
                lemma_cand_order(z, z, z);
                assert(a.contains(z));
                let m = choose|m: int| 0 <= m < a.len() && a[m] == z;
                if m == 0 {
                    assert(z == y);
                } else {
                    assert(a1[m - 1] == z);
                }
            }
        }
        law_sorted_candidates_determined(a1, b1);
        assert(a =~= seq![x] + a1);
        assert(b =~= seq![y] + b1);
    } else if a.len() > 0 {
        assert(b.contains(a[0]));
    } else if b.len() > 0 {
        assert(a.contains(b[0]));
    }
}


// ---------------------------------------------------------------------------
// JSON names first
// ---------------------------------------------------------------------------
/// Fields are offered under their JSON names: when a field's (non-empty) JSON name
/// starts with the typed prefix, the field's own candidate is that JSON name joined
/// to the parent path; its proto name is offered only when the JSON name does not
/// match; with neither matching, the field offers no name of its own.
pub proof fn law_json_names_first(s: Schema, f: FieldInfo, prefix: Seq<char>, path: Seq<char>, query: bool)
    ensures
        has_prefix(f.json_name@, prefix) && f.json_name@.len() > 0 ==> field_cands(s, f, prefix, path, query).len()
            > 0 && field_cands(s, f, prefix, path, query)[0] == (join_path(path, f.json_name@), field_detail(s, f)),
        !has_prefix(f.json_name@, prefix) && has_prefix(f.name@, prefix) && f.name@.len() > 0 ==> field_cands(
            s,
            f,
            prefix,
            path,
            query,
        ).len() > 0 && field_cands(s, f, prefix, path, query)[0] == (join_path(path, f.name@), field_detail(s, f)),
        !has_prefix(f.json_name@, prefix) && !has_prefix(f.name@, prefix) ==> field_cands(s, f, prefix, path, query)
            == (if query {
            access_list(access_steps(f), prefix, path, field_detail(s, f))
        } else {
            seq![]
        }),
{
    let tail = if query {
        access_list(access_steps(f), prefix, path, field_detail(s, f))
    } else {
        seq![]
    };
    if !has_prefix(f.json_name@, prefix) && !has_prefix(f.name@, prefix) {
        assert(Seq::<Cand>::empty() + tail =~= tail);
    }
}

/// Among the candidates of a message's fields stands, for every field whose
/// (non-empty) JSON name starts with the prefix, that JSON name joined to the path.
pub proof fn law_json_name_offered(s: Schema, fs: Seq<FieldInfo>, prefix: Seq<char>, path: Seq<char>, query: bool, k: int)
    requires
        0 <= k < fs.len(),
        has_prefix(fs[k].json_name@, prefix),
        fs[k].json_name@.len() > 0,
    ensures
        fields_cands(s, fs, prefix, path, query).contains((join_path(path, fs[k].json_name@), field_detail(s, fs[k]))),
    decreases fs.len(),
{
    let c = (join_path(path, fs[k].json_name@), field_detail(s, fs[k]));
    let front = fields_cands(s, fs.drop_last(), prefix, path, query);
    let own = field_cands(s, fs.last(), prefix, path, query);
    if k == fs.len() - 1 {
        law_json_names_first(s, fs.last(), prefix, path, query);
        assert((front + own)[front.len() as int] == c);
    } else {
        assert(fs.drop_last()[k] == fs[k]);
        law_json_name_offered(s, fs.drop_last(), prefix, path, query, k);
        let j = choose|j: int| 0 <= j < front.len() && front[j] == c;
        assert((front + own)[j] == c);
    }
}

} // verus!

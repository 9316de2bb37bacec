//! The canonical layout of `.proto` sources, rendered from their syntax tree.
use vstd::prelude::*;

use crate::proto_sort::{field_order_key, SortKey};
use crate::sorting::{keys_view, lemma_stable_order_range, sort_order, stable_order};
use crate::syntax::{
    error_diagnostics, errors_flagged, height, lemma_child_height, lemma_children, own_diagnostic,
    parse_proto, proto_syntax_tree, Cst, CstNode,
};
use crate::text::{
    chars_of, collapse_spaces, collapse_spaces_in, is_digit, join, join_lines, lines, lines_view,
    parse_unsigned, parse_unsigned_at, push_all, push_str, replace_all, replace_str, split_lines,
    squeeze, str_eq, string_of, trim, trim_bounds, words_joined,
};

verus! {

/// What the formatter sorts, and by which key fields are ordered.
#[derive(Debug, Clone, Copy, PartialEq, Eq)]
pub struct FormatOptions {
    pub sort_imports: bool,
    pub sort_fields: bool,
    pub sort_declarations: bool,
    pub field_key: SortKey,
}

impl Default for FormatOptions {
    /// Imports and fields sorted, declarations kept in place, fields by number.
    fn default() -> (r: Self)
        ensures
            r.sort_imports && r.sort_fields && !r.sort_declarations,
            r.field_key == SortKey::Number,
    {
        FormatOptions {
            sort_imports: true,
            sort_fields: true,
            sort_declarations: false,
            field_key: SortKey::Number,
        }
    }
}

// ---------------------------------------------------------------------------
// Node kinds
// ---------------------------------------------------------------------------
/// Kinds rendered as one normalized statement.
pub open spec fn is_statement_kind(k: Seq<char>) -> bool {
    ||| k == "syntax"@
    ||| k == "edition"@
    ||| k == "package"@
    ||| k == "import"@
    ||| k == "option"@
    ||| k == "reserved"@
    ||| k == "extensions"@
    ||| k == "field"@
    ||| k == "map_field"@
    ||| k == "oneof_field"@
    ||| k == "enum_field"@
    ||| k == "rpc"@
    ||| k == "empty_statement"@
}

/// Kinds that name or hold the body of their parent, never items of their own.
pub open spec fn is_name_or_body_kind(k: Seq<char>) -> bool {
    ||| k == "message_name"@
    ||| k == "enum_name"@
    ||| k == "service_name"@
    ||| k == "message_body"@
    ||| k == "enum_body"@
}

pub open spec fn is_declaration_kind(k: Seq<char>) -> bool {
    ||| k == "message"@
    ||| k == "enum"@
    ||| k == "service"@
    ||| k == "extend"@
}

pub open spec fn is_field_kind(k: Seq<char>) -> bool {
    ||| k == "field"@
    ||| k == "map_field"@
    ||| k == "oneof_field"@
    ||| k == "enum_field"@
}

/// Statement groups: a blank line separates different groups.
#[derive(Debug, Clone, Copy, PartialEq, Eq, Structural)]
pub enum Group {
    Header,
    Import,
    Option,
    Declaration,
    Member,
    Comment,
}

pub open spec fn group_of(k: Seq<char>) -> Group {
    if k == "syntax"@ || k == "edition"@ || k == "package"@ {
        Group::Header
    } else if k == "import"@ {
        Group::Import
    } else if k == "option"@ {
        Group::Option
    } else if is_declaration_kind(k) {
        Group::Declaration
    } else if k == "comment"@ {
        Group::Comment
    } else {
        Group::Member
    }
}

/// Whether a blank line goes between an item of group `previous` and one of group
/// `current`: inside blocks around declarations only; at the top level between
/// different groups and before every declaration, option and comment.
pub open spec fn separates(previous: Option<Group>, current: Group, indent: nat) -> bool {
    match previous {
        None => false,
        Some(p) => if indent > 0 {
            current == Group::Declaration || p == Group::Declaration
        } else {
            p != current || current == Group::Declaration || current == Group::Option || current
                == Group::Comment
        },
    }
}

// ---------------------------------------------------------------------------
// Children
// ---------------------------------------------------------------------------
/// Index of the first named child at or after `i` of kind `kind`.
pub open spec fn child_index(c: Cst, kind: Seq<char>, i: int) -> Option<int>
    decreases c.children.len() - i,
{
    if i < 0 || i >= c.children.len() {
        None
    } else if c.children[i].named && c.children[i].kind == kind {
        Some(i)
    } else {
        child_index(c, kind, i + 1)
    }
}

/// Index of the last named child at or after `i` of kind `kind`.
pub open spec fn last_child_index(c: Cst, kind: Seq<char>, i: int) -> Option<int>
    decreases c.children.len() - i,
{
    if i < 0 || i >= c.children.len() {
        None
    } else {
        match last_child_index(c, kind, i + 1) {
            Some(j) => Some(j),
            None => if c.children[i].named && c.children[i].kind == kind {
                Some(i)
            } else {
                None
            },
        }
    }
}

/// The text of the first named child of kind `kind`.
pub open spec fn child_text(c: Cst, kind: Seq<char>) -> Option<Seq<char>> {
    match child_index(c, kind, 0) {
        Some(i) => Some(c.children[i].text),
        None => None,
    }
}

pub open spec fn text_or_empty(t: Option<Seq<char>>) -> Seq<char> {
    match t {
        Some(s) => s,
        None => seq![],
    }
}

/// `kind:name`, the key declarations are ordered by.
pub open spec fn declaration_key(c: Cst) -> Seq<char> {
    let name_kind = if c.kind == "message"@ {
        "message_name"@
    } else if c.kind == "enum"@ {
        "enum_name"@
    } else if c.kind == "service"@ {
        "service_name"@
    } else if c.kind == "extend"@ {
        "full_ident"@
    } else {
        seq![]
    };
    c.kind + ":"@ + text_or_empty(child_text(c, name_kind))
}

/// A field's name: its last identifier, trimmed.
pub open spec fn field_name(c: Cst) -> Seq<char> {
    match last_child_index(c, "identifier"@, 0) {
        Some(i) => trim(c.children[i].text),
        None => seq![],
    }
}

/// The ASCII digits of `s`, in order.
pub open spec fn ascii_digits(s: Seq<char>) -> Seq<char> {
    s.filter(|ch: char| is_digit(ch))
}

/// A field's number: the ASCII digits of its `field_number` (or else `int_lit`)
/// child, read as a `u32`.
pub open spec fn field_number(c: Cst) -> Option<nat> {
    let idx = match child_index(c, "field_number"@, 0) {
        Some(i) => Some(i),
        None => child_index(c, "int_lit"@, 0),
    };
    match idx {
        Some(i) => parse_unsigned(ascii_digits(c.children[i].text), u32::MAX as nat),
        None => None,
    }
}

/// The key a field is ordered by; fields without a number go last.
pub open spec fn field_key(c: Cst, key: SortKey) -> Seq<char> {
    let number = match field_number(c) {
        Some(n) => n as u32,
        None => u32::MAX,
    };
    field_order_key(field_name(c), number, key)
}

// ---------------------------------------------------------------------------
// Items
// ---------------------------------------------------------------------------
/// A statement to render: the index of its node among its parent's children and
/// the indices of the comments right before it.
pub type Item = (int, Seq<int>);

/// Items of `p` from child `i` on: comments attach to the next item, empty
/// statements and name or body nodes are skipped, comments at the end become
/// items of their own.
pub open spec fn collect_from(p: Cst, i: int, items: Seq<Item>, pending: Seq<int>) -> Seq<Item>
    decreases p.children.len() - i,
{
    if i < 0 || i >= p.children.len() {
        items + pending.map_values(|c: int| (c, Seq::<int>::empty()))
    } else {
        let c = p.children[i];
        if !c.named {
            collect_from(p, i + 1, items, pending)
        } else if c.kind == "comment"@ {
            collect_from(p, i + 1, items, pending.push(i))
        } else if c.kind == "empty_statement"@ || is_name_or_body_kind(c.kind) {
            collect_from(p, i + 1, items, pending)
        } else {
            collect_from(p, i + 1, items.push((i, pending)), seq![])
        }
    }
}

pub open spec fn collect_items(p: Cst) -> Seq<Item> {
    collect_from(p, 0, seq![], seq![])
}

/// Which items a sort reorders, and by which key.
#[derive(Debug, Clone, Copy, PartialEq, Eq, Structural)]
pub enum Pick {
    /// Imports, by their text.
    Import,
    /// Declarations, by [`declaration_key`].
    Declaration,
    /// Fields, by [`field_key`].
    Field,
}

pub open spec fn picks(which: Pick, kind: Seq<char>) -> bool {
    match which {
        Pick::Import => kind == "import"@,
        Pick::Declaration => is_declaration_kind(kind),
        Pick::Field => is_field_kind(kind),
    }
}

pub open spec fn pick_key(which: Pick, c: Cst, key: SortKey) -> Seq<char> {
    match which {
        Pick::Import => c.text,
        Pick::Declaration => declaration_key(c),
        Pick::Field => field_key(c, key),
    }
}

/// Positions (from `k` on) of the items that `which` picks.
pub open spec fn selection(p: Cst, items: Seq<Item>, which: Pick, k: int) -> Seq<int>
    decreases items.len() - k,
{
    if k < 0 || k >= items.len() {
        seq![]
    } else if picks(which, p.children[items[k].0].kind) {
        seq![k] + selection(p, items, which, k + 1)
    } else {
        selection(p, items, which, k + 1)
    }
}

/// Puts, from the `k`-th selected position on, the selected items in `order`.
pub open spec fn place(orig: Seq<Item>, cur: Seq<Item>, sel: Seq<int>, order: Seq<int>, k: int) -> Seq<Item>
    decreases sel.len() - k,
{
    if k < 0 || k >= sel.len() {
        cur
    } else {
        place(orig, cur.update(sel[k], orig[sel[order[k]]]), sel, order, k + 1)
    }
}

pub open spec fn selection_keys(p: Cst, items: Seq<Item>, sel: Seq<int>, which: Pick, key: SortKey) -> Seq<Seq<char>> {
    sel.map_values(|m: int| pick_key(which, p.children[items[m].0], key))
}

/// The items `which` picks, stably sorted by their keys among the positions they
/// occupy; other items stay where they are.
pub open spec fn sort_picked(p: Cst, items: Seq<Item>, which: Pick, key: SortKey) -> Seq<Item> {
    let sel = selection(p, items, which, 0);
    if sel.len() < 2 {
        items
    } else {
        let keys = selection_keys(p, items, sel, which, key);
        place(items, items, sel, stable_order(keys, sel.len() as int), 0)
    }
}

pub open spec fn sort_imports(p: Cst, items: Seq<Item>) -> Seq<Item> {
    sort_picked(p, items, Pick::Import, SortKey::Name)
}

pub open spec fn sort_declarations(p: Cst, items: Seq<Item>) -> Seq<Item> {
    sort_picked(p, items, Pick::Declaration, SortKey::Name)
}

pub open spec fn sort_fields(p: Cst, items: Seq<Item>, key: SortKey) -> Seq<Item> {
    sort_picked(p, items, Pick::Field, key)
}

/// Top-level items: imports sorted, then declarations, as the options ask.
pub open spec fn source_items(root: Cst, o: FormatOptions) -> Seq<Item> {
    let items = collect_items(root);
    let items = if o.sort_imports {
        sort_imports(root, items)
    } else {
        items
    };
    if o.sort_declarations {
        sort_declarations(root, items)
    } else {
        items
    }
}

/// Items of a message or enum body: declarations sorted, then fields, as the
/// options ask.
pub open spec fn body_items(body: Cst, o: FormatOptions) -> Seq<Item> {
    let items = collect_items(body);
    let items = if o.sort_declarations {
        sort_declarations(body, items)
    } else {
        items
    };
    if o.sort_fields {
        sort_fields(body, items, o.field_key)
    } else {
        items
    }
}

pub open spec fn not_identifier(c: Cst, it: Item) -> bool {
    c.children[it.0].kind != "identifier"@
}

/// Items of a `oneof`: its identifier left out, fields sorted as the options ask.
/// The items whose node is not an identifier.
pub open spec fn without_identifier(c: Cst, items: Seq<Item>) -> Seq<Item> {
    items.filter(|it: Item| not_identifier(c, it))
}

pub proof fn lemma_without_identifier_push(c: Cst, items: Seq<Item>, it: Item)
    ensures
        without_identifier(c, items.push(it)) == if not_identifier(c, it) {
            without_identifier(c, items).push(it)
        } else {
            without_identifier(c, items)
        },
{
    items.lemma_filter_push(it, |it: Item| not_identifier(c, it));
}

pub open spec fn oneof_items(c: Cst, o: FormatOptions) -> Seq<Item> {
    let items = without_identifier(c, collect_items(c));
    if o.sort_fields {
        sort_fields(c, items, o.field_key)
    } else {
        items
    }
}

/// Items of an `extend` body: fields sorted as the options ask.
pub open spec fn extend_items(body: Cst, o: FormatOptions) -> Seq<Item> {
    let items = collect_items(body);
    if o.sort_fields {
        sort_fields(body, items, o.field_key)
    } else {
        items
    }
}

/// Indices of the named children of `c` (from `i` on) whose kind is not `kind`.
pub open spec fn named_except(c: Cst, kind: Seq<char>, i: int) -> Seq<int>
    decreases c.children.len() - i,
{
    if i < 0 || i >= c.children.len() {
        seq![]
    } else if c.children[i].named && c.children[i].kind != kind {
        seq![i] + named_except(c, kind, i + 1)
    } else {
        named_except(c, kind, i + 1)
    }
}

// ---------------------------------------------------------------------------
// Text
// ---------------------------------------------------------------------------
/// Two spaces per level.
pub open spec fn indent_text(n: nat) -> Seq<char> {
    Seq::new(2 * n, |i: int| ' ')
}

/// A statement on one line: words separated by single spaces, ` = ` around
/// equal signs, `, ` after commas, no spaces inside brackets, before `;` or
/// around `<`.
pub open spec fn normalize_statement(text: Seq<char>) -> Seq<char> {
    let s = squeeze(text, 0, seq![], false);
    let s = replace_all(s, " ="@, "="@);
    let s = replace_all(s, "= "@, "="@);
    let s = replace_all(s, "="@, " = "@);
    let s = replace_all(s, " ;"@, ";"@);
    let s = replace_all(s, " ,"@, ","@);
    let s = replace_all(s, ","@, ", "@);
    let s = replace_all(s, "  "@, " "@);
    let s = replace_all(s, " ("@, "("@);
    let s = replace_all(s, "( "@, "("@);
    let s = replace_all(s, " )"@, ")"@);
    let s = replace_all(s, "[ "@, "["@);
    let s = replace_all(s, " ]"@, "]"@);
    let s = replace_all(s, " <"@, "<"@);
    let s = replace_all(s, "< "@, "<"@);
    let s = replace_all(s, " >"@, ">"@);
    trim(collapse_spaces(s))
}

/// Text whose structure the formatter does not know: each line trimmed and
/// indented.
pub open spec fn render_fallback(text: Seq<char>, indent: nat) -> Seq<char> {
    join(lines(text).map_values(|l: Seq<char>| indent_text(indent) + trim(l)))
}

/// The comments `cs` of `p`, one per line, trimmed and indented.
pub open spec fn comments_text(p: Cst, cs: Seq<int>, indent: nat) -> Seq<char>
    decreases cs.len(),
{
    if cs.len() == 0 {
        seq![]
    } else {
        comments_text(p, cs.drop_last(), indent) + indent_text(indent) + trim(
            p.children[cs.last()].text,
        ) + "\n"@
    }
}

/// `s` without its trailing line breaks.
pub open spec fn strip_newlines(s: Seq<char>) -> Seq<char>
    decreases s.len(),
{
    if s.len() > 0 && s.last() == '\n' {
        strip_newlines(s.drop_last())
    } else {
        s
    }
}

pub open spec fn block_text(head: Seq<char>, inner: Seq<char>, indent: nat) -> Seq<char> {
    head + "\n"@ + inner + "\n"@ + indent_text(indent) + "}"@
}

// ---------------------------------------------------------------------------
// Rendering
// ---------------------------------------------------------------------------
/// A node in canonical layout at indentation `indent`.
pub open spec fn render_node(c: Cst, indent: nat, o: FormatOptions) -> Seq<char>
    decreases height(c), 3int, 0int,
{
    if is_statement_kind(c.kind) {
        indent_text(indent) + normalize_statement(c.text)
    } else if c.kind == "message"@ {
        render_compound(c, "message"@, "message_name"@, Some("message_body"@), indent, o)
    } else if c.kind == "enum"@ {
        render_compound(c, "enum"@, "enum_name"@, Some("enum_body"@), indent, o)
    } else if c.kind == "service"@ {
        render_compound(c, "service"@, "service_name"@, None, indent, o)
    } else if c.kind == "oneof"@ {
        render_oneof(c, indent, o)
    } else if c.kind == "extend"@ {
        render_extend(c, indent, o)
    } else if c.kind == "comment"@ {
        indent_text(indent) + trim(c.text)
    } else {
        render_fallback(c.text, indent)
    }
}

/// `keyword name {`, the body's items (or, without a body, the other named
/// children) one level deeper, and `}`.
pub open spec fn render_compound(c: Cst, keyword: Seq<char>, name_kind: Seq<char>, body_kind: Option<Seq<char>>, indent: nat, o: FormatOptions) -> Seq<char>
    decreases height(c), 2int, 0int,
{
    let name = trim(text_or_empty(child_text(c, name_kind)));
    let head = indent_text(indent) + keyword + " "@ + name + " {"@;
    let body = match body_kind {
        Some(bk) => child_index(c, bk, 0),
        None => None,
    };
    match body {
        Some(b) => if 0 <= b < c.children.len() {
            proof {
                lemma_child_height(c, b);
            }
            let items = body_items(c.children[b], o);
            if items.len() > 0 {
                block_text(head, render_items(c.children[b], items, indent + 1, o), indent)
            } else {
                head + "}"@
            }
        } else {
            head + "}"@
        },
        None => {
            let kids = named_except(c, name_kind, 0);
            if kids.len() > 0 {
                head + "\n"@ + render_kids(c, kids, indent + 1, o, 0) + indent_text(indent) + "}"@
            } else {
                head + "}"@
            }
        },
    }
}

/// The children `kids` of `c` (from the `k`-th on), each on its own line.
pub open spec fn render_kids(c: Cst, kids: Seq<int>, indent: nat, o: FormatOptions, k: int) -> Seq<char>
    decreases height(c), 1int, kids.len() - k,
{
    if k < 0 || k >= kids.len() {
        seq![]
    } else {
        let i = kids[k];
        let rendered = if 0 <= i < c.children.len() {
            proof {
                lemma_child_height(c, i);
            }
            render_node(c.children[i], indent, o)
        } else {
            seq![]
        };
        rendered + "\n"@ + render_kids(c, kids, indent, o, k + 1)
    }
}

/// `oneof name {`, its fields one level deeper, and `}`.
pub open spec fn render_oneof(c: Cst, indent: nat, o: FormatOptions) -> Seq<char>
    decreases height(c), 2int, 0int,
{
    let name = match child_index(c, "identifier"@, 0) {
        Some(i) => trim(c.children[i].text),
        None => seq![],
    };
    let head = indent_text(indent) + "oneof "@ + name + " {"@;
    let items = oneof_items(c, o);
    if items.len() > 0 {
        block_text(head, render_items(c, items, indent + 1, o), indent)
    } else {
        head + "}"@
    }
}

/// `extend name {`, its body's fields one level deeper, and `}`.
pub open spec fn render_extend(c: Cst, indent: nat, o: FormatOptions) -> Seq<char>
    decreases height(c), 2int, 0int,
{
    let name = match child_index(c, "full_ident"@, 0) {
        Some(i) => trim(c.children[i].text),
        None => seq![],
    };
    let head = indent_text(indent) + "extend "@ + name + " {"@;
    match child_index(c, "message_body"@, 0) {
        Some(b) => if 0 <= b < c.children.len() {
            proof {
                lemma_child_height(c, b);
            }
            let items = extend_items(c.children[b], o);
            if items.len() > 0 {
                block_text(head, render_items(c.children[b], items, indent + 1, o), indent)
            } else {
                head + "}"@
            }
        } else {
            head + "}"@
        },
        None => head + "}"@,
    }
}

/// Items of `p`, with their comments, blank lines between groups, no trailing
/// line break.
pub open spec fn render_items(p: Cst, items: Seq<Item>, indent: nat, o: FormatOptions) -> Seq<char>
    decreases height(p), 1int, items.len() + 1,
{
    render_items_from(p, items, indent, o, 0, seq![], None)
}

pub open spec fn render_items_from(p: Cst, items: Seq<Item>, indent: nat, o: FormatOptions, k: int, out: Seq<char>, previous: Option<Group>) -> Seq<char>
    decreases height(p), 1int, items.len() - k,
{
    if k < 0 || k >= items.len() {
        strip_newlines(out)
    } else {
        let idx = items[k].0;
        let group = group_of(p.children[idx].kind);
        let out1 = if out.len() > 0 && separates(previous, group, indent) {
            out.push('\n')
        } else {
            out
        };
        let out2 = out1 + comments_text(p, items[k].1, indent);
        let rendered = if 0 <= idx < p.children.len() {
            proof {
                lemma_child_height(p, idx);
            }
            render_node(p.children[idx], indent, o)
        } else {
            seq![]
        };
        let out3 = if rendered.len() > 0 {
            out2 + rendered + "\n"@
        } else {
            out2
        };
        render_items_from(p, items, indent, o, k + 1, out3, Some(group))
    }
}

/// A whole file in canonical layout, without the final line break.
pub open spec fn render_source(root: Cst, o: FormatOptions) -> Seq<char> {
    render_items(root, source_items(root, o), 0, o)
}

/// Why a text could not be formatted.
#[derive(Debug, Clone, Copy, PartialEq, Eq, Structural)]
pub enum FormatError {
    /// The parser produced no tree.
    ParserFailed,
    /// The text has syntax errors.
    InvalidSource,
    /// The formatted text does not parse without errors.
    InvalidOutput,
}

/// `format_proto`'s result: the canonical layout plus a line break, provided the
/// text and the result both parse without errors.
pub open spec fn formatted(source: Seq<char>, o: FormatOptions) -> Result<Seq<char>, FormatError> {
    match proto_syntax_tree(source) {
        None => Err(FormatError::ParserFailed),
        Some(t) => if t.has_error {
            Err(FormatError::InvalidSource)
        } else {
            let out = render_source(t, o) + "\n"@;
            match proto_syntax_tree(out) {
                None => Err(FormatError::ParserFailed),
                Some(t2) => if t2.has_error {
                    Err(FormatError::InvalidOutput)
                } else {
                    Ok(out)
                },
            }
        },
    }
}

// ---------------------------------------------------------------------------
// Executable kinds and keys
// ---------------------------------------------------------------------------
pub(crate) fn kind_is(n: &CstNode, k: &str) -> (r: bool)
    ensures
        r == (n@.kind == k@),
{
    str_eq(n.kind.as_str(), k)
}

fn statement_kind(n: &CstNode) -> (r: bool)
    ensures
        r == is_statement_kind(n@.kind),
{
    kind_is(n, "syntax") || kind_is(n, "edition") || kind_is(n, "package") || kind_is(n, "import")
        || kind_is(n, "option") || kind_is(n, "reserved") || kind_is(n, "extensions") || kind_is(
        n,
        "field",
    ) || kind_is(n, "map_field") || kind_is(n, "oneof_field") || kind_is(n, "enum_field")
        || kind_is(n, "rpc") || kind_is(n, "empty_statement")
}

fn name_or_body_kind(n: &CstNode) -> (r: bool)
    ensures
        r == is_name_or_body_kind(n@.kind),
{
    kind_is(n, "message_name") || kind_is(n, "enum_name") || kind_is(n, "service_name") || kind_is(
        n,
        "message_body",
    ) || kind_is(n, "enum_body")
}

fn declaration_kind(n: &CstNode) -> (r: bool)
    ensures
        r == is_declaration_kind(n@.kind),
{
    kind_is(n, "message") || kind_is(n, "enum") || kind_is(n, "service") || kind_is(n, "extend")
}

fn field_kind(n: &CstNode) -> (r: bool)
    ensures
        r == is_field_kind(n@.kind),
{
    kind_is(n, "field") || kind_is(n, "map_field") || kind_is(n, "oneof_field") || kind_is(
        n,
        "enum_field",
    )
}

fn group_for_kind(n: &CstNode) -> (r: Group)
    ensures
        r == group_of(n@.kind),
{
    if kind_is(n, "syntax") || kind_is(n, "edition") || kind_is(n, "package") {
        Group::Header
    } else if kind_is(n, "import") {
        Group::Import
    } else if kind_is(n, "option") {
        Group::Option
    } else if declaration_kind(n) {
        Group::Declaration
    } else if kind_is(n, "comment") {
        Group::Comment
    } else {
        Group::Member
    }
}

fn should_separate(previous: Option<Group>, current: Group, indent: usize) -> (r: bool)
    ensures
        r == separates(previous, current, indent as nat),
{
    match previous {
        None => false,
        Some(p) => if indent > 0 {
            current == Group::Declaration || p == Group::Declaration
        } else {
            p != current || current == Group::Declaration || current == Group::Option || current
                == Group::Comment
        },
    }
}

/// Index of the first named child of kind `kind` (see [`child_index`]).
pub(crate) fn find_child(c: &CstNode, kind: &str) -> (r: Option<usize>)
    ensures
        match child_index(c@, kind@, 0) {
            Some(i) => r matches Some(j) && j == i && i < c.children@.len(),
            None => r is None,
        },
{
    proof {
        lemma_children(c);
    }
    let mut i: usize = 0;
    while i < c.children.len()
        invariant
            i <= c.children.len(),
            c@.children.len() == c.children@.len(),
            forall|k: int| 0 <= k < c.children@.len() ==> #[trigger] c@.children[k] == c.children@[k]@,
            child_index(c@, kind@, 0) == child_index(c@, kind@, i as int),
        decreases c.children.len() - i,
    {
        if c.children[i].named && kind_is(&c.children[i], kind) {
            return Some(i);
        }
        i += 1;
    }
    None
}

pub proof fn lemma_last_child_index(c: Cst, kind: Seq<char>, j: int, k: int, m: int)
    requires
        0 <= k <= j,
        last_child_index(c, kind, j) == Some(m),
    ensures
        last_child_index(c, kind, k) == Some(m),
    decreases j - k,
{
    if k < j {
        lemma_last_child_index(c, kind, j, k + 1, m);
    }
}

/// Index of the last named child of kind `kind` (see [`last_child_index`]).
pub(crate) fn find_last_child(c: &CstNode, kind: &str) -> (r: Option<usize>)
    ensures
        match last_child_index(c@, kind@, 0) {
            Some(i) => r matches Some(j) && j == i && i < c.children@.len(),
            None => r is None,
        },
{
    proof {
        lemma_children(c);
    }
    let mut i: usize = c.children.len();
    while i > 0
        invariant
            i <= c.children.len(),
            c@.children.len() == c.children@.len(),
            forall|k: int| 0 <= k < c.children@.len() ==> #[trigger] c@.children[k] == c.children@[k]@,
            last_child_index(c@, kind@, i as int) is None,
        decreases i,
    {
        i -= 1;
        if c.children[i].named && kind_is(&c.children[i], kind) {
            proof {
                lemma_last_child_index(c@, kind@, i as int, 0, i as int);
            }
            return Some(i);
        }
    }
    None
}

pub(crate) fn owned_text(t: &String) -> (r: Vec<char>)
    ensures
        r@ == t@,
{
    chars_of(t.as_str())
}

/// Trimmed text of a node.
pub(crate) fn trimmed_text(n: &CstNode) -> (r: Vec<char>)
    ensures
        r@ == trim(n@.text),
{
    let t = owned_text(&n.text);
    let (a, b) = trim_bounds(&t, 0, t.len());
    assert(t@.subrange(0, t@.len() as int) =~= t@);
    crate::text::slice_of(&t, a, b)
}

/// The key declarations are ordered by (see [`declaration_key`]).
fn declaration_key_of(c: &CstNode) -> (r: Vec<char>)
    ensures
        r@ == declaration_key(c@),
{
    let name_kind = if kind_is(c, "message") {
        "message_name"
    } else if kind_is(c, "enum") {
        "enum_name"
    } else if kind_is(c, "service") {
        "service_name"
    } else if kind_is(c, "extend") {
        "full_ident"
    } else {
        ""
    };
    proof {
        reveal_strlit("");
        reveal_strlit(":");
        lemma_children(c);
    }
    assert(name_kind@ == (if c@.kind == "message"@ {
        "message_name"@
    } else if c@.kind == "enum"@ {
        "enum_name"@
    } else if c@.kind == "service"@ {
        "service_name"@
    } else if c@.kind == "extend"@ {
        "full_ident"@
    } else {
        Seq::<char>::empty()
    }));
    let mut key = owned_text(&c.kind);
    key.push(':');
    let ghost head = key@;
    assert(head =~= c@.kind + ":"@);
    match find_child(c, name_kind) {
        Some(i) => {
            push_str(&mut key, c.children[i].text.as_str());
            assert(c.children@[i as int].text@ == c@.children[i as int].text);
            assert(key@ =~= head + text_or_empty(child_text(c@, name_kind@)));
        },
        None => {
            assert(key@ =~= head + text_or_empty(child_text(c@, name_kind@)));
        },
    }
    key
}

/// A field's name (see [`field_name`]).
fn field_name_of(c: &CstNode) -> (r: Vec<char>)
    ensures
        r@ == field_name(c@),
{
    match find_last_child(c, "identifier") {
        Some(i) => {
            proof {
                lemma_children(c);
            }
            let r = trimmed_text(&c.children[i]);
            assert(r@ == trim(c@.children[i as int].text));
            r
        },
        None => Vec::new(),
    }
}

/// A field's number (see [`field_number`]).
fn field_number_of(c: &CstNode) -> (r: Option<u32>)
    ensures
        match field_number(c@) {
            Some(n) => r matches Some(m) && m == n,
            None => r is None,
        },
{
    proof {
        lemma_children(c);
    }
    let idx = match find_child(c, "field_number") {
        Some(i) => Some(i),
        None => find_child(c, "int_lit"),
    };
    match idx {
        Some(i) => {
            proof {
                lemma_children(c);
            }
            let text = owned_text(&c.children[i].text);
            assert(text@ == c@.children[i as int].text);
            let mut digits: Vec<char> = Vec::new();
            let mut j: usize = 0;
            while j < text.len()
                invariant
                    j <= text.len(),
                    digits@ == ascii_digits(text@.take(j as int)),
                decreases text.len() - j,
            {
                let ch = text[j];
                proof {
                    text@.take(j as int).lemma_filter_push(ch, |ch: char| is_digit(ch));
                }
                assert(text@.take(j + 1) =~= text@.take(j as int).push(ch));
                if '0' <= ch && ch <= '9' {
                    digits.push(ch);
                }
                j += 1;
            }
            assert(text@.take(j as int) =~= text@);
            assert(digits@.subrange(0, digits@.len() as int) =~= digits@);
            match parse_unsigned_at(&digits, 0, digits.len(), 0xffff_ffffu64) {
                Some(n) => Some(n as u32),
                None => None,
            }
        },
        None => None,
    }
}

/// The key a field is ordered by (see [`field_key`]).
fn field_key_of(c: &CstNode, key: SortKey) -> (r: Vec<char>)
    ensures
        r@ == field_key(c@, key),
{
    let name = field_name_of(c);
    let number = match field_number_of(c) {
        Some(n) => n,
        None => 0xffff_ffffu32,
    };
    crate::proto_sort::field_sort_key(&name, number, key)
}

// ---------------------------------------------------------------------------
// Executable items
// ---------------------------------------------------------------------------
/// An item in executable form (see [`Item`]).
type ItemRef = (usize, Vec<usize>);

pub open spec fn item_view(it: (usize, Vec<usize>)) -> Item {
    (it.0 as int, it.1@.map_values(|c: usize| c as int))
}

pub open spec fn items_view(v: Seq<(usize, Vec<usize>)>) -> Seq<Item> {
    v.map_values(|it: (usize, Vec<usize>)| item_view(it))
}

/// Every index in `items` names a child of `p`.
pub open spec fn items_valid(p: Cst, items: Seq<Item>) -> bool {
    forall|k: int|
        0 <= k < items.len() ==> {
            &&& 0 <= #[trigger] items[k].0 < p.children.len()
            &&& forall|j: int| 0 <= j < items[k].1.len() ==> 0 <= #[trigger] items[k].1[j] < p.children.len()
        }
}

fn copy_indices(v: &Vec<usize>) -> (r: Vec<usize>)
    ensures
        r@ == v@,
{
    let mut r: Vec<usize> = Vec::new();
    let mut i: usize = 0;
    while i < v.len()
        invariant
            i <= v.len(),
            r@ == v@.take(i as int),
        decreases v.len() - i,
    {
        r.push(v[i]);
        assert(v@.take(i + 1) =~= v@.take(i as int).push(v@[i as int]));
        i += 1;
    }
    assert(v@.take(i as int) =~= v@);
    r
}

fn copy_item(it: &ItemRef) -> (r: ItemRef)
    ensures
        r.0 == it.0,
        r.1@ == it.1@,
{
    (it.0, copy_indices(&it.1))
}

/// The items of `p` (see [`collect_items`]).
fn collect_items_of(p: &CstNode) -> (r: Vec<ItemRef>)
    ensures
        items_view(r@) == collect_items(p@),
        items_valid(p@, items_view(r@)),
{
    proof {
        lemma_children(p);
    }
    let mut items: Vec<ItemRef> = Vec::new();
    let mut pending: Vec<usize> = Vec::new();
    let mut i: usize = 0;
    assert(items_view(items@) =~= seq![]);
    assert(pending@.map_values(|c: usize| c as int) =~= seq![]);
    while i < p.children.len()
        invariant
            i <= p.children.len(),
            p@.children.len() == p.children@.len(),
            forall|k: int| 0 <= k < p.children@.len() ==> #[trigger] p@.children[k] == p.children@[k]@,
            collect_items(p@) == collect_from(
                p@,
                i as int,
                items_view(items@),
                pending@.map_values(|c: usize| c as int),
            ),
            items_valid(p@, items_view(items@)),
            forall|j: int| 0 <= j < pending@.len() ==> #[trigger] pending@[j] < i,
        decreases p.children.len() - i,
    {
        let child = &p.children[i];
        let ghost pv = pending@.map_values(|c: usize| c as int);
        if !child.named {
        } else if kind_is(child, "comment") {
            pending.push(i);
            assert(pending@.map_values(|c: usize| c as int) =~= pv.push(i as int));
        } else if kind_is(child, "empty_statement") || name_or_body_kind(child) {
        } else {
            let ghost iv = items_view(items@);
            let taken = pending;
            pending = Vec::new();
            items.push((i, taken));
            assert(items_view(items@) =~= iv.push((i as int, pv)));
            assert(pending@.map_values(|c: usize| c as int) =~= seq![]);
        }
        i += 1;
    }
    let ghost pv = pending@.map_values(|c: usize| c as int);
    let ghost iv = items_view(items@);
    let mut j: usize = 0;
    while j < pending.len()
        invariant
            j <= pending.len(),
            pv == pending@.map_values(|c: usize| c as int),
            forall|m: int| 0 <= m < pending@.len() ==> #[trigger] pending@[m] < p.children@.len(),
            p@.children.len() == p.children@.len(),
            items_view(items@) == iv + pv.take(j as int).map_values(|c: int| (c, Seq::<int>::empty())),
            items_valid(p@, items_view(items@)),
        decreases pending.len() - j,
    {
        let ghost before = items_view(items@);
        let none: Vec<usize> = Vec::new();
        assert(none@.map_values(|c: usize| c as int) =~= Seq::<int>::empty());
        items.push((pending[j], none));
        assert(items_view(items@) =~= before.push((pending@[j as int] as int, Seq::<int>::empty())));
        assert(pv.take(j + 1).map_values(|c: int| (c, Seq::<int>::empty())) =~= pv.take(
            j as int,
        ).map_values(|c: int| (c, Seq::<int>::empty())).push((pv[j as int], Seq::<int>::empty())));
        j += 1;
    }
    assert(pv.take(j as int) =~= pv);
    items
}

fn picks_node(which: Pick, n: &CstNode) -> (r: bool)
    ensures
        r == picks(which, n@.kind),
{
    match which {
        Pick::Import => kind_is(n, "import"),
        Pick::Declaration => declaration_kind(n),
        Pick::Field => field_kind(n),
    }
}

fn pick_key_of(which: Pick, n: &CstNode, key: SortKey) -> (r: Vec<char>)
    ensures
        r@ == pick_key(which, n@, key),
{
    match which {
        Pick::Import => owned_text(&n.text),
        Pick::Declaration => declaration_key_of(n),
        Pick::Field => field_key_of(n, key),
    }
}

pub open spec fn indices_view(v: Seq<usize>) -> Seq<int> {
    v.map_values(|m: usize| m as int)
}

/// Positions of the items that `which` picks (see [`selection`]).
fn select_items(p: &CstNode, items: &Vec<ItemRef>, which: Pick) -> (sel: Vec<usize>)
    requires
        items_valid(p@, items_view(items@)),
    ensures
        indices_view(sel@) == selection(p@, items_view(items@), which, 0),
        forall|j: int| 0 <= j < sel@.len() ==> #[trigger] sel@[j] < items@.len(),
{
    proof {
        lemma_children(p);
    }
    let ghost iv = items_view(items@);
    let mut sel: Vec<usize> = Vec::new();
    let mut k: usize = 0;
    assert(indices_view(sel@) =~= seq![]);
    while k < items.len()
        invariant
            k <= items.len(),
            iv == items_view(items@),
            items_valid(p@, iv),
            p@.children.len() == p.children@.len(),
            forall|m: int| 0 <= m < p.children@.len() ==> #[trigger] p@.children[m] == p.children@[m]@,
            selection(p@, iv, which, 0) == indices_view(sel@) + selection(p@, iv, which, k as int),
            forall|j: int| 0 <= j < sel@.len() ==> #[trigger] sel@[j] < k,
        decreases items.len() - k,
    {
        let idx = items[k].0;
        assert(iv[k as int].0 == idx);
        assert(0 <= iv[k as int].0 < p@.children.len());
        if picks_node(which, &p.children[idx]) {
            let ghost before = indices_view(sel@);
            sel.push(k);
            assert(indices_view(sel@) =~= before.push(k as int));
            assert(before + selection(p@, iv, which, k as int) =~= indices_view(sel@) + selection(
                p@,
                iv,
                which,
                k + 1,
            ));
        }
        k += 1;
    }
    assert(indices_view(sel@) + seq![] =~= indices_view(sel@));
    sel
}

/// Keys of the selected items.
fn selection_keys_of(p: &CstNode, items: &Vec<ItemRef>, sel: &Vec<usize>, which: Pick, key: SortKey) -> (r: Vec<Vec<char>>)
    requires
        items_valid(p@, items_view(items@)),
        forall|j: int| 0 <= j < sel@.len() ==> #[trigger] sel@[j] < items@.len(),
    ensures
        keys_view(r@) == selection_keys(p@, items_view(items@), indices_view(sel@), which, key),
{
    proof {
        lemma_children(p);
    }
    let ghost iv = items_view(items@);
    let mut keys: Vec<Vec<char>> = Vec::new();
    let mut j: usize = 0;
    while j < sel.len()
        invariant
            j <= sel.len(),
            iv == items_view(items@),
            items_valid(p@, iv),
            forall|m: int| 0 <= m < sel@.len() ==> #[trigger] sel@[m] < items@.len(),
            p@.children.len() == p.children@.len(),
            forall|m: int| 0 <= m < p.children@.len() ==> #[trigger] p@.children[m] == p.children@[m]@,
            keys@.len() == j,
            forall|m: int|
                0 <= m < j ==> #[trigger] keys@[m]@ == pick_key(
                    which,
                    p@.children[iv[sel@[m] as int].0],
                    key,
                ),
        decreases sel.len() - j,
    {
        let m = sel[j];
        let idx = items[m].0;
        assert(iv[m as int].0 == idx);
        assert(0 <= iv[m as int].0 < p@.children.len());
        keys.push(pick_key_of(which, &p.children[idx], key));
        j += 1;
    }
    assert(keys_view(keys@) =~= selection_keys(p@, iv, indices_view(sel@), which, key));
    keys
}

/// Places the selected items in `order` (see [`place`]).
fn place_sorted(items: &Vec<ItemRef>, sel: &Vec<usize>, order: &Vec<usize>) -> (r: Vec<ItemRef>)
    requires
        forall|j: int| 0 <= j < sel@.len() ==> #[trigger] sel@[j] < items@.len(),
        order@.len() == sel@.len(),
        forall|j: int| 0 <= j < order@.len() ==> #[trigger] order@[j] < sel@.len(),
    ensures
        items_view(r@) == place(
            items_view(items@),
            items_view(items@),
            indices_view(sel@),
            indices_view(order@),
            0,
        ),
{
    let ghost iv = items_view(items@);
    let ghost sv = indices_view(sel@);
    let ghost ov = indices_view(order@);
    let mut cur: Vec<ItemRef> = Vec::new();
    let mut i: usize = 0;
    while i < items.len()
        invariant
            i <= items.len(),
            iv == items_view(items@),
            items_view(cur@) == iv.take(i as int),
        decreases items.len() - i,
    {
        let ghost before = items_view(cur@);
        cur.push(copy_item(&items[i]));
        assert(items_view(cur@) =~= before.push(iv[i as int]));
        assert(iv.take(i + 1) =~= iv.take(i as int).push(iv[i as int]));
        i += 1;
    }
    assert(iv.take(i as int) =~= iv);
    let mut k: usize = 0;
    while k < sel.len()
        invariant
            k <= sel.len(),
            iv == items_view(items@),
            sv == indices_view(sel@),
            ov == indices_view(order@),
            cur@.len() == items@.len(),
            forall|j: int| 0 <= j < sel@.len() ==> #[trigger] sel@[j] < items@.len(),
            order@.len() == sel@.len(),
            forall|j: int| 0 <= j < order@.len() ==> #[trigger] order@[j] < sel@.len(),
            place(iv, iv, sv, ov, 0) == place(iv, items_view(cur@), sv, ov, k as int),
        decreases sel.len() - k,
    {
        let o = order[k];
        let src = sel[o];
        let dst = sel[k];
        let it = copy_item(&items[src]);
        let ghost before = items_view(cur@);
        cur.set(dst, it);
        assert(items_view(cur@) =~= before.update(sv[k as int], iv[sv[ov[k as int]]]));
        k += 1;
    }
    cur
}

/// The items `which` picks, sorted among their positions (see [`sort_picked`]).
fn sort_items(p: &CstNode, items: Vec<ItemRef>, which: Pick, key: SortKey) -> (r: Vec<ItemRef>)
    requires
        items_valid(p@, items_view(items@)),
    ensures
        items_view(r@) == sort_picked(p@, items_view(items@), which, key),
        items_valid(p@, items_view(r@)),
{
    let sel = select_items(p, &items, which);
    if sel.len() < 2 {
        return items;
    }
    let keys = selection_keys_of(p, &items, &sel, which, key);
    let ghost kv = selection_keys(p@, items_view(items@), indices_view(sel@), which, key);
    proof {
        lemma_stable_order_range(kv, sel@.len() as int);
    }
    let order = sort_order(&keys);
    proof {
        assert(keys_view(keys@).len() == keys@.len());
        assert(indices_view(order@) =~= order@.map_values(|i: usize| i as int));
        assert(indices_view(order@) == stable_order(kv, sel@.len() as int));
        assert forall|j: int| 0 <= j < order@.len() implies #[trigger] order@[j] < sel@.len() by {
            assert(indices_view(order@)[j] == order@[j] as int);
        }
    }
    let r = place_sorted(&items, &sel, &order);
    proof {
        lemma_place_valid(p@, items_view(items@), items_view(items@), indices_view(sel@), indices_view(order@), 0);
    }
    r
}

/// Placing picked items keeps every index valid.
pub proof fn lemma_place_valid(p: Cst, orig: Seq<Item>, cur: Seq<Item>, sel: Seq<int>, order: Seq<int>, k: int)
    requires
        items_valid(p, orig),
        items_valid(p, cur),
        cur.len() == orig.len(),
        forall|j: int| 0 <= j < sel.len() ==> 0 <= #[trigger] sel[j] < orig.len(),
        order.len() == sel.len(),
        forall|j: int| 0 <= j < order.len() ==> 0 <= #[trigger] order[j] < sel.len(),
        0 <= k,
    ensures
        items_valid(p, place(orig, cur, sel, order, k)),
        place(orig, cur, sel, order, k).len() == orig.len(),
    decreases sel.len() - k,
{
    if k < sel.len() {
        let next = cur.update(sel[k], orig[sel[order[k]]]);
        assert(0 <= order[k] < sel.len());
        assert(0 <= sel[order[k]] < orig.len());
        assert forall|m: int| 0 <= m < next.len() implies {
            &&& 0 <= #[trigger] next[m].0 < p.children.len()
            &&& forall|j: int| 0 <= j < next[m].1.len() ==> 0 <= #[trigger] next[m].1[j] < p.children.len()
        } by {
            if m == sel[k] {
                assert(next[m] == orig[sel[order[k]]]);
            } else {
                assert(next[m] == cur[m]);
            }
        }
        lemma_place_valid(p, orig, next, sel, order, k + 1);
    }
}

// ---------------------------------------------------------------------------
// Executable text
// ---------------------------------------------------------------------------
/// Appends two spaces per level.
fn push_indent(out: &mut Vec<char>, indent: usize)
    ensures
        final(out)@ == old(out)@ + indent_text(indent as nat),
{
    let ghost before = out@;
    let mut i: usize = 0;
    while i < indent
        invariant
            i <= indent,
            out@ == before + Seq::new(2 * i as nat, |k: int| ' '),
        decreases indent - i,
    {
        out.push(' ');
        out.push(' ');
        assert(out@ =~= before + Seq::new(2 * (i + 1) as nat, |k: int| ' '));
        i += 1;
    }
}

/// Normalizes a statement's spacing (see [`normalize_statement`]).
fn normalize_statement_of(text: &String) -> (r: Vec<char>)
    ensures
        r@ == normalize_statement(text@),
{
    let t = owned_text(text);
    let s = words_joined(&t);
    proof {
        reveal_strlit(" =");
        reveal_strlit("= ");
        reveal_strlit("=");
        reveal_strlit(" ;");
        reveal_strlit(" ,");
        reveal_strlit(",");
        reveal_strlit("  ");
        reveal_strlit(" (");
        reveal_strlit("( ");
        reveal_strlit(" )");
        reveal_strlit("[ ");
        reveal_strlit(" ]");
        reveal_strlit(" <");
        reveal_strlit("< ");
        reveal_strlit(" >");
    }
    let s = replace_str(&s, " =", "=");
    let s = replace_str(&s, "= ", "=");
    let s = replace_str(&s, "=", " = ");
    let s = replace_str(&s, " ;", ";");
    let s = replace_str(&s, " ,", ",");
    let s = replace_str(&s, ",", ", ");
    let s = replace_str(&s, "  ", " ");
    let s = replace_str(&s, " (", "(");
    let s = replace_str(&s, "( ", "(");
    let s = replace_str(&s, " )", ")");
    let s = replace_str(&s, "[ ", "[");
    let s = replace_str(&s, " ]", "]");
    let s = replace_str(&s, " <", "<");
    let s = replace_str(&s, "< ", "<");
    let s = replace_str(&s, " >", ">");
    let s = collapse_spaces_in(s);
    let (a, b) = trim_bounds(&s, 0, s.len());
    assert(s@.subrange(0, s@.len() as int) =~= s@);
    crate::text::slice_of(&s, a, b)
}

/// Each line of `text` trimmed and indented (see [`render_fallback`]).
fn render_fallback_of(text: &String, indent: usize) -> (r: Vec<char>)
    ensures
        r@ == render_fallback(text@, indent as nat),
{
    let t = owned_text(text);
    let ls = split_lines(&t);
    let mut out_lines: Vec<Vec<char>> = Vec::new();
    let mut i: usize = 0;
    while i < ls.len()
        invariant
            i <= ls.len(),
            ls@.len() == lines(t@).len(),
            forall|k: int| 0 <= k < ls@.len() ==> #[trigger] ls@[k]@ == lines(t@)[k],
            lines_view(out_lines@) == lines(t@).take(i as int).map_values(
                |l: Seq<char>| indent_text(indent as nat) + trim(l),
            ),
        decreases ls.len() - i,
    {
        let line = &ls[i];
        let mut piece: Vec<char> = Vec::new();
        push_indent(&mut piece, indent);
        let (a, b) = trim_bounds(line, 0, line.len());
        assert(line@.subrange(0, line@.len() as int) =~= line@);
        let trimmed = crate::text::slice_of(line, a, b);
        push_all(&mut piece, &trimmed);
        let ghost before = lines_view(out_lines@);
        out_lines.push(piece);
        assert(lines_view(out_lines@) =~= before.push(indent_text(indent as nat) + trim(lines(t@)[i as int])));
        assert(lines(t@).take(i + 1) =~= lines(t@).take(i as int).push(lines(t@)[i as int]));
        i += 1;
    }
    assert(lines(t@).take(i as int) =~= lines(t@));
    join_lines(&out_lines)
}

/// Appends the comments `cs` of `p` (see [`comments_text`]).
fn push_comments(out: &mut Vec<char>, p: &CstNode, cs: &Vec<usize>, indent: usize)
    requires
        forall|j: int| 0 <= j < cs@.len() ==> #[trigger] cs@[j] < p.children@.len(),
    ensures
        final(out)@ == old(out)@ + comments_text(p@, indices_view(cs@), indent as nat),
{
    proof {
        lemma_children(p);
    }
    let ghost before = out@;
    let ghost cv = indices_view(cs@);
    let mut j: usize = 0;
    while j < cs.len()
        invariant
            j <= cs.len(),
            cv == indices_view(cs@),
            forall|m: int| 0 <= m < cs@.len() ==> #[trigger] cs@[m] < p.children@.len(),
            p@.children.len() == p.children@.len(),
            forall|m: int| 0 <= m < p.children@.len() ==> #[trigger] p@.children[m] == p.children@[m]@,
            out@ == before + comments_text(p@, cv.take(j as int), indent as nat),
        decreases cs.len() - j,
    {
        let c = &p.children[cs[j]];
        let ghost mid = out@;
        push_indent(out, indent);
        let t = trimmed_text(c);
        push_all(out, &t);
        out.push('\n');
        proof {
            reveal_strlit("\n");
            assert(cv.take(j + 1).drop_last() =~= cv.take(j as int));
            assert(cv.take(j + 1).last() == cs@[j as int] as int);
            assert(out@ =~= before + comments_text(p@, cv.take(j + 1), indent as nat));
        }
        j += 1;
    }
    assert(cv.take(j as int) =~= cv);
}

/// Drops trailing line breaks.
fn strip_trailing_newlines(out: &mut Vec<char>)
    ensures
        final(out)@ == strip_newlines(old(out)@),
{
    while out.len() > 0 && out[out.len() - 1] == '\n'
        invariant
            strip_newlines(old(out)@) == strip_newlines(out@),
        decreases out.len(),
    {
        let ghost before = out@;
        out.pop();
        assert(out@ =~= before.drop_last());
    }
}

// ---------------------------------------------------------------------------
// Executable rendering
// ---------------------------------------------------------------------------
pub open spec fn opt_str(k: Option<&str>) -> Option<Seq<char>> {
    match k {
        Some(s) => Some(s@),
        None => None,
    }
}

/// Indices of the named children whose kind is not `kind` (see [`named_except`]).
fn named_except_of(c: &CstNode, kind: &str) -> (r: Vec<usize>)
    ensures
        indices_view(r@) == named_except(c@, kind@, 0),
        forall|j: int| 0 <= j < r@.len() ==> #[trigger] r@[j] < c.children@.len(),
{
    proof {
        lemma_children(c);
    }
    let mut r: Vec<usize> = Vec::new();
    let mut i: usize = 0;
    assert(indices_view(r@) =~= seq![]);
    while i < c.children.len()
        invariant
            i <= c.children.len(),
            c@.children.len() == c.children@.len(),
            forall|k: int| 0 <= k < c.children@.len() ==> #[trigger] c@.children[k] == c.children@[k]@,
            named_except(c@, kind@, 0) == indices_view(r@) + named_except(c@, kind@, i as int),
            forall|j: int| 0 <= j < r@.len() ==> #[trigger] r@[j] < i,
        decreases c.children.len() - i,
    {
        if c.children[i].named && !kind_is(&c.children[i], kind) {
            let ghost before = indices_view(r@);
            r.push(i);
            assert(indices_view(r@) =~= before.push(i as int));
            assert(before + named_except(c@, kind@, i as int) =~= indices_view(r@) + named_except(
                c@,
                kind@,
                i + 1,
            ));
        }
        i += 1;
    }
    assert(indices_view(r@) + seq![] =~= indices_view(r@));
    r
}

/// Items of a body (see [`body_items`]).
fn body_items_of(body: &CstNode, o: FormatOptions) -> (r: Vec<ItemRef>)
    ensures
        items_view(r@) == body_items(body@, o),
        items_valid(body@, items_view(r@)),
{
    let mut items = collect_items_of(body);
    if o.sort_declarations {
        items = sort_items(body, items, Pick::Declaration, SortKey::Name);
    }
    if o.sort_fields {
        items = sort_items(body, items, Pick::Field, o.field_key);
    }
    items
}

/// Items of an `extend` body (see [`extend_items`]).
fn extend_items_of(body: &CstNode, o: FormatOptions) -> (r: Vec<ItemRef>)
    ensures
        items_view(r@) == extend_items(body@, o),
        items_valid(body@, items_view(r@)),
{
    let mut items = collect_items_of(body);
    if o.sort_fields {
        items = sort_items(body, items, Pick::Field, o.field_key);
    }
    items
}

/// Items of a `oneof` (see [`oneof_items`]).
fn oneof_items_of(c: &CstNode, o: FormatOptions) -> (r: Vec<ItemRef>)
    ensures
        items_view(r@) == oneof_items(c@, o),
        items_valid(c@, items_view(r@)),
{
    proof {
        lemma_children(c);
    }
    let all = collect_items_of(c);
    let ghost av = items_view(all@);
    let mut items: Vec<ItemRef> = Vec::new();
    let mut k: usize = 0;
    assert(items_view(items@) =~= without_identifier(c@, av.take(0)));
    while k < all.len()
        invariant
            k <= all.len(),
            av == items_view(all@),
            items_valid(c@, av),
            c@.children.len() == c.children@.len(),
            forall|m: int| 0 <= m < c.children@.len() ==> #[trigger] c@.children[m] == c.children@[m]@,
            items_view(items@) == without_identifier(c@, av.take(k as int)),
            items_valid(c@, items_view(items@)),
        decreases all.len() - k,
    {
        let idx = all[k].0;
        assert(av[k as int].0 == idx);
        assert(0 <= av[k as int].0 < c@.children.len());
        proof {
            lemma_without_identifier_push(c@, av.take(k as int), av[k as int]);
            assert(av.take(k + 1) =~= av.take(k as int).push(av[k as int]));
        }
        if !kind_is(&c.children[idx], "identifier") {
            let ghost before = items_view(items@);
            items.push(copy_item(&all[k]));
            assert(items_view(items@) =~= before.push(av[k as int]));
        }
        k += 1;
    }
    assert(av.take(k as int) =~= av);
    if o.sort_fields {
        items = sort_items(c, items, Pick::Field, o.field_key);
    }
    items
}

/// `head`, a line break, `inner`, a line break, the indentation and `}`.
fn push_block(out: &mut Vec<char>, inner: &Vec<char>, indent: usize)
    ensures
        final(out)@ == block_text(old(out)@, inner@, indent as nat),
{
    out.push('\n');
    push_all(out, inner);
    out.push('\n');
    push_indent(out, indent);
    out.push('}');
    proof {
        reveal_strlit("\n");
        reveal_strlit("}");
    }
    assert(out@ =~= block_text(old(out)@, inner@, indent as nat));
}

/// A node in canonical layout (see [`render_node`]).
fn render_node_of(c: &CstNode, indent: usize, o: FormatOptions) -> (r: Vec<char>)
    requires
        indent + height(c@) <= usize::MAX,
    ensures
        r@ == render_node(c@, indent as nat, o),
    decreases height(c@), 3int,
{
    if statement_kind(c) {
        let mut out: Vec<char> = Vec::new();
        push_indent(&mut out, indent);
        let n = normalize_statement_of(&c.text);
        push_all(&mut out, &n);
        out
    } else if kind_is(c, "message") {
        render_compound_of(c, "message", "message_name", Some("message_body"), indent, o)
    } else if kind_is(c, "enum") {
        render_compound_of(c, "enum", "enum_name", Some("enum_body"), indent, o)
    } else if kind_is(c, "service") {
        render_compound_of(c, "service", "service_name", None, indent, o)
    } else if kind_is(c, "oneof") {
        render_oneof_of(c, indent, o)
    } else if kind_is(c, "extend") {
        render_extend_of(c, indent, o)
    } else if kind_is(c, "comment") {
        let mut out: Vec<char> = Vec::new();
        push_indent(&mut out, indent);
        let t = trimmed_text(c);
        push_all(&mut out, &t);
        out
    } else {
        render_fallback_of(&c.text, indent)
    }
}

/// `keyword name {` and the rest (see [`render_compound`]).
fn render_compound_of(c: &CstNode, keyword: &str, name_kind: &str, body_kind: Option<&str>, indent: usize, o: FormatOptions) -> (r: Vec<char>)
    requires
        indent + height(c@) <= usize::MAX,
    ensures
        r@ == render_compound(c@, keyword@, name_kind@, opt_str(body_kind), indent as nat, o),
    decreases height(c@), 2int,
{
    proof {
        lemma_children(c);
        reveal_strlit(" ");
        reveal_strlit(" {");
        reveal_strlit("}");
        reveal_strlit("\n");
    }
    let mut out: Vec<char> = Vec::new();
    push_indent(&mut out, indent);
    push_str(&mut out, keyword);
    push_str(&mut out, " ");
    match find_child(c, name_kind) {
        Some(i) => {
            let t = trimmed_text(&c.children[i]);
            push_all(&mut out, &t);
        },
        None => {
            assert(trim(seq![]) =~= seq![]);
        },
    }
    push_str(&mut out, " {");
    let ghost head = out@;
    assert(head == indent_text(indent as nat) + keyword@ + " "@ + trim(text_or_empty(child_text(c@, name_kind@))) + " {"@);
    let body = match body_kind {
        Some(bk) => find_child(c, bk),
        None => None,
    };
    match body {
        Some(b) => {
            proof {
                lemma_child_height(c@, b as int);
            }
            let bn = &c.children[b];
            let items = body_items_of(bn, o);
            if items.len() > 0 {
                let inner = render_items_of(bn, &items, indent + 1, o);
                push_block(&mut out, &inner, indent);
            } else {
                out.push('}');
            }
        },
        None => {
            let kids = named_except_of(c, name_kind);
            if kids.len() > 0 {
                out.push('\n');
                let inner = render_kids_of(c, &kids, indent + 1, o);
                push_all(&mut out, &inner);
                push_indent(&mut out, indent);
                out.push('}');
            } else {
                out.push('}');
            }
        },
    }
    assert(out@ =~= render_compound(c@, keyword@, name_kind@, opt_str(body_kind), indent as nat, o));
    out
}

/// The children `kids`, each on its own line (see [`render_kids`]).
fn render_kids_of(c: &CstNode, kids: &Vec<usize>, indent: usize, o: FormatOptions) -> (r: Vec<char>)
    requires
        indent + height(c@) <= usize::MAX + 1,
        forall|j: int| 0 <= j < kids@.len() ==> #[trigger] kids@[j] < c.children@.len(),
    ensures
        r@ == render_kids(c@, indices_view(kids@), indent as nat, o, 0),
    decreases height(c@), 1int,
{
    proof {
        lemma_children(c);
        reveal_strlit("\n");
    }
    let ghost kv = indices_view(kids@);
    let mut out: Vec<char> = Vec::new();
    let mut k: usize = 0;
    while k < kids.len()
        invariant
            k <= kids.len(),
            kv == indices_view(kids@),
            indent + height(c@) <= usize::MAX + 1,
            forall|j: int| 0 <= j < kids@.len() ==> #[trigger] kids@[j] < c.children@.len(),
            c@.children.len() == c.children@.len(),
            forall|m: int| 0 <= m < c.children@.len() ==> #[trigger] c@.children[m] == c.children@[m]@,
            render_kids(c@, kv, indent as nat, o, 0) == out@ + render_kids(c@, kv, indent as nat, o, k as int),
        decreases kids.len() - k,
    {
        let i = kids[k];
        assert(kv[k as int] == i);
        proof {
            lemma_child_height(c@, i as int);
        }
        let rendered = render_node_of(&c.children[i], indent, o);
        proof {
            reveal_strlit("\n");
        }
        assert(c@.children[i as int] == c.children@[i as int]@);
        assert(render_kids(c@, kv, indent as nat, o, k as int) == rendered@ + "\n"@ + render_kids(
            c@,
            kv,
            indent as nat,
            o,
            k + 1,
        ));
        let ghost before = out@;
        push_all(&mut out, &rendered);
        out.push('\n');
        assert(before + render_kids(c@, kv, indent as nat, o, k as int) =~= before + (rendered@ + "\n"@ + render_kids(
            c@,
            kv,
            indent as nat,
            o,
            k + 1,
        )));
        assert(before + (rendered@ + "\n"@ + render_kids(c@, kv, indent as nat, o, k + 1)) =~= out@ + render_kids(
            c@,
            kv,
            indent as nat,
            o,
            k + 1,
        ));
        k += 1;
    }
    assert(out@ + seq![] =~= out@);
    out
}

/// `oneof name {` and its fields (see [`render_oneof`]).
fn render_oneof_of(c: &CstNode, indent: usize, o: FormatOptions) -> (r: Vec<char>)
    requires
        indent + height(c@) <= usize::MAX,
    ensures
        r@ == render_oneof(c@, indent as nat, o),
    decreases height(c@), 2int,
{
    proof {
        lemma_children(c);
        reveal_strlit("oneof ");
        reveal_strlit(" {");
        reveal_strlit("}");
    }
    let mut out: Vec<char> = Vec::new();
    push_indent(&mut out, indent);
    push_str(&mut out, "oneof ");
    match find_child(c, "identifier") {
        Some(i) => {
            let t = trimmed_text(&c.children[i]);
            push_all(&mut out, &t);
        },
        None => {},
    }
    push_str(&mut out, " {");
    let items = oneof_items_of(c, o);
    if items.len() > 0 {
        let inner = render_items_of(c, &items, indent + 1, o);
        push_block(&mut out, &inner, indent);
    } else {
        out.push('}');
    }
    assert(out@ =~= render_oneof(c@, indent as nat, o));
    out
}

/// `extend name {` and its fields (see [`render_extend`]).
fn render_extend_of(c: &CstNode, indent: usize, o: FormatOptions) -> (r: Vec<char>)
    requires
        indent + height(c@) <= usize::MAX,
    ensures
        r@ == render_extend(c@, indent as nat, o),
    decreases height(c@), 2int,
{
    proof {
        lemma_children(c);
        reveal_strlit("extend ");
        reveal_strlit(" {");
        reveal_strlit("}");
    }
    let mut out: Vec<char> = Vec::new();
    push_indent(&mut out, indent);
    push_str(&mut out, "extend ");
    match find_child(c, "full_ident") {
        Some(i) => {
            let t = trimmed_text(&c.children[i]);
            push_all(&mut out, &t);
        },
        None => {},
    }
    push_str(&mut out, " {");
    match find_child(c, "message_body") {
        Some(b) => {
            proof {
                lemma_child_height(c@, b as int);
            }
            let bn = &c.children[b];
            let items = extend_items_of(bn, o);
            if items.len() > 0 {
                let inner = render_items_of(bn, &items, indent + 1, o);
                push_block(&mut out, &inner, indent);
            } else {
                out.push('}');
            }
        },
        None => {
            out.push('}');
        },
    }
    assert(out@ =~= render_extend(c@, indent as nat, o));
    out
}

/// Items with their comments and blank lines (see [`render_items`]).
fn render_items_of(p: &CstNode, items: &Vec<ItemRef>, indent: usize, o: FormatOptions) -> (r: Vec<char>)
    requires
        indent + height(p@) <= usize::MAX + 1,
        items_valid(p@, items_view(items@)),
    ensures
        r@ == render_items(p@, items_view(items@), indent as nat, o),
    decreases height(p@), 1int,
{
    proof {
        lemma_children(p);
        reveal_strlit("\n");
    }
    let ghost iv = items_view(items@);
    let mut out: Vec<char> = Vec::new();
    let mut previous: Option<Group> = None;
    let mut k: usize = 0;
    while k < items.len()
        invariant
            k <= items.len(),
            iv == items_view(items@),
            items_valid(p@, iv),
            indent + height(p@) <= usize::MAX + 1,
            p@.children.len() == p.children@.len(),
            forall|m: int| 0 <= m < p.children@.len() ==> #[trigger] p@.children[m] == p.children@[m]@,
            render_items(p@, iv, indent as nat, o) == render_items_from(
                p@,
                iv,
                indent as nat,
                o,
                k as int,
                out@,
                previous,
            ),
        decreases items.len() - k,
    {
        let idx = items[k].0;
        assert(iv[k as int].0 == idx);
        assert(0 <= iv[k as int].0 < p@.children.len());
        let node = &p.children[idx];
        assert(p@.children[idx as int] == node@);
        let group = group_for_kind(node);
        let ghost out0 = out@;
        if out.len() > 0 && should_separate(previous, group, indent) {
            out.push('\n');
        }
        let ghost out1 = out@;
        assert(out1 == if out0.len() > 0 && separates(previous, group, indent as nat) {
            out0.push('\n')
        } else {
            out0
        });
        assert(iv[k as int].1 == indices_view(items@[k as int].1@));
        assert forall|j: int| 0 <= j < items@[k as int].1@.len() implies #[trigger] items@[k
            as int].1@[j] < p.children@.len() by {
            assert(iv[k as int].1[j] == items@[k as int].1@[j] as int);
        }
        push_comments(&mut out, p, &items[k].1, indent);
        proof {
            lemma_child_height(p@, idx as int);
        }
        let ghost out2 = out@;
        assert(out2 == out1 + comments_text(p@, iv[k as int].1, indent as nat));
        let rendered = render_node_of(node, indent, o);
        if rendered.len() > 0 {
            push_all(&mut out, &rendered);
            out.push('\n');
        }
        let ghost out3 = out@;
        proof {
            reveal_strlit("\n");
        }
        assert(out3 =~= if rendered@.len() > 0 {
            out2 + rendered@ + "\n"@
        } else {
            out2
        });
        assert(render_items_from(p@, iv, indent as nat, o, k as int, out0, previous)
            == render_items_from(p@, iv, indent as nat, o, k + 1, out3, Some(group)));
        previous = Some(group);
        k += 1;
    }
    strip_trailing_newlines(&mut out);
    out
}

/// Top-level items (see [`source_items`]).
fn source_items_of(root: &CstNode, o: FormatOptions) -> (r: Vec<ItemRef>)
    ensures
        items_view(r@) == source_items(root@, o),
        items_valid(root@, items_view(r@)),
{
    let mut items = collect_items_of(root);
    if o.sort_imports {
        items = sort_items(root, items, Pick::Import, SortKey::Name);
    }
    if o.sort_declarations {
        items = sort_items(root, items, Pick::Declaration, SortKey::Name);
    }
    items
}

/// Renders a parsed file in canonical layout, ending with a line break (see
/// [`render_source`]).
pub fn render_tree(tree: &CstNode, options: FormatOptions) -> (r: String)
    requires
        height(tree@) <= usize::MAX,
    ensures
        r@ == render_source(tree@, options) + "\n"@,
{
    let items = source_items_of(tree, options);
    let mut out = render_items_of(tree, &items, 0, options);
    out.push('\n');
    proof {
        reveal_strlit("\n");
    }
    assert(out@ =~= render_source(tree@, options) + "\n"@);
    string_of(out.as_slice())
}

/// Formats `.proto` text in canonical layout (see [`formatted`]): fails on text
/// with syntax errors, and when the result would not parse cleanly.
pub fn format_proto(source: &str, options: FormatOptions) -> (r: Result<String, FormatError>)
    ensures
        match formatted(source@, options) {
            Ok(t) => r matches Ok(s) && s@ == t,
            Err(e) => r == Err::<String, FormatError>(e),
        },
{
    let tree = match parse_proto(source) {
        Some(t) => t,
        None => {
            return Err(FormatError::ParserFailed);
        },
    };
    if tree.has_error {
        return Err(FormatError::InvalidSource);
    }
    let out = render_tree(&tree, options);
    let check = match parse_proto(out.as_str()) {
        Some(t) => t,
        None => {
            return Err(FormatError::ParserFailed);
        },
    };
    if check.has_error {
        return Err(FormatError::InvalidOutput);
    }
    Ok(out)
}

impl FormatError {
    /// The error as a sentence.
    pub fn describe(&self) -> (r: String)
        ensures
            match self {
                FormatError::ParserFailed => r@ == "failed to parse protobuf source"@,
                FormatError::InvalidSource => r@ == "cannot format protobuf source with syntax errors"@,
                FormatError::InvalidOutput => r@ == "formatter produced invalid protobuf syntax"@,
            },
    {
        match self {
            FormatError::ParserFailed => "failed to parse protobuf source".to_string(),
            FormatError::InvalidSource => "cannot format protobuf source with syntax errors".to_string(),
            FormatError::InvalidOutput => "formatter produced invalid protobuf syntax".to_string(),
        }
    }
}

// ---------------------------------------------------------------------------
// Laws
// ---------------------------------------------------------------------------
pub proof fn lemma_strip_newlines(s: Seq<char>)
    ensures
        strip_newlines(s).len() == 0 || strip_newlines(s).last() != '\n',
    decreases s.len(),
{
    if s.len() > 0 && s.last() == '\n' {
        lemma_strip_newlines(s.drop_last());
    }
}

pub proof fn lemma_items_end_without_newline(p: Cst, items: Seq<Item>, indent: nat, o: FormatOptions, k: int, out: Seq<char>, previous: Option<Group>)
    ensures
        render_items_from(p, items, indent, o, k, out, previous).len() == 0 || render_items_from(
            p,
            items,
            indent,
            o,
            k,
            out,
            previous,
        ).last() != '\n',
    decreases items.len() - k,
{
    if k < 0 || k >= items.len() {
        lemma_strip_newlines(out);
    } else {
        let idx = items[k].0;
        let group = group_of(p.children[idx].kind);
        let out1 = if out.len() > 0 && separates(previous, group, indent) {
            out.push('\n')
        } else {
            out
        };
        let out2 = out1 + comments_text(p, items[k].1, indent);
        let rendered = if 0 <= idx < p.children.len() {
            render_node(p.children[idx], indent, o)
        } else {
            seq![]
        };
        let out3 = if rendered.len() > 0 {
            out2 + rendered + "\n"@
        } else {
            out2
        };
        lemma_items_end_without_newline(p, items, indent, o, k + 1, out3, Some(group));
    }
}

/// A text whose tree shows a syntax error (an error node that is not a bare leaf at
/// the root, a missing node, or any error below the root) is refused as invalid
/// source: what `syntax_diagnostics` reports, formatting does not get past.
pub proof fn law_syntax_errors_refused(source: Seq<char>, o: FormatOptions)
    requires
        proto_syntax_tree(source) matches Some(t) && errors_flagged(t) && !(t.error
            && t.children.len() == 0) && error_diagnostics(t).len() > 0,
    ensures
        formatted(source, o) == Err::<Seq<char>, FormatError>(FormatError::InvalidSource),
{
    let t = proto_syntax_tree(source)->Some_0;
    if !t.has_error {
        assert(error_diagnostics(t) =~= own_diagnostic(t));
    }
}

/// Formatted output parses without syntax errors: the parser's tree of the output
/// shows none, and (short of a bare error leaf at its root) has no diagnostics.
pub proof fn law_formatted_output_parses_clean(source: Seq<char>, o: FormatOptions)
    requires
        formatted(source, o) is Ok,
    ensures
        ({
            let r = formatted(source, o)->Ok_0;
            proto_syntax_tree(r) matches Some(t2) && !t2.has_error && (errors_flagged(t2) && !(
            t2.error && t2.children.len() == 0) ==> error_diagnostics(t2).len() == 0)
        }),
{
    let r = formatted(source, o)->Ok_0;
    let t2 = proto_syntax_tree(r)->Some_0;
    assert(error_diagnostics(t2) =~= own_diagnostic(t2));
}

/// A formatted file ends with exactly one line break.
pub proof fn law_single_trailing_newline(root: Cst, o: FormatOptions)
    ensures
        ({
            let t = render_source(root, o) + "\n"@;
            &&& t.last() == '\n'
            &&& (t.len() < 2 || t[t.len() - 2] != '\n')
        }),
{
    reveal_strlit("\n");
    lemma_items_end_without_newline(root, source_items(root, o), 0, o, 0, seq![], None);
    let r = render_source(root, o);
    let t = r + "\n"@;
    if t.len() >= 2 {
        assert(t[t.len() - 2] == r.last());
    }
}

/// The options that sort nothing.
pub open spec fn unsorted(o: FormatOptions) -> bool {
    !o.sort_imports && !o.sort_fields && !o.sort_declarations
}

/// Without sorting, every statement list keeps the source order: the items of
/// the file, of message and enum bodies, of `oneof`s and of `extend` bodies are
/// collected in order and left so.
pub proof fn law_without_sort_keeps_order(c: Cst, o: FormatOptions)
    requires
        unsorted(o),
    ensures
        source_items(c, o) == collect_items(c),
        body_items(c, o) == collect_items(c),
        extend_items(c, o) == collect_items(c),
        oneof_items(c, o) == without_identifier(c, collect_items(c)),
{
}

pub proof fn lemma_selection(p: Cst, items: Seq<Item>, which: Pick, k: int)
    requires
        0 <= k <= items.len(),
    ensures
        forall|j: int|
            0 <= j < selection(p, items, which, k).len() ==> k <= #[trigger] selection(p, items, which, k)[j]
                < items.len(),
        forall|a: int, b: int|
            0 <= a < b < selection(p, items, which, k).len() ==> #[trigger] selection(p, items, which, k)[a]
                < #[trigger] selection(p, items, which, k)[b],
        forall|j: int|
            0 <= j < selection(p, items, which, k).len() ==> picks(
                which,
                p.children[items[#[trigger] selection(p, items, which, k)[j]].0].kind,
            ),
        forall|m: int|
            k <= m < items.len() && picks(which, p.children[items[m].0].kind) ==> exists|j: int|
                0 <= j < selection(p, items, which, k).len() && #[trigger] selection(p, items, which, k)[j]
                    == m,
    decreases items.len() - k,
{
    if k < items.len() {
        lemma_selection(p, items, which, k + 1);
        let rest = selection(p, items, which, k + 1);
        let sel = selection(p, items, which, k);
        if picks(which, p.children[items[k].0].kind) {
            assert(sel == seq![k] + rest);
        } else {
            assert(sel == rest);
        }
        assert forall|m: int|
            k <= m < items.len() && picks(which, p.children[items[m].0].kind) implies exists|j: int|
                0 <= j < sel.len() && #[trigger] sel[j] == m by {
            if m == k {
                assert(sel[0] == m);
            } else {
                let j = choose|j: int| 0 <= j < rest.len() && #[trigger] rest[j] == m;
                if picks(which, p.children[items[k].0].kind) {
                    assert(sel[j + 1] == m);
                } else {
                    assert(sel[j] == m);
                }
            }
        }
    }
}

pub proof fn lemma_place(orig: Seq<Item>, cur: Seq<Item>, sel: Seq<int>, order: Seq<int>, k: int, m: int)
    requires
        0 <= k,
        0 <= m < cur.len(),
        forall|j: int| 0 <= j < sel.len() ==> 0 <= #[trigger] sel[j] < cur.len(),
        forall|a: int, b: int| 0 <= a < b < sel.len() ==> #[trigger] sel[a] < #[trigger] sel[b],
    ensures
        place(orig, cur, sel, order, k).len() == cur.len(),
        (exists|j: int| k <= j < sel.len() && sel[j] == m) ==> place(orig, cur, sel, order, k)[m]
            == orig[sel[order[choose|j: int| k <= j < sel.len() && sel[j] == m]]],
        !(exists|j: int| k <= j < sel.len() && sel[j] == m) ==> place(orig, cur, sel, order, k)[m]
            == cur[m],
    decreases sel.len() - k,
{
    if k < sel.len() {
        let next = cur.update(sel[k], orig[sel[order[k]]]);
        lemma_place(orig, next, sel, order, k + 1, m);
        if exists|j: int| k <= j < sel.len() && sel[j] == m {
            let j = choose|j: int| k <= j < sel.len() && sel[j] == m;
            if j == k {
                assert(!(exists|i: int| k + 1 <= i < sel.len() && sel[i] == m));
            } else {
                assert(exists|i: int| k + 1 <= i < sel.len() && sel[i] == m);
                let i = choose|i: int| k + 1 <= i < sel.len() && sel[i] == m;
                assert(i == j);
                assert(sel[k] != m);
            }
        } else {
            assert(!(exists|i: int| k + 1 <= i < sel.len() && sel[i] == m));
        }
    } else {
        assert(!(exists|j: int| k <= j < sel.len() && sel[j] == m));
    }
}

/// Sorting statements of one kind (imports, declarations or fields) rearranges
/// only those: every other statement keeps its position, and the positions of
/// the picked ones hold picked statements in key order.
pub proof fn law_sorting_moves_only_picked(p: Cst, items: Seq<Item>, which: Pick, key: SortKey)
    ensures
        ({
            let r = sort_picked(p, items, which, key);
            let sel = selection(p, items, which, 0);
            &&& r.len() == items.len()
            &&& forall|m: int|
                0 <= m < items.len() && !picks(which, p.children[items[m].0].kind) ==> #[trigger] r[m]
                    == items[m]
            &&& forall|a: int, b: int|
                0 <= a < b < sel.len() ==> crate::text::lex_le(
                    pick_key(which, p.children[r[#[trigger] sel[a]].0], key),
                    pick_key(which, p.children[r[#[trigger] sel[b]].0], key),
                )
            &&& forall|a: int|
                0 <= a < sel.len() ==> exists|b: int|
                    0 <= b < sel.len() && #[trigger] r[sel[a]] == items[sel[b]]
        }),
{
    let r = sort_picked(p, items, which, key);
    let sel = selection(p, items, which, 0);
    lemma_selection(p, items, which, 0);
    if sel.len() >= 2 {
        let keys = selection_keys(p, items, sel, which, key);
        let o = stable_order(keys, sel.len() as int);
        crate::sorting::law_stable_order_sorts(keys, sel.len() as int);
        assert(r == place(items, items, sel, o, 0));
        lemma_place(items, items, sel, o, 0, 0);
        assert forall|m: int|
            0 <= m < items.len() && !picks(which, p.children[items[m].0].kind) implies #[trigger] r[m]
                == items[m] by {
            lemma_place(items, items, sel, o, 0, m);
            if exists|j: int| 0 <= j < sel.len() && sel[j] == m {
                let j = choose|j: int| 0 <= j < sel.len() && sel[j] == m;
                assert(picks(which, p.children[items[sel[j]].0].kind));
            }
        }
        assert forall|a: int| 0 <= a < sel.len() implies r[sel[a]] == items[sel[o[a]]] by {
            lemma_place(items, items, sel, o, 0, sel[a]);
            assert(exists|j: int| 0 <= j < sel.len() && sel[j] == sel[a]);
            let j = choose|j: int| 0 <= j < sel.len() && sel[j] == sel[a];
            if j != a {
                if j < a {
                    assert(sel[j] < sel[a]);
                } else {
                    assert(sel[a] < sel[j]);
                }
            }
        }
        assert forall|a: int, b: int| 0 <= a < b < sel.len() implies crate::text::lex_le(
            pick_key(which, p.children[r[#[trigger] sel[a]].0], key),
            pick_key(which, p.children[r[#[trigger] sel[b]].0], key),
        ) by {
            assert(r[sel[a]] == items[sel[o[a]]]);
            assert(r[sel[b]] == items[sel[o[b]]]);
            assert(crate::text::lex_le(keys[o[a]], keys[o[b]]));
        }
        assert forall|a: int| 0 <= a < sel.len() implies exists|b: int|
            0 <= b < sel.len() && #[trigger] r[sel[a]] == items[sel[b]] by {
            assert(r[sel[a]] == items[sel[o[a]]]);
        }
    } else {
        assert forall|a: int, b: int| 0 <= a < b < sel.len() implies crate::text::lex_le(
            pick_key(which, p.children[r[#[trigger] sel[a]].0], key),
            pick_key(which, p.children[r[#[trigger] sel[b]].0], key),
        ) by {}
        assert forall|a: int| 0 <= a < sel.len() implies exists|b: int|
            0 <= b < sel.len() && #[trigger] r[sel[a]] == items[sel[b]] by {
            assert(r[sel[a]] == items[sel[a]]);
        }
    }
}


// ---------------------------------------------------------------------------
// Numbers of fields and enum values
// ---------------------------------------------------------------------------
/// The number literal of `c` (its first `field_number` child, or when it has none its
/// first `int_lit` child) is the decimal text of `n`.
pub open spec fn number_literal_is(c: Cst, n: nat) -> bool {
    match child_index(c, "field_number"@, 0) {
        Some(i) => c.children[i].text == crate::text::decimal(n),
        None => match child_index(c, "int_lit"@, 0) {
            Some(i) => c.children[i].text == crate::text::decimal(n),
            None => false,
        },
    }
}

proof fn lemma_filter_digits(s: Seq<char>)
    requires
        crate::text::all_digits(s),
    ensures
        ascii_digits(s) == s,
    decreases s.len(),
{
    reveal(Seq::filter);
    if s.len() > 0 {
        assert forall|i: int| 0 <= i < s.drop_last().len() implies is_digit(#[trigger] s.drop_last()[i]) by {
            assert(s.drop_last()[i] == s[i]);
        }
        lemma_filter_digits(s.drop_last());
        assert(is_digit(s[s.len() - 1]));
        assert(s.drop_last().push(s.last()) =~= s);
    }
}

/// The number a field or enum value is sorted by is the one its literal spells.
pub proof fn lemma_number_literal(c: Cst, n: nat)
    requires
        number_literal_is(c, n),
        n <= u32::MAX,
    ensures
        field_number(c) == Some(n),
        field_key(c, SortKey::Number) == field_order_key(field_name(c), n as u32, SortKey::Number),
{
    let d = crate::text::decimal(n);
    crate::proto_sort::lemma_decimal_digits(n);
    lemma_filter_digits(d);
    assert(is_digit(d[0]));
    assert(d[0] != '+');
}

/// Fields and enum values are sorted by the numbers their literals spell (the
/// `field_number` child, or else the `int_lit` child): by number, one numbered `a`
/// comes before one numbered `b` whenever `a < b`, whatever their names.
pub proof fn law_numbers_order_values(x: Cst, y: Cst, a: nat, b: nat)
    requires
        number_literal_is(x, a),
        number_literal_is(y, b),
        a < b <= u32::MAX,
    ensures
        field_number(x) == Some(a),
        field_number(y) == Some(b),
        crate::text::lex_lt(field_key(x, SortKey::Number), field_key(y, SortKey::Number)),
{
    lemma_number_literal(x, a);
    lemma_number_literal(y, b);
    crate::proto_sort::law_number_keys_follow_numbers(a as u32, b as u32, field_name(x), field_name(y));
}

} // verus!

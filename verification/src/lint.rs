//! Lint rules for `.proto` sources: syntax, file header, naming conventions and
//! canonical layout.
use vstd::prelude::*;

use crate::proto_fmt::{
    child_index, find_child, find_last_child, format_proto, formatted, last_child_index, FormatError,
    FormatOptions,
};
use crate::proto_sort::SortKey;
use crate::syntax::{
    error_diagnostics, lemma_children, lemma_positions_fit_all, parse_proto, positions_fit,
    proto_syntax_tree, tree_diagnostics, Cst, CstNode, Diagnostic,
};
use crate::text::{chars_of, contains, contains_str, has_prefix, skip_spaces, str_eq, trim, trim_start};

verus! {

/// Options of the lint run: the layout the `format` rule compares against.
#[derive(Debug, Clone, Copy, PartialEq, Eq)]
pub struct LintOptions {
    pub format_options: FormatOptions,
}

impl Default for LintOptions {
    /// The layout check compares against the fully sorted layout: imports, fields
    /// (by number) and declarations.
    fn default() -> (r: Self)
        ensures
            r.format_options.sort_imports && r.format_options.sort_fields
                && r.format_options.sort_declarations,
            r.format_options.field_key == SortKey::Number,
    {
        LintOptions {
            format_options: FormatOptions {
                sort_imports: true,
                sort_fields: true,
                sort_declarations: true,
                field_key: SortKey::Number,
            },
        }
    }
}

/// How serious a finding is.
#[derive(Debug, Clone, Copy, PartialEq, Eq, Structural)]
pub enum Severity {
    Error,
    Warning,
}

/// A finding: one-based position, the rule's name, its severity and a message.
#[derive(Debug, Clone, PartialEq, Eq)]
pub struct LintDiagnostic {
    pub line: usize,
    pub column: usize,
    pub rule: String,
    pub severity: Severity,
    pub message: String,
}

/// A finding's meaning: line, column, rule, severity, message.
pub type Lint = (nat, nat, Seq<char>, Severity, Seq<char>);

impl View for LintDiagnostic {
    type V = Lint;

    open spec fn view(&self) -> Lint {
        (self.line as nat, self.column as nat, self.rule@, self.severity, self.message@)
    }
}

pub open spec fn lints_view(ds: Seq<LintDiagnostic>) -> Seq<Lint> {
    ds.map_values(|d: LintDiagnostic| d@)
}

// ---------------------------------------------------------------------------
// Naming conventions
// ---------------------------------------------------------------------------
pub open spec fn ascii_upper(c: char) -> bool {
    'A' <= c && c <= 'Z'
}

pub open spec fn ascii_lower(c: char) -> bool {
    'a' <= c && c <= 'z'
}

pub open spec fn ascii_digit(c: char) -> bool {
    '0' <= c && c <= '9'
}

/// `PascalCase`: an uppercase ASCII letter, then ASCII letters and digits.
pub open spec fn is_pascal_case(name: Seq<char>) -> bool {
    &&& name.len() > 0
    &&& ascii_upper(name[0])
    &&& forall|i: int|
        1 <= i < name.len() ==> ascii_upper(#[trigger] name[i]) || ascii_lower(name[i])
            || ascii_digit(name[i])
    &&& forall|i: int| 0 <= i < name.len() ==> #[trigger] name[i] != '_'
}

/// No two underscores in a row, none at the end.
pub open spec fn clean_underscores(name: Seq<char>) -> bool {
    &&& forall|i: int| 0 <= i < name.len() - 1 ==> !(#[trigger] name[i] == '_' && name[i + 1] == '_')
    &&& !(name.len() > 0 && name.last() == '_')
}

/// `lower_snake_case`: a lowercase ASCII letter, then lowercase letters, digits
/// and single inner underscores.
pub open spec fn is_lower_snake_case(name: Seq<char>) -> bool {
    &&& name.len() > 0
    &&& ascii_lower(name[0])
    &&& forall|i: int|
        0 <= i < name.len() ==> ascii_lower(#[trigger] name[i]) || ascii_digit(name[i]) || name[i]
            == '_'
    &&& clean_underscores(name)
}

/// `UPPER_SNAKE_CASE`: an uppercase ASCII letter, then uppercase letters, digits
/// and single inner underscores.
pub open spec fn is_upper_snake_case(name: Seq<char>) -> bool {
    &&& name.len() > 0
    &&& ascii_upper(name[0])
    &&& forall|i: int|
        0 <= i < name.len() ==> ascii_upper(#[trigger] name[i]) || ascii_digit(name[i]) || name[i]
            == '_'
    &&& clean_underscores(name)
}

/// A naming convention.
#[derive(Debug, Clone, Copy, PartialEq, Eq, Structural)]
pub enum NameStyle {
    Pascal,
    LowerSnake,
    UpperSnake,
}

pub open spec fn follows(style: NameStyle, name: Seq<char>) -> bool {
    match style {
        NameStyle::Pascal => is_pascal_case(name),
        NameStyle::LowerSnake => is_lower_snake_case(name),
        NameStyle::UpperSnake => is_upper_snake_case(name),
    }
}

fn is_upper_char(c: char) -> (r: bool)
    ensures
        r == ascii_upper(c),
{
    'A' <= c && c <= 'Z'
}

fn is_lower_char(c: char) -> (r: bool)
    ensures
        r == ascii_lower(c),
{
    'a' <= c && c <= 'z'
}

fn is_digit_char(c: char) -> (r: bool)
    ensures
        r == ascii_digit(c),
{
    '0' <= c && c <= '9'
}

fn has_clean_underscores(name: &Vec<char>) -> (r: bool)
    ensures
        r == clean_underscores(name@),
{
    let mut i: usize = 0;
    while i < name.len() && i + 1 < name.len()
        invariant
            i <= name.len(),
            forall|k: int| 0 <= k < i && k < name@.len() - 1 ==> !(#[trigger] name@[k] == '_' && name@[k + 1] == '_'),
        decreases name.len() - i,
    {
        if name[i] == '_' && name[i + 1] == '_' {
            return false;
        }
        i += 1;
    }
    !(name.len() > 0 && name[name.len() - 1] == '_')
}

/// Whether `name` follows `style` (see [`follows`]).
fn follows_style(style: NameStyle, name: &Vec<char>) -> (r: bool)
    ensures
        r == follows(style, name@),
{
    if name.len() == 0 {
        return false;
    }
    match style {
        NameStyle::Pascal => {
            if !is_upper_char(name[0]) {
                return false;
            }
            let mut i: usize = 0;
            while i < name.len()
                invariant
                    i <= name.len(),
                    style == NameStyle::Pascal,
                    name.len() > 0,
                    forall|k: int|
                        1 <= k < i ==> ascii_upper(#[trigger] name@[k]) || ascii_lower(name@[k])
                            || ascii_digit(name@[k]),
                    forall|k: int| 0 <= k < i ==> #[trigger] name@[k] != '_',
                decreases name.len() - i,
            {
                let c = name[i];
                if c == '_' {
                    assert(name@[i as int] == '_');
                    return false;
                }
                if i > 0 && !(is_upper_char(c) || is_lower_char(c) || is_digit_char(c)) {
                    assert(!(ascii_upper(name@[i as int]) || ascii_lower(name@[i as int]) || ascii_digit(name@[i as int])));
                    return false;
                }
                i += 1;
            }
            true
        },
        NameStyle::LowerSnake => {
            if !is_lower_char(name[0]) {
                return false;
            }
            let mut i: usize = 0;
            while i < name.len()
                invariant
                    i <= name.len(),
                    style == NameStyle::LowerSnake,
                    forall|k: int|
                        0 <= k < i ==> ascii_lower(#[trigger] name@[k]) || ascii_digit(name@[k])
                            || name@[k] == '_',
                decreases name.len() - i,
            {
                let c = name[i];
                if !(is_lower_char(c) || is_digit_char(c) || c == '_') {
                    assert(!(ascii_lower(name@[i as int]) || ascii_digit(name@[i as int]) || name@[i as int] == '_'));
                    return false;
                }
                i += 1;
            }
            has_clean_underscores(name)
        },
        NameStyle::UpperSnake => {
            if !is_upper_char(name[0]) {
                return false;
            }
            let mut i: usize = 0;
            while i < name.len()
                invariant
                    i <= name.len(),
                    style == NameStyle::UpperSnake,
                    forall|k: int|
                        0 <= k < i ==> ascii_upper(#[trigger] name@[k]) || ascii_digit(name@[k])
                            || name@[k] == '_',
                decreases name.len() - i,
            {
                let c = name[i];
                if !(is_upper_char(c) || is_digit_char(c) || c == '_') {
                    assert(!(ascii_upper(name@[i as int]) || ascii_digit(name@[i as int]) || name@[i as int] == '_'));
                    return false;
                }
                i += 1;
            }
            has_clean_underscores(name)
        },
    }
}

// ---------------------------------------------------------------------------
// Rules
// ---------------------------------------------------------------------------
/// The finding a name node raises when its trimmed text is not empty and breaks
/// `style`.
pub open spec fn name_finding(n: Cst, rule: Seq<char>, message: Seq<char>, style: NameStyle) -> Seq<Lint> {
    let name = trim(n.text);
    if name.len() > 0 && !follows(style, name) {
        seq![(n.row + 1, n.column + 1, rule, Severity::Warning, message)]
    } else {
        seq![]
    }
}

pub open spec fn child_finding(c: Cst, idx: Option<int>, rule: Seq<char>, message: Seq<char>, style: NameStyle) -> Seq<Lint> {
    match idx {
        Some(i) => name_finding(c.children[i], rule, message, style),
        None => seq![],
    }
}

/// The naming finding a node raises about its own name.
pub open spec fn name_lint(c: Cst) -> Seq<Lint> {
    if c.kind == "message"@ {
        child_finding(c, child_index(c, "message_name"@, 0), "message-name"@, "message names should be PascalCase"@, NameStyle::Pascal)
    } else if c.kind == "enum"@ {
        child_finding(c, child_index(c, "enum_name"@, 0), "enum-name"@, "enum names should be PascalCase"@, NameStyle::Pascal)
    } else if c.kind == "service"@ {
        child_finding(c, child_index(c, "service_name"@, 0), "service-name"@, "service names should be PascalCase"@, NameStyle::Pascal)
    } else if c.kind == "rpc"@ {
        let idx = match child_index(c, "rpc_name"@, 0) {
            Some(i) => Some(i),
            None => child_index(c, "identifier"@, 0),
        };
        child_finding(c, idx, "rpc-name"@, "rpc names should be PascalCase"@, NameStyle::Pascal)
    } else if c.kind == "field"@ || c.kind == "map_field"@ || c.kind == "oneof_field"@ {
        child_finding(c, last_child_index(c, "identifier"@, 0), "field-name"@, "field names should be lower_snake_case"@, NameStyle::LowerSnake)
    } else if c.kind == "enum_field"@ {
        child_finding(c, child_index(c, "identifier"@, 0), "enum-value-name"@, "enum value names should be UPPER_SNAKE_CASE"@, NameStyle::UpperSnake)
    } else {
        seq![]
    }
}

/// The finding a `field` node raises when it is marked `required`.
pub open spec fn required_lint(c: Cst) -> Seq<Lint> {
    if c.kind == "field"@ && has_prefix(trim_start(c.text), "required "@) {
        seq![(c.row + 1, c.column + 1, "proto3-required"@, Severity::Error, "proto3 fields must not use required"@)]
    } else {
        seq![]
    }
}

/// The two rules applied to every named node below the root.
#[derive(Debug, Clone, Copy, PartialEq, Eq, Structural)]
pub enum NodeRule {
    Required,
    Names,
}

pub open spec fn node_lint(rule: NodeRule, c: Cst) -> Seq<Lint> {
    match rule {
        NodeRule::Required => required_lint(c),
        NodeRule::Names => name_lint(c),
    }
}

/// Findings of `rule` on the named nodes below `c`, in document order.
pub open spec fn lints_below(rule: NodeRule, c: Cst) -> Seq<Lint>
    decreases c, 1nat,
{
    lints_below_all(rule, c.children)
}

pub open spec fn lints_below_all(rule: NodeRule, cs: Seq<Cst>) -> Seq<Lint>
    decreases cs, 0nat,
{
    if cs.len() == 0 {
        seq![]
    } else {
        let last = cs.last();
        lints_below_all(rule, cs.drop_last()) + if last.named {
            node_lint(rule, last) + lints_below(rule, last)
        } else {
            seq![]
        }
    }
}

/// Index of the first named child of `root` (from `i` on) that is a declaration
/// (`decl`) or a `syntax` or `edition` statement (otherwise).
pub open spec fn first_named(root: Cst, i: int, decl: bool) -> Option<int>
    decreases root.children.len() - i,
{
    if i < 0 || i >= root.children.len() {
        None
    } else if root.children[i].named && (if decl {
        crate::proto_fmt::is_declaration_kind(root.children[i].kind)
    } else {
        root.children[i].kind == "syntax"@ || root.children[i].kind == "edition"@
    }) {
        Some(i)
    } else {
        first_named(root, i + 1, decl)
    }
}

/// A text that declares `syntax = "proto3"` (with or without spaces around `=`).
pub open spec fn declares_proto3(source: Seq<char>) -> bool {
    contains(source, "syntax = \"proto3\""@) || contains(source, "syntax=\"proto3\""@)
}

/// Header findings: no `syntax` or `edition`; no `package` (reported at the first
/// declaration); `required` fields in a proto3 file.
pub open spec fn header_lints(root: Cst, source: Seq<char>) -> Seq<Lint> {
    let missing_syntax = if first_named(root, 0, false) is None {
        seq![(1nat, 1nat, "missing-syntax"@, Severity::Warning, "file should declare syntax or edition"@)]
    } else {
        seq![]
    };
    let missing_package = if child_index(root, "package"@, 0) is None {
        let (line, column) = match first_named(root, 0, true) {
            Some(i) => (root.children[i].row + 1, root.children[i].column + 1),
            None => (1nat, 1nat),
        };
        seq![(line, column, "missing-package"@, Severity::Warning, "file should declare a package"@)]
    } else {
        seq![]
    };
    let required = if declares_proto3(source) {
        lints_below(NodeRule::Required, root)
    } else {
        seq![]
    };
    missing_syntax + missing_package + required
}

/// Findings on a parsed file without syntax errors: header, then names.
pub open spec fn tree_lints(root: Cst, source: Seq<char>) -> Seq<Lint> {
    header_lints(root, source) + lints_below(NodeRule::Names, root)
}

/// Findings as `parse` errors.
pub open spec fn parse_lints(ds: Seq<Diagnostic>) -> Seq<Lint> {
    ds.map_values(|d: Diagnostic| (d.0, d.1, "parse"@, Severity::Error, d.2))
}

/// The `format` finding's message: it mentions order when the layout sorts.
pub open spec fn format_message(o: FormatOptions) -> Seq<char> {
    if o.sort_imports || o.sort_fields || o.sort_declarations {
        "file is not in canonical pbkit fmt layout/order"@
    } else {
        "file is not in canonical pbkit fmt layout"@
    }
}

/// `lint_proto`'s result: syntax errors as `parse` findings; otherwise header and
/// name findings, and a `format` finding when the canonical layout differs.
pub open spec fn lint_result(source: Seq<char>, o: LintOptions) -> Result<Seq<Lint>, FormatError> {
    match proto_syntax_tree(source) {
        None => Err(FormatError::ParserFailed),
        Some(t) => {
            let ds = error_diagnostics(t);
            if ds.len() > 0 {
                Ok(parse_lints(ds))
            } else {
                match formatted(source, o.format_options) {
                    Err(e) => Err(e),
                    Ok(f) => Ok(tree_lints(t, source) + if f != source {
                        seq![(1nat, 1nat, "format"@, Severity::Warning, format_message(o.format_options))]
                    } else {
                        seq![]
                    }),
                }
            }
        },
    }
}


// ---------------------------------------------------------------------------
// Naming conventions
// ---------------------------------------------------------------------------
/// The one warning `rule` raises at name node `n` with `message`, when `flagged`.
pub open spec fn warning_if(flagged: bool, n: Cst, rule: Seq<char>, message: Seq<char>) -> Seq<Lint> {
    if flagged {
        seq![(n.row + 1, n.column + 1, rule, Severity::Warning, message)]
    } else {
        seq![]
    }
}

/// Naming rules: messages, enums, services and rpcs are named in PascalCase,
/// fields (plain, map and oneof) in lower_snake_case, enum values in
/// UPPER_SNAKE_CASE. A node raises its rule's warning, once, at its name exactly
/// when the trimmed name is not empty and breaks that convention; a PascalCase
/// service name such as `Greeter` raises nothing.
pub proof fn law_names_follow_conventions(c: Cst)
    ensures
        c.kind == "message"@ ==> (child_index(c, "message_name"@, 0) matches Some(i) ==> name_lint(c)
            == warning_if(
            trim(c.children[i].text).len() > 0 && !is_pascal_case(trim(c.children[i].text)),
            c.children[i],
            "message-name"@,
            "message names should be PascalCase"@,
        )),
        c.kind == "enum"@ ==> (child_index(c, "enum_name"@, 0) matches Some(i) ==> name_lint(c) == warning_if(
            trim(c.children[i].text).len() > 0 && !is_pascal_case(trim(c.children[i].text)),
            c.children[i],
            "enum-name"@,
            "enum names should be PascalCase"@,
        )),
        c.kind == "service"@ ==> (child_index(c, "service_name"@, 0) matches Some(i) ==> name_lint(c)
            == warning_if(
            trim(c.children[i].text).len() > 0 && !is_pascal_case(trim(c.children[i].text)),
            c.children[i],
            "service-name"@,
            "service names should be PascalCase"@,
        )),
        c.kind == "rpc"@ ==> (child_index(c, "rpc_name"@, 0) matches Some(i) ==> name_lint(c) == warning_if(
            trim(c.children[i].text).len() > 0 && !is_pascal_case(trim(c.children[i].text)),
            c.children[i],
            "rpc-name"@,
            "rpc names should be PascalCase"@,
        )),
        (c.kind == "field"@ || c.kind == "map_field"@ || c.kind == "oneof_field"@) ==> (last_child_index(
            c,
            "identifier"@,
            0,
        ) matches Some(i) ==> name_lint(c) == warning_if(
            trim(c.children[i].text).len() > 0 && !is_lower_snake_case(trim(c.children[i].text)),
            c.children[i],
            "field-name"@,
            "field names should be lower_snake_case"@,
        )),
        c.kind == "enum_field"@ ==> (child_index(c, "identifier"@, 0) matches Some(i) ==> name_lint(c)
            == warning_if(
            trim(c.children[i].text).len() > 0 && !is_upper_snake_case(trim(c.children[i].text)),
            c.children[i],
            "enum-value-name"@,
            "enum value names should be UPPER_SNAKE_CASE"@,
        )),
{
    reveal_strlit("message");
    reveal_strlit("enum");
    reveal_strlit("service");
    reveal_strlit("rpc");
    reveal_strlit("field");
    reveal_strlit("map_field");
    reveal_strlit("oneof_field");
    reveal_strlit("enum_field");
    assert("message"@.len() == 7 && "service"@.len() == 7 && "enum"@.len() == 4 && "rpc"@.len() == 3);
    assert("message"@[0] != "service"@[0]);
    assert("message"@ != "enum"@ && "message"@ != "service"@ && "message"@ != "rpc"@);
    assert("enum"@ != "service"@ && "enum"@ != "rpc"@ && "service"@ != "rpc"@);
    assert("enum_field"@.len() == 10 && "field"@.len() == 5 && "map_field"@.len() == 9
        && "oneof_field"@.len() == 11);
    assert("enum_field"@ != "field"@ && "enum_field"@ != "map_field"@ && "enum_field"@ != "oneof_field"@);
    assert("message"@ != "field"@ && "message"@ != "map_field"@ && "message"@ != "oneof_field"@ && "message"@ != "enum_field"@);
    assert("enum"@ != "field"@ && "enum"@ != "map_field"@ && "enum"@ != "oneof_field"@ && "enum"@ != "enum_field"@);
    assert("service"@ != "field"@ && "service"@ != "map_field"@ && "service"@ != "oneof_field"@ && "service"@ != "enum_field"@);
    assert("rpc"@ != "field"@ && "rpc"@ != "map_field"@ && "rpc"@ != "oneof_field"@ && "rpc"@ != "enum_field"@);
}

// ---------------------------------------------------------------------------
// The `format` finding
// ---------------------------------------------------------------------------
/// No finding in `ls` carries rule `rule`.
pub open spec fn free_of_rule(ls: Seq<Lint>, rule: Seq<char>) -> bool {
    forall|i: int| 0 <= i < ls.len() ==> (#[trigger] ls[i]).2 != rule
}

proof fn lemma_rule_names()
    ensures
        "message-name"@ != "format"@,
        "enum-name"@ != "format"@,
        "service-name"@ != "format"@,
        "rpc-name"@ != "format"@,
        "field-name"@ != "format"@,
        "enum-value-name"@ != "format"@,
        "missing-syntax"@ != "format"@,
        "missing-package"@ != "format"@,
        "proto3-required"@ != "format"@,
{
    reveal_strlit("format");
    reveal_strlit("message-name");
    reveal_strlit("enum-name");
    reveal_strlit("service-name");
    reveal_strlit("rpc-name");
    reveal_strlit("field-name");
    reveal_strlit("enum-value-name");
    reveal_strlit("missing-syntax");
    reveal_strlit("missing-package");
    reveal_strlit("proto3-required");
    assert("message-name"@.len() != "format"@.len());
    assert("enum-name"@.len() != "format"@.len());
    assert("service-name"@.len() != "format"@.len());
    assert("rpc-name"@.len() != "format"@.len());
    assert("field-name"@.len() != "format"@.len());
    assert("enum-value-name"@.len() != "format"@.len());
    assert("missing-syntax"@.len() != "format"@.len());
    assert("missing-package"@.len() != "format"@.len());
    assert("proto3-required"@.len() != "format"@.len());
}

proof fn lemma_child_finding_rule(c: Cst, idx: Option<int>, rule: Seq<char>, message: Seq<char>, style: NameStyle)
    ensures
        forall|i: int| 0 <= i < child_finding(c, idx, rule, message, style).len() ==> (
        #[trigger] child_finding(c, idx, rule, message, style)[i]).2 == rule,
{
}

proof fn lemma_node_lint_no_format(rule: NodeRule, c: Cst)
    ensures
        free_of_rule(node_lint(rule, c), "format"@),
{
    lemma_rule_names();
    lemma_child_finding_rule(c, child_index(c, "message_name"@, 0), "message-name"@, "message names should be PascalCase"@, NameStyle::Pascal);
    lemma_child_finding_rule(c, child_index(c, "enum_name"@, 0), "enum-name"@, "enum names should be PascalCase"@, NameStyle::Pascal);
    lemma_child_finding_rule(c, child_index(c, "service_name"@, 0), "service-name"@, "service names should be PascalCase"@, NameStyle::Pascal);
    let idx = match child_index(c, "rpc_name"@, 0) {
        Some(i) => Some(i),
        None => child_index(c, "identifier"@, 0),
    };
    lemma_child_finding_rule(c, idx, "rpc-name"@, "rpc names should be PascalCase"@, NameStyle::Pascal);
    lemma_child_finding_rule(c, last_child_index(c, "identifier"@, 0), "field-name"@, "field names should be lower_snake_case"@, NameStyle::LowerSnake);
    lemma_child_finding_rule(c, child_index(c, "identifier"@, 0), "enum-value-name"@, "enum value names should be UPPER_SNAKE_CASE"@, NameStyle::UpperSnake);
}

proof fn lemma_lints_below_no_format(rule: NodeRule, c: Cst)
    ensures
        free_of_rule(lints_below(rule, c), "format"@),
    decreases c, 1nat,
{
    lemma_lints_below_all_no_format(rule, c.children);
}

proof fn lemma_lints_below_all_no_format(rule: NodeRule, cs: Seq<Cst>)
    ensures
        free_of_rule(lints_below_all(rule, cs), "format"@),
    decreases cs, 0nat,
{
    if cs.len() > 0 {
        let last = cs.last();
        lemma_lints_below_all_no_format(rule, cs.drop_last());
        if last.named {
            lemma_node_lint_no_format(rule, last);
            lemma_lints_below_no_format(rule, last);
        }
    }
}

/// The rules on a parsed tree never raise the `format` finding.
pub proof fn law_tree_lints_never_format(root: Cst, source: Seq<char>)
    ensures
        free_of_rule(tree_lints(root, source), "format"@),
{
    lemma_rule_names();
    lemma_lints_below_no_format(NodeRule::Required, root);
    lemma_lints_below_no_format(NodeRule::Names, root);
}

/// On a text without syntax errors that formats, the `format` finding comes exactly
/// when formatting would change the text, at most once, as the last finding, at
/// line 1, column 1.
pub proof fn law_format_finding_last(source: Seq<char>, o: LintOptions)
    requires
        proto_syntax_tree(source) matches Some(t) && error_diagnostics(t).len() == 0,
        formatted(source, o.format_options) is Ok,
    ensures
        lint_result(source, o) matches Ok(ls) && ({
            let f = formatted(source, o.format_options)->Ok_0;
            &&& f != source ==> ls.len() > 0 && free_of_rule(ls.drop_last(), "format"@) && ls.last() == (
                1nat,
                1nat,
                "format"@,
                Severity::Warning,
                format_message(o.format_options),
            )
            &&& f == source ==> free_of_rule(ls, "format"@)
        }),
{
    let t = proto_syntax_tree(source)->Some_0;
    law_tree_lints_never_format(t, source);
    let f = formatted(source, o.format_options)->Ok_0;
    let ls = lint_result(source, o)->Ok_0;
    if f != source {
        assert(ls.drop_last() =~= tree_lints(t, source));
    } else {
        assert(ls =~= tree_lints(t, source));
    }
}

// ---------------------------------------------------------------------------
// Executable rules
// ---------------------------------------------------------------------------
fn push_lint(out: &mut Vec<LintDiagnostic>, line: usize, column: usize, rule: &str, severity: Severity, message: &str)
    ensures
        lints_view(final(out)@) == lints_view(old(out)@).push(
            (line as nat, column as nat, rule@, severity, message@),
        ),
{
    let ghost before = lints_view(out@);
    out.push(LintDiagnostic { line, column, rule: rule.to_string(), severity, message: message.to_string() });
    assert(lints_view(out@) =~= before.push((line as nat, column as nat, rule@, severity, message@)));
}

fn name_finding_of(n: &CstNode, rule: &str, message: &str, style: NameStyle, out: &mut Vec<LintDiagnostic>)
    requires
        positions_fit(n@),
    ensures
        lints_view(final(out)@) == lints_view(old(out)@) + name_finding(n@, rule@, message@, style),
{
    let name = crate::proto_fmt::trimmed_text(n);
    if name.len() > 0 && !follows_style(style, &name) {
        push_lint(out, n.row + 1, n.column + 1, rule, Severity::Warning, message);
    }
    assert(lints_view(out@) =~= lints_view(old(out)@) + name_finding(n@, rule@, message@, style));
}

fn child_finding_of(c: &CstNode, idx: Option<usize>, rule: &str, message: &str, style: NameStyle, out: &mut Vec<LintDiagnostic>)
    requires
        positions_fit(c@),
        idx matches Some(i) ==> i < c.children@.len(),
    ensures
        lints_view(final(out)@) == lints_view(old(out)@) + child_finding(
            c@,
            match idx {
                Some(i) => Some(i as int),
                None => None,
            },
            rule@,
            message@,
            style,
        ),
{
    proof {
        lemma_children(c);
    }
    match idx {
        Some(i) => {
            proof {
                lemma_positions_fit_all(c@.children, i as int);
            }
            name_finding_of(&c.children[i], rule, message, style, out);
        },
        None => {
            assert(lints_view(out@) =~= lints_view(out@) + seq![]);
        },
    }
}

/// Appends the naming finding of a node (see [`name_lint`]).
fn name_lint_of(c: &CstNode, out: &mut Vec<LintDiagnostic>)
    requires
        positions_fit(c@),
    ensures
        lints_view(final(out)@) == lints_view(old(out)@) + name_lint(c@),
{
    let kind_is = crate::proto_fmt::kind_is;
    if kind_is(c, "message") {
        let idx = find_child(c, "message_name");
        child_finding_of(c, idx, "message-name", "message names should be PascalCase", NameStyle::Pascal, out);
    } else if kind_is(c, "enum") {
        let idx = find_child(c, "enum_name");
        child_finding_of(c, idx, "enum-name", "enum names should be PascalCase", NameStyle::Pascal, out);
    } else if kind_is(c, "service") {
        let idx = find_child(c, "service_name");
        child_finding_of(c, idx, "service-name", "service names should be PascalCase", NameStyle::Pascal, out);
    } else if kind_is(c, "rpc") {
        let idx = match find_child(c, "rpc_name") {
            Some(i) => Some(i),
            None => find_child(c, "identifier"),
        };
        child_finding_of(c, idx, "rpc-name", "rpc names should be PascalCase", NameStyle::Pascal, out);
    } else if kind_is(c, "field") || kind_is(c, "map_field") || kind_is(c, "oneof_field") {
        let idx = find_last_child(c, "identifier");
        child_finding_of(c, idx, "field-name", "field names should be lower_snake_case", NameStyle::LowerSnake, out);
    } else if kind_is(c, "enum_field") {
        let idx = find_child(c, "identifier");
        child_finding_of(c, idx, "enum-value-name", "enum value names should be UPPER_SNAKE_CASE", NameStyle::UpperSnake, out);
    } else {
        assert(lints_view(out@) =~= lints_view(out@) + seq![]);
    }
}

/// Appends the `required` finding of a node (see [`required_lint`]).
fn required_lint_of(c: &CstNode, out: &mut Vec<LintDiagnostic>)
    requires
        positions_fit(c@),
    ensures
        lints_view(final(out)@) == lints_view(old(out)@) + required_lint(c@),
{
    let text = crate::proto_fmt::owned_text(&c.text);
    let a = skip_spaces(&text, 0);
    let rest = crate::text::slice_of(&text, a, text.len());
    proof {
        assert(text@.skip(0) =~= text@);
        assert(rest@ =~= trim_start(c@.text));
    }
    if crate::proto_fmt::kind_is(c, "field") && crate::text::starts_with(&rest, "required ") {
        push_lint(out, c.row + 1, c.column + 1, "proto3-required", Severity::Error, "proto3 fields must not use required");
    }
    assert(lints_view(out@) =~= lints_view(old(out)@) + required_lint(c@));
}

fn node_lint_of(rule: NodeRule, c: &CstNode, out: &mut Vec<LintDiagnostic>)
    requires
        positions_fit(c@),
    ensures
        lints_view(final(out)@) == lints_view(old(out)@) + node_lint(rule, c@),
{
    match rule {
        NodeRule::Required => required_lint_of(c, out),
        NodeRule::Names => name_lint_of(c, out),
    }
}

/// Appends the findings of `rule` below `c` (see [`lints_below`]).
fn lints_below_of(rule: NodeRule, c: &CstNode, out: &mut Vec<LintDiagnostic>)
    requires
        positions_fit(c@),
    ensures
        lints_view(final(out)@) == lints_view(old(out)@) + lints_below(rule, c@),
    decreases c,
{
    proof {
        lemma_children(c);
    }
    let ghost before = lints_view(out@);
    let mut i: usize = 0;
    assert(lints_view(out@) =~= before + lints_below_all(rule, c@.children.take(0)));
    while i < c.children.len()
        invariant
            i <= c.children.len(),
            c@.children.len() == c.children@.len(),
            forall|k: int| 0 <= k < c.children@.len() ==> #[trigger] c@.children[k] == c.children@[k]@,
            positions_fit(c@),
            lints_view(out@) == before + lints_below_all(rule, c@.children.take(i as int)),
        decreases c.children.len() - i,
    {
        assert(c@.children.take(i + 1).drop_last() =~= c@.children.take(i as int));
        proof {
            lemma_positions_fit_all(c@.children, i as int);
        }
        let child = &c.children[i];
        let ghost mid = lints_view(out@);
        if child.named {
            node_lint_of(rule, child, out);
            lints_below_of(rule, child, out);
        }
        assert(lints_view(out@) =~= before + lints_below_all(rule, c@.children.take(i + 1)));
        i += 1;
    }
    assert(c@.children.take(i as int) =~= c@.children);
}

/// Index of the first named child that is a declaration (`decl`) or a `syntax`
/// or `edition` statement (see [`first_named`]).
fn first_named_of(root: &CstNode, decl: bool) -> (r: Option<usize>)
    ensures
        match first_named(root@, 0, decl) {
            Some(i) => r matches Some(j) && j == i && i < root.children@.len(),
            None => r is None,
        },
{
    proof {
        lemma_children(root);
    }
    let mut i: usize = 0;
    while i < root.children.len()
        invariant
            i <= root.children.len(),
            root@.children.len() == root.children@.len(),
            forall|k: int| 0 <= k < root.children@.len() ==> #[trigger] root@.children[k] == root.children@[k]@,
            first_named(root@, 0, decl) == first_named(root@, i as int, decl),
        decreases root.children.len() - i,
    {
        let child = &root.children[i];
        let kind_is = crate::proto_fmt::kind_is;
        let accepted = if decl {
            kind_is(child, "message") || kind_is(child, "enum") || kind_is(child, "service")
                || kind_is(child, "extend")
        } else {
            kind_is(child, "syntax") || kind_is(child, "edition")
        };
        if child.named && accepted {
            return Some(i);
        }
        i += 1;
    }
    None
}

/// Header and naming findings on a parsed file (see [`tree_lints`]).
pub fn lint_tree(tree: &CstNode, source: &str) -> (r: Vec<LintDiagnostic>)
    requires
        positions_fit(tree@),
    ensures
        lints_view(r@) == tree_lints(tree@, source@),
{
    proof {
        lemma_children(tree);
    }
    let mut out: Vec<LintDiagnostic> = Vec::new();
    let ghost start = lints_view(out@);
    if first_named_of(tree, false).is_none() {
        push_lint(&mut out, 1, 1, "missing-syntax", Severity::Warning, "file should declare syntax or edition");
    }
    if find_child(tree, "package").is_none() {
        let (line, column) = match first_named_of(tree, true) {
            Some(i) => {
                proof {
                    lemma_positions_fit_all(tree@.children, i as int);
                }
                (tree.children[i].row + 1, tree.children[i].column + 1)
            },
            None => (1, 1),
        };
        push_lint(&mut out, line, column, "missing-package", Severity::Warning, "file should declare a package");
    }
    let chars = chars_of(source);
    if contains_str(&chars, "syntax = \"proto3\"") || contains_str(&chars, "syntax=\"proto3\"") {
        lints_below_of(NodeRule::Required, tree, &mut out);
    }
    assert(lints_view(out@) =~= start + header_lints(tree@, source@));
    lints_below_of(NodeRule::Names, tree, &mut out);
    assert(lints_view(out@) =~= tree_lints(tree@, source@));
    out
}

/// Lints `.proto` text (see [`lint_result`]).
pub fn lint_proto(source: &str, lint_options: LintOptions) -> (r: Result<Vec<LintDiagnostic>, FormatError>)
    ensures
        match lint_result(source@, lint_options) {
            Ok(ls) => r matches Ok(ds) && lints_view(ds@) == ls,
            Err(e) => r == Err::<Vec<LintDiagnostic>, FormatError>(e),
        },
{
    let tree = match parse_proto(source) {
        Some(t) => t,
        None => {
            return Err(FormatError::ParserFailed);
        },
    };
    let syntax = tree_diagnostics(&tree);
    if syntax.len() > 0 {
        let mut out: Vec<LintDiagnostic> = Vec::new();
        let mut i: usize = 0;
        while i < syntax.len()
            invariant
                i <= syntax.len(),
                lints_view(out@) == parse_lints(crate::syntax::diagnostics_view(syntax@).take(i as int)),
            decreases syntax.len() - i,
        {
            let d = &syntax[i];
            let ghost before = lints_view(out@);
            out.push(LintDiagnostic {
                line: d.line,
                column: d.column,
                rule: "parse".to_string(),
                severity: Severity::Error,
                message: d.message.clone(),
            });
            assert(lints_view(out@) =~= before.push((d.line as nat, d.column as nat, "parse"@, Severity::Error, d.message@)));
            assert(crate::syntax::diagnostics_view(syntax@).take(i + 1) =~= crate::syntax::diagnostics_view(syntax@).take(i as int).push(d@));
            assert(lints_view(out@) =~= parse_lints(crate::syntax::diagnostics_view(syntax@).take(i + 1)));
            i += 1;
        }
        assert(crate::syntax::diagnostics_view(syntax@).take(i as int) =~= crate::syntax::diagnostics_view(syntax@));
        return Ok(out);
    }
    let mut out = lint_tree(&tree, source);
    let formatted_text = format_proto(source, lint_options.format_options)?;
    if !str_eq(formatted_text.as_str(), source) {
        let o = lint_options.format_options;
        let message = if o.sort_imports || o.sort_fields || o.sort_declarations {
            "file is not in canonical pbkit fmt layout/order"
        } else {
            "file is not in canonical pbkit fmt layout"
        };
        push_lint(&mut out, 1, 1, "format", Severity::Warning, message);
    } else {
        assert(lints_view(out@) =~= lints_view(out@) + seq![]);
    }
    Ok(out)
}

/// `error` or `warning`.
pub open spec fn severity_text(s: Severity) -> Seq<char> {
    match s {
        Severity::Error => "error"@,
        Severity::Warning => "warning"@,
    }
}

impl LintDiagnostic {
    /// The finding as a report line: `file:line:column: severity[rule] message`.
    pub fn report_line(&self, file: &str) -> (r: String)
        ensures
            r@ == file@ + ":"@ + crate::text::decimal(self.line as nat) + ":"@ + crate::text::decimal(
                self.column as nat,
            ) + ": "@ + severity_text(self.severity) + "["@ + self.rule@ + "] "@ + self.message@,
    {
        let mut out = chars_of(file);
        crate::text::push_str(&mut out, ":");
        crate::text::push_decimal(&mut out, self.line as u64);
        crate::text::push_str(&mut out, ":");
        crate::text::push_decimal(&mut out, self.column as u64);
        crate::text::push_str(&mut out, ": ");
        match self.severity {
            Severity::Error => crate::text::push_str(&mut out, "error"),
            Severity::Warning => crate::text::push_str(&mut out, "warning"),
        }
        crate::text::push_str(&mut out, "[");
        crate::text::push_str(&mut out, self.rule.as_str());
        crate::text::push_str(&mut out, "] ");
        crate::text::push_str(&mut out, self.message.as_str());
        crate::text::string_of(out.as_slice())
    }
}

} // verus!

//! The concrete syntax tree of a `.proto` file, as the tree-sitter protobuf
//! grammar produces it, and the syntax errors it records.
use vstd::prelude::*;

use crate::text::{chars_of, push_decimal, push_str, string_of};

verus! {

#[verifier::external_type_specification]
#[verifier::external_body]
pub struct ExSyntaxNode<'tree>(tree_sitter::Node<'tree>);

/// One node of a concrete syntax tree: its grammar kind, its source text, the
/// flags the parser sets, where it starts (zero-based row and byte column), and
/// all its children (named and anonymous) in source order.
#[derive(Debug)]
pub struct CstNode {
    pub kind: String,
    pub text: String,
    pub named: bool,
    pub is_error: bool,
    pub is_missing: bool,
    pub has_error: bool,
    pub row: usize,
    pub column: usize,
    pub children: Vec<CstNode>,
}

/// The meaning of a [`CstNode`].
pub struct Cst {
    pub kind: Seq<char>,
    pub text: Seq<char>,
    pub named: bool,
    pub error: bool,
    pub missing: bool,
    pub has_error: bool,
    pub row: nat,
    pub column: nat,
    pub children: Seq<Cst>,
}

pub open spec fn cst_of_node(n: CstNode) -> Cst
    decreases n, 1nat,
{
    Cst {
        kind: n.kind@,
        text: n.text@,
        named: n.named,
        error: n.is_error,
        missing: n.is_missing,
        has_error: n.has_error,
        row: n.row as nat,
        column: n.column as nat,
        children: cst_list(n.children@),
    }
}

pub open spec fn cst_list(ns: Seq<CstNode>) -> Seq<Cst>
    decreases ns, 0nat,
{
    if ns.len() == 0 {
        seq![]
    } else {
        cst_list(ns.drop_last()).push(cst_of_node(ns.last()))
    }
}

impl View for CstNode {
    type V = Cst;

    open spec fn view(&self) -> Cst {
        cst_of_node(*self)
    }
}

pub proof fn lemma_cst_list(ns: Seq<CstNode>)
    ensures
        cst_list(ns).len() == ns.len(),
        forall|i: int| 0 <= i < ns.len() ==> #[trigger] cst_list(ns)[i] == ns[i]@,
    decreases ns.len(),
{
    if ns.len() > 0 {
        lemma_cst_list(ns.drop_last());
        assert forall|i: int| 0 <= i < ns.len() implies #[trigger] cst_list(ns)[i] == ns[i]@ by {
            if i < ns.len() - 1 {
                assert(ns.drop_last()[i] == ns[i]);
            }
        }
    }
}

/// The children of a node, each by its meaning.
pub proof fn lemma_children(n: &CstNode)
    ensures
        n@.children.len() == n.children@.len(),
        forall|i: int| 0 <= i < n.children@.len() ==> #[trigger] n@.children[i] == n.children@[i]@,
{
    lemma_cst_list(n.children@);
}

/// Rows and columns can be counted one further.
pub open spec fn positions_fit(c: Cst) -> bool
    decreases c, 1nat,
{
    &&& c.row < usize::MAX
    &&& c.column < usize::MAX
    &&& positions_fit_all(c.children)
}

pub open spec fn positions_fit_all(cs: Seq<Cst>) -> bool
    decreases cs, 0nat,
{
    cs.len() > 0 ==> positions_fit_all(cs.drop_last()) && positions_fit(cs.last())
}

pub proof fn lemma_positions_fit_all(cs: Seq<Cst>, i: int)
    requires
        positions_fit_all(cs),
        0 <= i < cs.len(),
    ensures
        positions_fit(cs[i]),
    decreases cs.len(),
{
    if i < cs.len() - 1 {
        assert(cs.drop_last()[i] == cs[i]);
        lemma_positions_fit_all(cs.drop_last(), i);
    }
}

/// Number of nodes on the longest path down from `c`.
pub open spec fn height(c: Cst) -> nat
    decreases c, 1nat,
{
    1 + max_height(c.children)
}

pub open spec fn max_height(cs: Seq<Cst>) -> nat
    decreases cs, 0nat,
{
    if cs.len() == 0 {
        0
    } else {
        let a = max_height(cs.drop_last());
        let b = height(cs.last());
        if a < b {
            b
        } else {
            a
        }
    }
}

pub proof fn lemma_max_height(cs: Seq<Cst>, i: int)
    requires
        0 <= i < cs.len(),
    ensures
        height(cs[i]) <= max_height(cs),
    decreases cs.len(),
{
    if i < cs.len() - 1 {
        assert(cs.drop_last()[i] == cs[i]);
        lemma_max_height(cs.drop_last(), i);
    }
}

/// Children are lower than their parent.
pub proof fn lemma_child_height(c: Cst, i: int)
    requires
        0 <= i < c.children.len(),
    ensures
        height(c.children[i]) < height(c),
{
    lemma_max_height(c.children, i);
}

/// What `has_error` shows of a node and the nodes below it: a missing node, an
/// error node with children, and a node with a child that has an error all have
/// an error.
pub open spec fn errors_flagged(c: Cst) -> bool
    decreases c, 1nat,
{
    &&& c.missing ==> c.has_error
    &&& c.error && c.children.len() > 0 ==> c.has_error
    &&& (exists|i: int| 0 <= i < c.children.len() && (#[trigger] c.children[i]).has_error)
        ==> c.has_error
    &&& errors_flagged_all(c.children)
}

pub open spec fn errors_flagged_all(cs: Seq<Cst>) -> bool
    decreases cs, 0nat,
{
    cs.len() == 0 || (errors_flagged_all(cs.drop_last()) && errors_flagged(cs.last()))
}

/// What the tree-sitter protobuf grammar makes of `source` (`None` where the
/// parser produces no tree).
pub uninterp spec fn proto_syntax_tree(source: Seq<char>) -> Option<Cst>;

/// Converts a tree-sitter node and everything below it, one node for one node:
/// `Node::kind`, `Node::utf8_text` (empty where the text is not UTF-8),
/// `Node::is_named`, `Node::is_error`, `Node::is_missing`, `Node::has_error`,
/// `Node::start_position` and `Node::children`.
#[verifier::external_body]
fn cst_of(node: tree_sitter::Node<'_>, source: &str) -> CstNode {
    let mut cursor = node.walk();
    let children = node.children(&mut cursor).map(|child| cst_of(child, source)).collect();
    let start = node.start_position();
    CstNode {
        kind: node.kind().to_owned(),
        text: node.utf8_text(source.as_bytes()).unwrap_or("").to_owned(),
        named: node.is_named(),
        is_error: node.is_error(),
        is_missing: node.is_missing(),
        has_error: node.has_error(),
        row: start.row,
        column: start.column,
        children,
    }
}

/// Parses `source` with `tree_sitter::Parser` set to `tree_sitter_proto::LANGUAGE`
/// and converts the tree. The contract claims that the tree depends on the text
/// alone, that its rows and columns stay below `usize::MAX` (they count lines and
/// bytes of the text), that it is less than `usize::MAX` nodes high (each node
/// takes memory), and what `Node::has_error` documents (an error or missing node
/// below a node gives it an error: see [`errors_flagged`]; the error cost that
/// tree-sitter sums up the tree is positive for missing nodes and for error nodes
/// with children). It says nothing of the tree's shape, nor of `has_error` on an
/// error node without children.
#[verifier::external_body]
pub fn parse_proto(source: &str) -> (tree: Option<CstNode>)
    ensures
        match tree {
            Some(t) => proto_syntax_tree(source@) == Some(t@) && positions_fit(t@) && height(t@)
                < usize::MAX && errors_flagged(t@),
            None => proto_syntax_tree(source@) is None,
        },
{
    let mut parser = tree_sitter::Parser::new();
    parser.set_language(&tree_sitter_proto::LANGUAGE.into()).ok()?;
    let tree = parser.parse(source, None)?;
    Some(cst_of(tree.root_node(), source))
}

// ---------------------------------------------------------------------------
// Syntax diagnostics
// ---------------------------------------------------------------------------
/// A syntax error: one-based line and column, and what went wrong.
#[derive(Debug, Clone, PartialEq, Eq)]
pub struct SyntaxDiagnostic {
    pub line: usize,
    pub column: usize,
    pub message: String,
}

/// A diagnostic's meaning: line, column, message.
pub type Diagnostic = (nat, nat, Seq<char>);

impl View for SyntaxDiagnostic {
    type V = Diagnostic;

    open spec fn view(&self) -> Diagnostic {
        (self.line as nat, self.column as nat, self.message@)
    }
}

pub open spec fn diagnostics_view(ds: Seq<SyntaxDiagnostic>) -> Seq<Diagnostic> {
    ds.map_values(|d: SyntaxDiagnostic| d@)
}

/// The diagnostic a node raises by itself: an error node is a parse error, a
/// missing node is reported by its kind.
pub open spec fn own_diagnostic(c: Cst) -> Seq<Diagnostic> {
    if c.error || c.missing {
        seq![
            (
                c.row + 1,
                c.column + 1,
                if c.missing {
                    "missing "@ + c.kind
                } else {
                    "parse error"@
                },
            ),
        ]
    } else {
        seq![]
    }
}

/// Syntax errors under `c` in source order, descending only into nodes that
/// contain an error.
pub open spec fn error_diagnostics(c: Cst) -> Seq<Diagnostic>
    decreases c, 1nat,
{
    own_diagnostic(c) + if c.has_error {
        error_diagnostics_all(c.children)
    } else {
        seq![]
    }
}

pub open spec fn error_diagnostics_all(cs: Seq<Cst>) -> Seq<Diagnostic>
    decreases cs, 0nat,
{
    if cs.len() == 0 {
        seq![]
    } else {
        error_diagnostics_all(cs.drop_last()) + error_diagnostics(cs.last())
    }
}

fn collect_error_nodes(node: &CstNode, diagnostics: &mut Vec<SyntaxDiagnostic>)
    requires
        positions_fit(node@),
    ensures
        diagnostics_view(final(diagnostics)@) == diagnostics_view(old(diagnostics)@)
            + error_diagnostics(node@),
    decreases node,
{
    let ghost before = diagnostics_view(diagnostics@);
    if node.is_error || node.is_missing {
        let message = if node.is_missing {
            let mut m: Vec<char> = chars_of("missing ");
            push_str(&mut m, node.kind.as_str());
            string_of(m.as_slice())
        } else {
            "parse error".to_string()
        };
        diagnostics.push(SyntaxDiagnostic { line: node.row + 1, column: node.column + 1, message });
    }
    assert(diagnostics_view(diagnostics@) =~= before + own_diagnostic(node@));
    if !node.has_error {
        assert(diagnostics_view(diagnostics@) =~= before + error_diagnostics(node@));
        return;
    }
    let ghost mid = diagnostics_view(diagnostics@);
    proof {
        lemma_children(node);
    }
    let mut i: usize = 0;
    while i < node.children.len()
        invariant
            i <= node.children.len(),
            node@.children.len() == node.children@.len(),
            forall|k: int| 0 <= k < node.children@.len() ==> #[trigger] node@.children[k] == node.children@[k]@,
            positions_fit(node@),
            diagnostics_view(diagnostics@) == mid + error_diagnostics_all(node@.children.take(i as int)),
        decreases node.children.len() - i,
    {
        assert(node@.children.take(i + 1).drop_last() =~= node@.children.take(i as int));
        proof {
            lemma_positions_fit_all(node@.children, i as int);
        }
        collect_error_nodes(&node.children[i], diagnostics);
        assert(diagnostics_view(diagnostics@) =~= mid + error_diagnostics_all(node@.children.take(i + 1)));
        i += 1;
    }
    assert(node@.children.take(i as int) =~= node@.children);
}

/// The syntax errors recorded in a parsed tree (see [`error_diagnostics`]).
pub fn tree_diagnostics(tree: &CstNode) -> (r: Vec<SyntaxDiagnostic>)
    requires
        positions_fit(tree@),
    ensures
        diagnostics_view(r@) == error_diagnostics(tree@),
{
    let mut diagnostics: Vec<SyntaxDiagnostic> = Vec::new();
    collect_error_nodes(tree, &mut diagnostics);
    assert(diagnostics_view(diagnostics@) =~= seq![] + error_diagnostics(tree@));
    diagnostics
}

/// Why a text could not be checked or formatted.
#[derive(Debug, Clone, PartialEq, Eq)]
pub enum SyntaxError {
    /// The parser produced no tree.
    ParserFailed,
    /// The text has a syntax error; the first one found.
    Invalid(SyntaxDiagnostic),
}

/// The syntax errors of `source`, in source order (see [`error_diagnostics`]).
pub fn syntax_diagnostics(source: &str) -> (r: Result<Vec<SyntaxDiagnostic>, SyntaxError>)
    ensures
        match proto_syntax_tree(source@) {
            None => r == Err::<Vec<SyntaxDiagnostic>, SyntaxError>(SyntaxError::ParserFailed),
            Some(t) => r matches Ok(ds) && diagnostics_view(ds@) == error_diagnostics(t),
        },
{
    match parse_proto(source) {
        None => Err(SyntaxError::ParserFailed),
        Some(tree) => Ok(tree_diagnostics(&tree)),
    }
}

/// Succeeds when `source` parses without syntax errors; otherwise reports the first.
pub fn ensure_syntax(source: &str) -> (r: Result<(), SyntaxError>)
    ensures
        match proto_syntax_tree(source@) {
            None => r == Err::<(), SyntaxError>(SyntaxError::ParserFailed),
            Some(t) => if error_diagnostics(t).len() == 0 {
                r is Ok
            } else {
                r matches Err(SyntaxError::Invalid(d)) && d@ == error_diagnostics(t)[0]
            },
        },
{
    let diagnostics = syntax_diagnostics(source)?;
    if diagnostics.len() == 0 {
        return Ok(());
    }
    let first = &diagnostics[0];
    assert(diagnostics_view(diagnostics@)[0] == first@);
    Err(SyntaxError::Invalid(SyntaxDiagnostic { line: first.line, column: first.column, message: first.message.clone() }))
}

impl SyntaxError {
    /// The error as a sentence.
    pub fn describe(&self) -> (r: String)
        ensures
            match self {
                SyntaxError::ParserFailed => r@ == "failed to parse protobuf source"@,
                SyntaxError::Invalid(d) => r@ == "protobuf syntax error at "@ + crate::text::decimal(
                    d.line as nat,
                ) + ":"@ + crate::text::decimal(d.column as nat) + ": "@ + d.message@,
            },
    {
        match self {
            SyntaxError::ParserFailed => "failed to parse protobuf source".to_string(),
            SyntaxError::Invalid(d) => {
                let mut out = chars_of("protobuf syntax error at ");
                push_decimal(&mut out, d.line as u64);
                push_str(&mut out, ":");
                push_decimal(&mut out, d.column as u64);
                push_str(&mut out, ": ");
                push_str(&mut out, d.message.as_str());
                string_of(out.as_slice())
            },
        }
    }
}

} // verus!

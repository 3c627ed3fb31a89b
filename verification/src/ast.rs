//! The abstract syntax tree the analyser consumes, and its mathematical model.
//!
//! Each executable node carries a [`Span`]; the ghost types [`NodeModel`] and
//! [`ExprModel`] mirror the tree with names abstracted to `Seq<char>`, so that
//! two structurally identical trees have equal models.

use vstd::prelude::*;

verus! {

/// A region of source text: byte offsets `lo..hi`, starting on line `line`.
#[derive(Clone, Copy, PartialEq, Eq, Structural, Debug)]
pub struct Span {
    pub lo: usize,
    pub hi: usize,
    pub line: usize,
}

impl Span {
    pub fn new(lo: usize, hi: usize, line: usize) -> (s: Span)
        ensures
            s == (Span { lo, hi, line }),
    {
        Span { lo, hi, line }
    }

    /// The same region widened to end at `hi`.
    pub fn extend(self, hi: usize) -> (s: Span)
        ensures
            s == (Span { hi, ..self }),
    {
        Span { hi, ..self }
    }
}

/// A binary operator. Only `Assign` is meaningful to the analysis.
#[derive(Clone, Copy, PartialEq, Eq, Structural, Debug)]
pub enum BinOp {
    Assign,
    Or,
    And,
    Eq,
    NotEq,
    Add,
    Sub,
    Mul,
    Div,
}

/// An ordered list of statements or expressions.
pub struct Block(pub Vec<AstNode>);

/// An expression or statement of the analysed language.
pub enum Ast {
    /// A string literal.
    String(String),
    /// A numeric literal, carried as the bit pattern of its value.
    /// The analysis never reads it.
    Number(u64),
    /// A bare name used as a value.
    ReferenceExpr(String),
    /// A function expression; its body opens a new lexical scope.
    FunctionExpr { name: String, params: Vec<String>, body: Block },
    /// A call of a named target.
    FunctionCall { name: String, args: Vec<AstNode> },
    /// A variable declaration, with an optional initializer.
    VariableDef { name: String, value: Option<AstNode> },
    Block(Block),
    BinOp { op: BinOp, lhs: AstNode, rhs: AstNode },
}

/// A spanned AST node.
pub struct AstNode {
    pub span: Span,
    pub expr: Box<Ast>,
}

impl AstNode {
    pub fn new(span: Span, expr: Ast) -> (n: Self)
        ensures
            n.span == span,
            *n.expr == expr,
    {
        Self { span, expr: Box::new(expr) }
    }
}

/// Ghost mirror of [`AstNode`]: the same tree with names as `Seq<char>`.
#[verifier::ext_equal]
pub struct NodeModel {
    pub span: Span,
    pub expr: ExprModel,
}

/// Ghost mirror of [`Ast`].
#[verifier::ext_equal]
pub enum ExprModel {
    StringLit(Seq<char>),
    Number(u64),
    Reference(Seq<char>),
    Function { name: Seq<char>, params: Seq<Seq<char>>, body: Seq<NodeModel> },
    Call { name: Seq<char>, args: Seq<NodeModel> },
    VariableDef { name: Seq<char>, value: Option<Box<NodeModel>> },
    Block(Seq<NodeModel>),
    BinOp { op: BinOp, lhs: Box<NodeModel>, rhs: Box<NodeModel> },
}

/// The views of a sequence of parameter names.
pub open spec fn strings_view(v: Seq<String>) -> Seq<Seq<char>> {
    Seq::new(v.len(), |i: int| v[i]@)
}

/// The model of one node.
pub open spec fn node_view(n: AstNode) -> NodeModel
    decreases n,
{
    NodeModel { span: n.span, expr: expr_view(*n.expr) }
}

/// The model of one expression.
pub open spec fn expr_view(a: Ast) -> ExprModel
    decreases a,
{
    match a {
        Ast::String(s) => ExprModel::StringLit(s@),
        Ast::Number(bits) => ExprModel::Number(bits),
        Ast::ReferenceExpr(name) => ExprModel::Reference(name@),
        Ast::FunctionExpr { name, params, body } => ExprModel::Function {
            name: name@,
            params: strings_view(params@),
            body: nodes_view(body.0@),
        },
        Ast::FunctionCall { name, args } => ExprModel::Call {
            name: name@,
            args: nodes_view(args@),
        },
        Ast::VariableDef { name, value } => ExprModel::VariableDef {
            name: name@,
            value: opt_node_view(value),
        },
        Ast::Block(b) => ExprModel::Block(nodes_view(b.0@)),
        Ast::BinOp { op, lhs, rhs } => ExprModel::BinOp {
            op,
            lhs: Box::new(node_view(lhs)),
            rhs: Box::new(node_view(rhs)),
        },
    }
}

/// The model of an optional initializer.
pub open spec fn opt_node_view(value: Option<AstNode>) -> Option<Box<NodeModel>>
    decreases value,
{
    match value {
        Some(v) => Some(Box::new(node_view(v))),
        None => None,
    }
}

/// The models of a sequence of nodes, in order.
pub open spec fn nodes_view(v: Seq<AstNode>) -> Seq<NodeModel>
    decreases v,
{
    if v.len() == 0 {
        Seq::empty()
    } else {
        seq![node_view(v[0])] + nodes_view(v.drop_first())
    }
}

/// `nodes_view` maps each element to its model, keeping length and order.
pub proof fn lemma_nodes_view(v: Seq<AstNode>)
    ensures
        nodes_view(v).len() == v.len(),
        forall|i: int| 0 <= i < v.len() ==> nodes_view(v)[i] == node_view(#[trigger] v[i]),
    decreases v.len(),
{
    if v.len() > 0 {
        lemma_nodes_view(v.drop_first());
        assert forall|i: int| 0 <= i < v.len() implies nodes_view(v)[i] == node_view(
            #[trigger] v[i],
        ) by {
            if i > 0 {
                assert(v.drop_first()[i - 1] == v[i]);
            }
        }
    }
}

} // verus!

use vstd::prelude::*;

use crate::number::Number;
use crate::token::{literal_view, LiteralView, Token, TokenType};

verus! {

/// A literal in an expression.
#[derive(Debug)]
pub enum LiteralNode {
    String(String),
    Number(Number),
    True,
    False,
    Nil,
}

/// An expression node. Each node owns its children, so the tree is finite
/// and has no sharing.
#[derive(Debug)]
pub enum ExprNode {
    Variable(Token),
    Assign(AssignNode),
    Literal(LiteralNode),
    Unary(UnaryNode),
    Binary(BinaryNode),
    Grouping(GroupingNode),
    Logical(LogicalNode),
}

#[derive(Debug)]
pub struct LogicalNode {
    pub left: Box<ExprNode>,
    pub operator: Token,
    pub right: Box<ExprNode>,
}

#[derive(Debug)]
pub struct AssignNode {
    pub name: Token,
    pub value: Box<ExprNode>,
}

#[derive(Debug)]
pub struct UnaryNode {
    pub operator: Token,
    pub right: Box<ExprNode>,
}

#[derive(Debug)]
pub struct BinaryNode {
    pub left: Box<ExprNode>,
    pub operator: Token,
    pub right: Box<ExprNode>,
}

#[derive(Debug)]
pub struct GroupingNode {
    pub inner: Box<ExprNode>,
}

/// The unary operators.
#[derive(Clone, Copy, Debug, PartialEq, Eq, Structural)]
pub enum UnaryOperators {
    Minus,
    Bang,
}

/// The binary operators.
#[derive(Clone, Copy, Debug, PartialEq, Eq, Structural)]
pub enum BinaryOperators {
    EqualEqual,
    BangEqual,
    Less,
    LessEqual,
    Greater,
    GreaterEqual,
    Plus,
    Minus,
    Star,
    Slash,
}

pub open spec fn unary_operator_of(t: TokenType) -> Option<UnaryOperators> {
    match t {
        TokenType::Minus => Some(UnaryOperators::Minus),
        TokenType::Bang => Some(UnaryOperators::Bang),
        _ => None,
    }
}

pub open spec fn binary_operator_of(t: TokenType) -> Option<BinaryOperators> {
    match t {
        TokenType::EqualEqual => Some(BinaryOperators::EqualEqual),
        TokenType::BangEqual => Some(BinaryOperators::BangEqual),
        TokenType::Less => Some(BinaryOperators::Less),
        TokenType::LessEqual => Some(BinaryOperators::LessEqual),
        TokenType::Greater => Some(BinaryOperators::Greater),
        TokenType::GreaterEqual => Some(BinaryOperators::GreaterEqual),
        TokenType::Plus => Some(BinaryOperators::Plus),
        TokenType::Minus => Some(BinaryOperators::Minus),
        TokenType::Star => Some(BinaryOperators::Star),
        TokenType::Slash => Some(BinaryOperators::Slash),
        _ => None,
    }
}

impl UnaryOperators {
    /// The unary operator a token of kind `t` stands for.
    pub fn from_token_type(t: TokenType) -> (r: Option<UnaryOperators>)
        ensures
            r == unary_operator_of(t),
    {
        match t {
            TokenType::Minus => Some(UnaryOperators::Minus),
            TokenType::Bang => Some(UnaryOperators::Bang),
            _ => None,
        }
    }
}

impl BinaryOperators {
    /// The binary operator a token of kind `t` stands for.
    pub fn from_token_type(t: TokenType) -> (r: Option<BinaryOperators>)
        ensures
            r == binary_operator_of(t),
    {
        match t {
            TokenType::EqualEqual => Some(BinaryOperators::EqualEqual),
            TokenType::BangEqual => Some(BinaryOperators::BangEqual),
            TokenType::Less => Some(BinaryOperators::Less),
            TokenType::LessEqual => Some(BinaryOperators::LessEqual),
            TokenType::Greater => Some(BinaryOperators::Greater),
            TokenType::GreaterEqual => Some(BinaryOperators::GreaterEqual),
            TokenType::Plus => Some(BinaryOperators::Plus),
            TokenType::Minus => Some(BinaryOperators::Minus),
            TokenType::Star => Some(BinaryOperators::Star),
            TokenType::Slash => Some(BinaryOperators::Slash),
            _ => None,
        }
    }
}

/// How tightly a binary operator binds: equality 4, comparison 5, terms 6,
/// factors 7.
pub open spec fn binary_level(o: BinaryOperators) -> nat {
    match o {
        BinaryOperators::EqualEqual | BinaryOperators::BangEqual => 4,
        BinaryOperators::Less | BinaryOperators::LessEqual | BinaryOperators::Greater
        | BinaryOperators::GreaterEqual => 5,
        BinaryOperators::Plus | BinaryOperators::Minus => 6,
        BinaryOperators::Star | BinaryOperators::Slash => 7,
    }
}

/// How tightly the top of an expression binds, from assignment (1),
/// `or` (2) and `and` (3) through the binary operators to unary
/// operators (8) and primaries (9).
pub open spec fn expr_level(e: ExprNode) -> nat {
    match e {
        ExprNode::Assign(_) => 1,
        ExprNode::Logical(l) => if l.operator.t_type == TokenType::Or {
            2
        } else {
            3
        },
        ExprNode::Binary(b) => match binary_operator_of(b.operator.t_type) {
            Some(o) => binary_level(o),
            None => 0,
        },
        ExprNode::Unary(_) => 8,
        _ => 9,
    }
}

/// An expression whose operators are all of the right kind for their node,
/// whose names are identifiers, and whose shape follows precedence and
/// associativity: the operands of a binary or logical operator bind at
/// least as tightly as it on the left and more tightly on the right, and
/// the operand of a unary operator is unary or primary.
pub open spec fn expr_wf(e: ExprNode) -> bool
    decreases e,
{
    match e {
        ExprNode::Variable(name) => name.t_type == TokenType::Identifier,
        ExprNode::Assign(a) => a.name.t_type == TokenType::Identifier && expr_wf(*a.value),
        ExprNode::Literal(_) => true,
        ExprNode::Unary(u) => unary_operator_of(u.operator.t_type) is Some && expr_level(*u.right)
            >= 8 && expr_wf(*u.right),
        ExprNode::Binary(b) => binary_operator_of(b.operator.t_type) is Some && expr_level(*b.left)
            >= expr_level(e) && expr_level(*b.right) > expr_level(e) && expr_wf(*b.left)
            && expr_wf(*b.right),
        ExprNode::Grouping(g) => expr_wf(*g.inner),
        ExprNode::Logical(l) => (l.operator.t_type == TokenType::And || l.operator.t_type
            == TokenType::Or) && expr_level(*l.left) >= expr_level(e) && expr_level(*l.right)
            > expr_level(e) && expr_wf(*l.left) && expr_wf(*l.right),
    }
}

/// What of a token the syntax tree keeps: its kind, the value of a number
/// or string literal, and the name of an identifier.
pub struct TokSig {
    pub kind: TokenType,
    pub literal: LiteralView,
    pub name: Seq<char>,
}

/// The signature of a token of kind `k` that carries no value or name.
pub open spec fn kind_sig(k: TokenType) -> TokSig {
    TokSig { kind: k, literal: LiteralView::Nothing, name: Seq::empty() }
}

/// The signature of a token.
pub open spec fn sig(t: Token) -> TokSig {
    TokSig {
        kind: t.t_type,
        literal: if t.t_type == TokenType::Number || t.t_type == TokenType::String {
            literal_view(t.literal)
        } else {
            LiteralView::Nothing
        },
        name: if t.t_type == TokenType::Identifier {
            t.lexeme@
        } else {
            Seq::empty()
        },
    }
}

/// The signatures of the tokens an expression is written with, in order:
/// each literal with its value, each variable with its name.
pub open spec fn expr_kinds(e: ExprNode) -> Seq<TokSig>
    decreases e,
{
    match e {
        ExprNode::Variable(t) => seq![sig(t)],
        ExprNode::Assign(a) => seq![sig(a.name), kind_sig(TokenType::Equal)] + expr_kinds(*a.value),
        ExprNode::Literal(l) => seq![
            match l {
                LiteralNode::String(s) => TokSig {
                    kind: TokenType::String,
                    literal: LiteralView::Str(s@),
                    name: Seq::empty(),
                },
                LiteralNode::Number(n) => TokSig {
                    kind: TokenType::Number,
                    literal: LiteralView::Num(n@),
                    name: Seq::empty(),
                },
                LiteralNode::True => kind_sig(TokenType::True),
                LiteralNode::False => kind_sig(TokenType::False),
                LiteralNode::Nil => kind_sig(TokenType::Nil),
            },
        ],
        ExprNode::Unary(u) => seq![sig(u.operator)] + expr_kinds(*u.right),
        ExprNode::Binary(b) => expr_kinds(*b.left) + seq![sig(b.operator)] + expr_kinds(*b.right),
        ExprNode::Grouping(g) => seq![kind_sig(TokenType::LeftParen)] + expr_kinds(*g.inner) + seq![
            kind_sig(TokenType::RightParen),
        ],
        ExprNode::Logical(l) => expr_kinds(*l.left) + seq![sig(l.operator)] + expr_kinds(*l.right),
    }
}

impl ExprNode {
    pub fn new_assign(name: Token, value: ExprNode) -> (r: ExprNode)
        ensures
            r matches ExprNode::Assign(a) && a.name == name && *a.value == value,
            r == ExprNode::Assign(AssignNode { name, value: Box::new(value) }),
    {
        ExprNode::Assign(AssignNode { name, value: Box::new(value) })
    }

    pub fn new_unary(operator: Token, right: ExprNode) -> (r: ExprNode)
        ensures
            r matches ExprNode::Unary(u) && u.operator == operator && *u.right == right,
            r == ExprNode::Unary(UnaryNode { operator, right: Box::new(right) }),
    {
        ExprNode::Unary(UnaryNode { operator, right: Box::new(right) })
    }

    pub fn new_binary(left: ExprNode, operator: Token, right: ExprNode) -> (r: ExprNode)
        ensures
            r matches ExprNode::Binary(b) && *b.left == left && b.operator == operator && *b.right
                == right,
            r == ExprNode::Binary(BinaryNode { left: Box::new(left), operator, right: Box::new(right) }),
    {
        ExprNode::Binary(BinaryNode { left: Box::new(left), operator, right: Box::new(right) })
    }

    pub fn new_grouping(inner: ExprNode) -> (r: ExprNode)
        ensures
            r matches ExprNode::Grouping(g) && *g.inner == inner,
            r == ExprNode::Grouping(GroupingNode { inner: Box::new(inner) }),
    {
        ExprNode::Grouping(GroupingNode { inner: Box::new(inner) })
    }

    pub fn new_variable(token: Token) -> (r: ExprNode)
        ensures
            r == ExprNode::Variable(token),
    {
        ExprNode::Variable(token)
    }

    pub fn new_logical(left: ExprNode, operator: Token, right: ExprNode) -> (r: ExprNode)
        ensures
            r matches ExprNode::Logical(l) && *l.left == left && l.operator == operator && *l.right
                == right,
            r == ExprNode::Logical(LogicalNode { left: Box::new(left), operator, right: Box::new(right) }),
    {
        ExprNode::Logical(LogicalNode { left: Box::new(left), operator, right: Box::new(right) })
    }
}

/// A statement node.
#[derive(Debug)]
pub enum StmtNode {
    Print(ExprNode),
    Expr(ExprNode),
    VarDec(VarNode),
    Block(BlockNode),
    IfStmt(IfNode),
    While(WhileNode),
}

#[derive(Debug)]
pub struct IfNode {
    pub condition: ExprNode,
    pub then_branch: Box<StmtNode>,
    pub else_branch: Option<Box<StmtNode>>,
}

#[derive(Debug)]
pub struct BlockNode(pub Vec<StmtNode>);

#[derive(Debug)]
pub struct VarNode {
    pub name: Token,
    pub value_expr: ExprNode,
}

/// A loop: the body runs while the condition is truthy.
#[derive(Debug)]
pub struct WhileNode {
    pub condition: ExprNode,
    pub body: Box<StmtNode>,
}

/// A statement all of whose expressions are well formed.
pub open spec fn stmt_wf(s: StmtNode) -> bool
    decreases s,
{
    match s {
        StmtNode::Print(e) => expr_wf(e),
        StmtNode::Expr(e) => expr_wf(e),
        StmtNode::VarDec(v) => v.name.t_type == TokenType::Identifier && expr_wf(v.value_expr),
        StmtNode::Block(b) => forall|i: int| 0 <= i < b.0@.len() ==> stmt_wf(#[trigger] b.0@[i]),
        StmtNode::IfStmt(n) => expr_wf(n.condition) && stmt_wf(*n.then_branch) && match n.else_branch {
            Some(e) => stmt_wf(*e),
            None => true,
        },
        StmtNode::While(w) => expr_wf(w.condition) && stmt_wf(*w.body),
    }
}

impl IfNode {
    pub fn new(condition: ExprNode, then_branch: StmtNode, else_branch: Option<StmtNode>) -> (r: IfNode)
        ensures
            r.condition == condition,
            *r.then_branch == then_branch,
            match else_branch {
                Some(e) => r.else_branch matches Some(b) && *b == e,
                None => r.else_branch is None,
            },
    {
        let else_branch = match else_branch {
            Some(e) => Some(Box::new(e)),
            None => None,
        };
        IfNode { condition, then_branch: Box::new(then_branch), else_branch }
    }
}

impl VarNode {
    pub fn new(name: Token, value_expr: ExprNode) -> (r: VarNode)
        ensures
            r == (VarNode { name, value_expr }),
    {
        VarNode { name, value_expr }
    }
}

impl StmtNode {
    pub fn new_while(condition: ExprNode, body: StmtNode) -> (r: StmtNode)
        ensures
            r matches StmtNode::While(w) && w.condition == condition && *w.body == body,
            r == StmtNode::While(WhileNode { condition, body: Box::new(body) }),
    {
        StmtNode::While(WhileNode { condition, body: Box::new(body) })
    }
}

} // verus!

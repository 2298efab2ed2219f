//! The syntax tree that the parser builds and the evaluator runs.
use vstd::prelude::*;

verus! {

broadcast use vstd::std_specs::vec::group_vec_axioms, vstd::seq::group_seq_axioms;

#[derive(Debug, Clone, Copy, PartialEq, Eq, Structural)]
pub enum Boolean {
    True,
    False,
}

#[derive(Debug, Clone, Copy, PartialEq, Eq, Structural)]
pub enum BinaryExprOperator {
    Plus,
    Minus,
    Multiply,
    Divide,
    Modulus,
}

#[derive(Debug, Clone, Copy, PartialEq, Eq, Structural)]
pub enum ComparisonOperator {
    LessThan,
    GreaterThan,
    EqualTo,
    NotEqualTo,
    LessThanOrEqualTo,
    GreaterThanOrEqualTo,
    And,
    Or,
}

#[derive(Debug, Clone, Copy, PartialEq, Eq, Structural)]
pub enum UnaryOperation {
    Minus,
}

/// A parameter of a function declaration.
#[derive(Debug, Clone)]
pub struct FunctionParameter {
    pub name: String,
}

/// An argument of a function call.
#[derive(Debug)]
pub struct FunctionArgument {
    pub value: Expr,
}

#[derive(Debug)]
pub enum Expr {
    /// A number literal: digits with at most one dot, underscores left out.
    /// Its value is the 64-bit float nearest to that decimal.
    NumberLiteral(String),
    StringLiteral(String),
    Identifier(String),
    Boolean(Boolean),
    NilLiteral,
    GroupExpression(Box<Expr>),
    UnaryExpression(UnaryOperation, Box<Expr>),
    BinaryExpression { left_side: Box<Expr>, right_side: Box<Expr>, operator: BinaryExprOperator },
    ComparisonExpression { lhs: Box<Expr>, rhs: Box<Expr>, operator: ComparisonOperator },
    FunctionCall { func_name: String, arguments: Vec<FunctionArgument> },
}

#[derive(Debug)]
pub enum Stmt {
    EmptyStatement,
    BlockStatement(Vec<Stmt>),
    ExpressionStatement(Expr),
    LogStatement(Vec<Expr>),
    IfStatement { condition: Expr, body: Box<Stmt> },
    VariableDeclaration { name: String, value: Expr },
    VariableReassignment { name: String, value: Expr },
    ReturnStatement(Expr),
    ForLoop { condition: Expr, body: Box<Stmt> },
    FunctionDeclaration { name: String, parameters: Vec<FunctionParameter>, body: Box<Stmt> },
}

/// The mathematical value of an [`Expr`]. A function call keeps its name
/// only: nothing in this library reads its arguments.
pub enum ExprView {
    Number(Seq<char>),
    Str(Seq<char>),
    Identifier(Seq<char>),
    Boolean(Boolean),
    Nil,
    Group(Box<ExprView>),
    Unary(UnaryOperation, Box<ExprView>),
    Binary(Box<ExprView>, BinaryExprOperator, Box<ExprView>),
    Comparison(Box<ExprView>, ComparisonOperator, Box<ExprView>),
    Call(Seq<char>),
}

/// The mathematical value of a [`Stmt`].
pub enum StmtView {
    Empty,
    Block(Seq<StmtView>),
    Expression(ExprView),
    Log(Seq<ExprView>),
    If(ExprView, Box<StmtView>),
    Declaration(Seq<char>, ExprView),
    Reassignment(Seq<char>, ExprView),
    Return(ExprView),
    For(ExprView, Box<StmtView>),
    Function(Seq<char>, Seq<Seq<char>>, Box<StmtView>),
}

impl Expr {
    pub open spec fn model(&self) -> ExprView
        decreases self,
    {
        match self {
            Expr::NumberLiteral(s) => ExprView::Number(s@),
            Expr::StringLiteral(s) => ExprView::Str(s@),
            Expr::Identifier(s) => ExprView::Identifier(s@),
            Expr::Boolean(b) => ExprView::Boolean(*b),
            Expr::NilLiteral => ExprView::Nil,
            Expr::GroupExpression(e) => ExprView::Group(Box::new(e.model())),
            Expr::UnaryExpression(op, e) => ExprView::Unary(*op, Box::new(e.model())),
            Expr::BinaryExpression { left_side, right_side, operator } => ExprView::Binary(
                Box::new(left_side.model()),
                *operator,
                Box::new(right_side.model()),
            ),
            Expr::ComparisonExpression { lhs, rhs, operator } => ExprView::Comparison(
                Box::new(lhs.model()),
                *operator,
                Box::new(rhs.model()),
            ),
            Expr::FunctionCall { func_name, .. } => ExprView::Call(func_name@),
        }
    }
}

impl View for Expr {
    type V = ExprView;

    open spec fn view(&self) -> ExprView {
        self.model()
    }
}

/// The views of a sequence of expressions.
pub open spec fn exprs_view(s: Seq<Expr>) -> Seq<ExprView> {
    s.map_values(|e: Expr| e@)
}

/// The views of a sequence of statements.
pub open spec fn stmts_view(s: Seq<Stmt>) -> Seq<StmtView>
    decreases s,
{
    if s.len() == 0 {
        seq![]
    } else {
        stmts_view(s.drop_last()).push(s.last().model())
    }
}

impl Stmt {
    pub open spec fn model(&self) -> StmtView
        decreases self,
    {
        match self {
            Stmt::EmptyStatement => StmtView::Empty,
            Stmt::BlockStatement(v) => StmtView::Block(stmts_view(v@)),
            Stmt::ExpressionStatement(e) => StmtView::Expression(e@),
            Stmt::LogStatement(v) => StmtView::Log(exprs_view(v@)),
            Stmt::IfStatement { condition, body } => StmtView::If(
                condition@,
                Box::new(body.model()),
            ),
            Stmt::VariableDeclaration { name, value } => StmtView::Declaration(name@, value@),
            Stmt::VariableReassignment { name, value } => StmtView::Reassignment(name@, value@),
            Stmt::ReturnStatement(e) => StmtView::Return(e@),
            Stmt::ForLoop { condition, body } => StmtView::For(condition@, Box::new(body.model())),
            Stmt::FunctionDeclaration { name, parameters, body } => StmtView::Function(
                name@,
                parameters@.map_values(|p: FunctionParameter| p.name@),
                Box::new(body.model()),
            ),
        }
    }
}

impl View for Stmt {
    type V = StmtView;

    open spec fn view(&self) -> StmtView {
        self.model()
    }
}

/// The views of a sequence of statements are taken one by one.
pub proof fn lemma_stmts_view(s: Seq<Stmt>)
    ensures
        stmts_view(s).len() == s.len(),
        forall|i: int| 0 <= i < s.len() ==> #[trigger] stmts_view(s)[i] == s[i]@,
    decreases s.len(),
{
    if s.len() > 0 {
        lemma_stmts_view(s.drop_last());
    }
}

/// Appending a statement appends its view.
pub proof fn lemma_stmts_view_push(s: Seq<Stmt>, t: Stmt)
    ensures
        stmts_view(s.push(t)) == stmts_view(s).push(t@),
{
    assert(s.push(t).drop_last() =~= s);
}

} // verus!

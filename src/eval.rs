//! The evaluator: runs statements, keeping one scope of variables and the
//! lines that the program prints.
//!
//! Numbers are 64-bit floats, held as their IEEE-754 bit patterns. The
//! library computes equality and negation of such patterns itself; turning a
//! literal into a float, float arithmetic and printing a float are done by the
//! caller. A run is therefore a function of the program and of the answers
//! that the caller has given so far: it either finishes, fails with a runtime
//! error, or stops at the next question, whose answer the caller appends
//! before running again. A run that is given more answers prints the same
//! lines up to where the shorter one stopped (`lemma_more_answers`).
use crate::ast::{
    lemma_stmts_view, stmts_view, BinaryExprOperator, Boolean, ComparisonOperator, Expr,
    ExprView, Stmt, StmtView,
};
use crate::text::push_char;
use vstd::prelude::*;
use vstd::string::*;

verus! {

broadcast use vstd::std_specs::vec::group_vec_axioms, vstd::seq::group_seq_axioms;

/// A value at run time.
#[derive(Debug, Clone)]
pub enum RuntimeType {
    /// A 64-bit float, as its IEEE-754 bit pattern.
    Number(u64),
    String(String),
    Boolean(Boolean),
    /// The absence of a value.
    Nothing,
}

pub enum ValueView {
    Number(u64),
    Str(Seq<char>),
    Boolean(Boolean),
    Nothing,
}

impl View for RuntimeType {
    type V = ValueView;

    open spec fn view(&self) -> ValueView {
        match self {
            RuntimeType::Number(b) => ValueView::Number(*b),
            RuntimeType::String(s) => ValueView::Str(s@),
            RuntimeType::Boolean(b) => ValueView::Boolean(*b),
            RuntimeType::Nothing => ValueView::Nothing,
        }
    }
}

/// A question that a run asks of its caller.
#[derive(Debug, Clone)]
pub enum Query {
    /// The float nearest to the decimal `text` (digits, at most one dot),
    /// answered by a number.
    Literal(String),
    /// `lhs operator rhs` in 64-bit float arithmetic, answered by a number.
    Arithmetic(BinaryExprOperator, u64, u64),
    /// The decimal text of the float, as Rust's `Display` writes it, answered
    /// by a text.
    Render(u64),
}

pub enum QueryView {
    Literal(Seq<char>),
    Arithmetic(BinaryExprOperator, u64, u64),
    Render(u64),
}

impl View for Query {
    type V = QueryView;

    open spec fn view(&self) -> QueryView {
        match self {
            Query::Literal(s) => QueryView::Literal(s@),
            Query::Arithmetic(op, a, b) => QueryView::Arithmetic(*op, *a, *b),
            Query::Render(b) => QueryView::Render(*b),
        }
    }
}

/// The caller's answer to a [`Query`].
#[derive(Debug, Clone)]
pub enum Answer {
    Number(u64),
    Text(String),
}

pub enum AnswerView {
    Number(u64),
    Text(Seq<char>),
}

impl View for Answer {
    type V = AnswerView;

    open spec fn view(&self) -> AnswerView {
        match self {
            Answer::Number(b) => AnswerView::Number(*b),
            Answer::Text(s) => AnswerView::Text(s@),
        }
    }
}

/// Why a run failed.
#[derive(Debug, Clone, PartialEq, Eq)]
pub enum RuntimeError {
    /// A variable was read before any declaration of it.
    UndefinedVariable(String),
    /// A variable was declared a second time.
    Redeclaration(String),
    /// A variable was assigned without having been declared.
    UndeclaredReassignment(String),
    /// The condition of an `if` is not a boolean.
    NonBooleanCondition,
    /// The body of an `if` is not a block.
    IfBodyNotBlock,
    /// Unary minus on something other than a number.
    UnaryOperandNotNumber,
    /// Arithmetic on something other than two numbers.
    BinaryOperandNotNumber,
    /// `and` or `or` on something other than two booleans.
    LogicalOperandNotBoolean,
    /// An ordering comparison; none is implemented.
    OrderingUnsupported(ComparisonOperator),
    /// A statement that the evaluator does not run (`return`, `for`, `fun`).
    UnsupportedStatement,
    /// An expression that the evaluator does not run (a function call).
    UnsupportedExpression,
    /// The caller answered a question with the wrong kind of answer.
    AnswerMismatch,
}

pub enum FaultView {
    UndefinedVariable(Seq<char>),
    Redeclaration(Seq<char>),
    UndeclaredReassignment(Seq<char>),
    NonBooleanCondition,
    IfBodyNotBlock,
    UnaryOperandNotNumber,
    BinaryOperandNotNumber,
    LogicalOperandNotBoolean,
    OrderingUnsupported(ComparisonOperator),
    UnsupportedStatement,
    UnsupportedExpression,
    AnswerMismatch,
}

impl View for RuntimeError {
    type V = FaultView;

    open spec fn view(&self) -> FaultView {
        match self {
            RuntimeError::UndefinedVariable(n) => FaultView::UndefinedVariable(n@),
            RuntimeError::Redeclaration(n) => FaultView::Redeclaration(n@),
            RuntimeError::UndeclaredReassignment(n) => FaultView::UndeclaredReassignment(n@),
            RuntimeError::NonBooleanCondition => FaultView::NonBooleanCondition,
            RuntimeError::IfBodyNotBlock => FaultView::IfBodyNotBlock,
            RuntimeError::UnaryOperandNotNumber => FaultView::UnaryOperandNotNumber,
            RuntimeError::BinaryOperandNotNumber => FaultView::BinaryOperandNotNumber,
            RuntimeError::LogicalOperandNotBoolean => FaultView::LogicalOperandNotBoolean,
            RuntimeError::OrderingUnsupported(op) => FaultView::OrderingUnsupported(*op),
            RuntimeError::UnsupportedStatement => FaultView::UnsupportedStatement,
            RuntimeError::UnsupportedExpression => FaultView::UnsupportedExpression,
            RuntimeError::AnswerMismatch => FaultView::AnswerMismatch,
        }
    }
}

/// Where a run stopped before the end of the program.
#[derive(Debug, Clone)]
pub enum Halt {
    Failed(RuntimeError),
    Asked(Query),
}

pub enum HaltView {
    Failed(FaultView),
    Asked(QueryView),
}

impl View for Halt {
    type V = HaltView;

    open spec fn view(&self) -> HaltView {
        match self {
            Halt::Failed(e) => HaltView::Failed(e@),
            Halt::Asked(q) => HaltView::Asked(q@),
        }
    }
}

/// A variable and its value.
#[derive(Debug, Clone)]
pub struct Binding {
    pub name: String,
    pub value: RuntimeType,
}

/// Variables as a sequence of names and values, oldest first.
pub type Env = Seq<(Seq<char>, ValueView)>;

pub open spec fn env_view(v: Seq<Binding>) -> Env {
    v.map_values(|b: Binding| (b.name@, b.value@))
}

pub open spec fn answers_view(v: Seq<Answer>) -> Seq<AnswerView> {
    v.map_values(|a: Answer| a@)
}

/// The first binding of `name` from index `i` on.
pub open spec fn lookup_from(env: Env, name: Seq<char>, i: int) -> Option<int>
    decreases env.len() - i,
{
    if i < 0 || i >= env.len() {
        None
    } else if env[i].0 == name {
        Some(i)
    } else {
        lookup_from(env, name, i + 1)
    }
}

/// The binding of `name`, if there is one.
pub open spec fn lookup(env: Env, name: Seq<char>) -> Option<int> {
    lookup_from(env, name, 0)
}

pub proof fn lemma_lookup_from(env: Env, name: Seq<char>, i: int)
    ensures
        lookup_from(env, name, i) matches Some(j) ==> 0 <= i <= j < env.len() && env[j].0 == name,
        0 <= i && lookup_from(env, name, i) is None ==> forall|j: int|
            i <= j < env.len() ==> #[trigger] env[j].0 != name,
    decreases env.len() - i,
{
    if 0 <= i < env.len() && env[i].0 != name {
        lemma_lookup_from(env, name, i + 1);
    }
}

/// The float with the opposite sign.
pub open spec fn negate(b: u64) -> u64 {
    b ^ 0x8000_0000_0000_0000u64
}

pub open spec fn is_nan(b: u64) -> bool {
    b & 0x7ff0_0000_0000_0000u64 == 0x7ff0_0000_0000_0000u64 && b & 0x000f_ffff_ffff_ffffu64
        != 0
}

pub open spec fn is_zero(b: u64) -> bool {
    b & 0x7fff_ffff_ffff_ffffu64 == 0
}

/// IEEE-754 equality: no NaN equals anything, and the two zeros are equal.
pub open spec fn float_eq(a: u64, b: u64) -> bool {
    !is_nan(a) && !is_nan(b) && (a == b || (is_zero(a) && is_zero(b)))
}

/// `==` on runtime values: same kind and equal content.
pub open spec fn values_equal(a: ValueView, b: ValueView) -> bool {
    match (a, b) {
        (ValueView::Number(x), ValueView::Number(y)) => float_eq(x, y),
        (ValueView::Str(x), ValueView::Str(y)) => x == y,
        (ValueView::Boolean(x), ValueView::Boolean(y)) => x == y,
        (ValueView::Nothing, ValueView::Nothing) => true,
        _ => false,
    }
}

pub open spec fn boolean_of(b: bool) -> Boolean {
    if b {
        Boolean::True
    } else {
        Boolean::False
    }
}

/// A comparison of two evaluated operands.
pub open spec fn compare(op: ComparisonOperator, a: ValueView, b: ValueView) -> Result<
    ValueView,
    FaultView,
> {
    match op {
        ComparisonOperator::And | ComparisonOperator::Or => match (a, b) {
            (ValueView::Boolean(x), ValueView::Boolean(y)) => Ok(
                ValueView::Boolean(
                    boolean_of(
                        if op == ComparisonOperator::And {
                            x == Boolean::True && y == Boolean::True
                        } else {
                            x == Boolean::True || y == Boolean::True
                        },
                    ),
                ),
            ),
            _ => Err(FaultView::LogicalOperandNotBoolean),
        },
        ComparisonOperator::EqualTo => Ok(ValueView::Boolean(boolean_of(values_equal(a, b)))),
        ComparisonOperator::NotEqualTo => Ok(ValueView::Boolean(boolean_of(!values_equal(a, b)))),
        _ => Err(FaultView::OrderingUnsupported(op)),
    }
}

/// The number that answers question `k`, asking `q` if there is no answer yet.
pub open spec fn answer_number(ans: Seq<AnswerView>, k: int, q: QueryView) -> Result<
    (u64, int),
    HaltView,
> {
    if 0 <= k < ans.len() {
        match ans[k] {
            AnswerView::Number(b) => Ok((b, k + 1)),
            AnswerView::Text(_) => Err(HaltView::Failed(FaultView::AnswerMismatch)),
        }
    } else {
        Err(HaltView::Asked(q))
    }
}

/// The text that answers question `k`, asking `q` if there is no answer yet.
pub open spec fn answer_text(ans: Seq<AnswerView>, k: int, q: QueryView) -> Result<
    (Seq<char>, int),
    HaltView,
> {
    if 0 <= k < ans.len() {
        match ans[k] {
            AnswerView::Text(t) => Ok((t, k + 1)),
            AnswerView::Number(_) => Err(HaltView::Failed(FaultView::AnswerMismatch)),
        }
    } else {
        Err(HaltView::Asked(q))
    }
}

/// The value of `e`, and the index of the next answer to use.
pub open spec fn eval_expr(e: ExprView, env: Env, ans: Seq<AnswerView>, k: int) -> Result<
    (ValueView, int),
    HaltView,
>
    decreases e,
{
    match e {
        ExprView::Number(t) => match answer_number(ans, k, QueryView::Literal(t)) {
            Ok((b, k1)) => Ok((ValueView::Number(b), k1)),
            Err(h) => Err(h),
        },
        ExprView::Str(s) => Ok((ValueView::Str(s), k)),
        ExprView::Identifier(n) => match lookup(env, n) {
            Some(i) => Ok((env[i].1, k)),
            None => Err(HaltView::Failed(FaultView::UndefinedVariable(n))),
        },
        ExprView::Boolean(b) => Ok((ValueView::Boolean(b), k)),
        ExprView::Nil => Ok((ValueView::Nothing, k)),
        ExprView::Group(inner) => eval_expr(*inner, env, ans, k),
        ExprView::Unary(_, inner) => match eval_expr(*inner, env, ans, k) {
            Ok((ValueView::Number(b), k1)) => Ok((ValueView::Number(negate(b)), k1)),
            Ok(_) => Err(HaltView::Failed(FaultView::UnaryOperandNotNumber)),
            Err(h) => Err(h),
        },
        ExprView::Binary(l, op, r) => match eval_expr(*l, env, ans, k) {
            Err(h) => Err(h),
            Ok((a, k1)) => match eval_expr(*r, env, ans, k1) {
                Err(h) => Err(h),
                Ok((b, k2)) => match (a, b) {
                    (ValueView::Number(x), ValueView::Number(y)) => match answer_number(
                        ans,
                        k2,
                        QueryView::Arithmetic(op, x, y),
                    ) {
                        Ok((z, k3)) => Ok((ValueView::Number(z), k3)),
                        Err(h) => Err(h),
                    },
                    _ => Err(HaltView::Failed(FaultView::BinaryOperandNotNumber)),
                },
            },
        },
        ExprView::Comparison(l, op, r) => match eval_expr(*l, env, ans, k) {
            Err(h) => Err(h),
            Ok((a, k1)) => match eval_expr(*r, env, ans, k1) {
                Err(h) => Err(h),
                Ok((b, k2)) => match compare(op, a, b) {
                    Ok(v) => Ok((v, k2)),
                    Err(f) => Err(HaltView::Failed(f)),
                },
            },
        },
        ExprView::Call(_) => Err(HaltView::Failed(FaultView::UnsupportedExpression)),
    }
}

/// The printed form of a value.
pub open spec fn render(v: ValueView, ans: Seq<AnswerView>, k: int) -> Result<
    (Seq<char>, int),
    HaltView,
> {
    match v {
        ValueView::Number(b) => answer_text(ans, k, QueryView::Render(b)),
        ValueView::Str(s) => Ok((s, k)),
        ValueView::Boolean(Boolean::True) => Ok(("true"@, k)),
        ValueView::Boolean(Boolean::False) => Ok(("false"@, k)),
        ValueView::Nothing => Ok(("None"@, k)),
    }
}

/// `parts` joined by single spaces.
pub open spec fn join(parts: Seq<Seq<char>>) -> Seq<char>
    decreases parts.len(),
{
    if parts.len() == 0 {
        seq![]
    } else if parts.len() == 1 {
        parts[0]
    } else {
        join(parts.drop_last()) + seq![' '] + parts.last()
    }
}

/// The printed forms of the arguments of `log`, each evaluated and then
/// printed in turn.
pub open spec fn eval_args(args: Seq<ExprView>, env: Env, ans: Seq<AnswerView>, k: int) -> Result<
    (Seq<Seq<char>>, int),
    HaltView,
>
    decreases args.len(),
{
    if args.len() == 0 {
        Ok((seq![], k))
    } else {
        match eval_expr(args[0], env, ans, k) {
            Err(h) => Err(h),
            Ok((v, k1)) => match render(v, ans, k1) {
                Err(h) => Err(h),
                Ok((t, k2)) => match eval_args(args.drop_first(), env, ans, k2) {
                    Err(h) => Err(h),
                    Ok((ts, k3)) => Ok((seq![t] + ts, k3)),
                },
            },
        }
    }
}

/// The state of a run: the variables, the lines printed, and the index of
/// the next answer to use.
pub struct State {
    pub env: Env,
    pub out: Seq<Seq<char>>,
    pub k: int,
}

/// The line that an expression statement prints for its value.
pub open spec fn diagnostic(text: Seq<char>) -> Seq<char> {
    "[expr_stmt] "@ + text
}

/// Runs statement `s`: the state after it, and where the run stopped if it
/// stopped in it (the state is then the one before it).
pub open spec fn exec_stmt(s: StmtView, st: State, ans: Seq<AnswerView>) -> (State, Option<HaltView>)
    decreases s,
{
    match s {
        StmtView::Empty => (st, None),
        StmtView::Block(ss) => exec_stmts(ss, st, ans),
        StmtView::Expression(e) => match eval_expr(e, st.env, ans, st.k) {
            Err(h) => (st, Some(h)),
            Ok((v, k1)) => match render(v, ans, k1) {
                Err(h) => (st, Some(h)),
                Ok((t, k2)) => (State { env: st.env, out: st.out.push(diagnostic(t)), k: k2 }, None),
            },
        },
        StmtView::Log(args) => match eval_args(args, st.env, ans, st.k) {
            Err(h) => (st, Some(h)),
            Ok((parts, k1)) => (State { env: st.env, out: st.out.push(join(parts)), k: k1 }, None),
        },
        StmtView::If(c, body) => match eval_expr(c, st.env, ans, st.k) {
            Err(h) => (st, Some(h)),
            Ok((ValueView::Boolean(Boolean::True), k1)) => match *body {
                StmtView::Block(ss) => exec_stmts(ss, State { env: st.env, out: st.out, k: k1 }, ans),
                _ => (st, Some(HaltView::Failed(FaultView::IfBodyNotBlock))),
            },
            Ok((ValueView::Boolean(Boolean::False), k1)) => (
                State { env: st.env, out: st.out, k: k1 },
                None,
            ),
            Ok(_) => (st, Some(HaltView::Failed(FaultView::NonBooleanCondition))),
        },
        StmtView::Declaration(n, e) => match eval_expr(e, st.env, ans, st.k) {
            Err(h) => (st, Some(h)),
            Ok((v, k1)) => if lookup(st.env, n) is Some {
                (st, Some(HaltView::Failed(FaultView::Redeclaration(n))))
            } else {
                (State { env: st.env.push((n, v)), out: st.out, k: k1 }, None)
            },
        },
        StmtView::Reassignment(n, e) => match eval_expr(e, st.env, ans, st.k) {
            Err(h) => (st, Some(h)),
            Ok((v, k1)) => match lookup(st.env, n) {
                Some(i) => (State { env: st.env.update(i, (n, v)), out: st.out, k: k1 }, None),
                None => (st, Some(HaltView::Failed(FaultView::UndeclaredReassignment(n)))),
            },
        },
        _ => (st, Some(HaltView::Failed(FaultView::UnsupportedStatement))),
    }
}

/// Runs the statements `ss` in order, stopping where one stops.
pub open spec fn exec_stmts(ss: Seq<StmtView>, st: State, ans: Seq<AnswerView>) -> (
    State,
    Option<HaltView>,
)
    decreases ss,
{
    if ss.len() == 0 {
        (st, None)
    } else {
        let (st1, h) = exec_stmt(ss[0], st, ans);
        if h is Some {
            (st1, h)
        } else {
            exec_stmts(ss.drop_first(), st1, ans)
        }
    }
}

/// The state before any statement has run.
pub open spec fn initial_state() -> State {
    State { env: seq![], out: seq![], k: 0 }
}

/// Running `program` from the start with the answers `ans`.
pub open spec fn run_program(program: Seq<StmtView>, ans: Seq<AnswerView>) -> (
    State,
    Option<HaltView>,
) {
    exec_stmts(program, initial_state(), ans)
}

/// A `log` with no arguments prints one empty line and nothing else.
pub proof fn lemma_empty_log(st: State, ans: Seq<AnswerView>)
    ensures
        exec_stmt(StmtView::Log(seq![]), st, ans) == (
            State { env: st.env, out: st.out.push(seq![]), k: st.k },
            None::<HaltView>,
        ),
{
    assert(eval_args(seq![], st.env, ans, st.k) == Ok::<(Seq<Seq<char>>, int), HaltView>(
        (seq![], st.k),
    ));
}

/// An `if` whose condition is `true` runs its block in the same scope; one
/// whose condition is `false` does nothing.
pub proof fn lemma_if_literal(ss: Seq<StmtView>, st: State, ans: Seq<AnswerView>)
    ensures
        exec_stmt(
            StmtView::If(ExprView::Boolean(Boolean::True), Box::new(StmtView::Block(ss))),
            st,
            ans,
        ) == exec_stmts(ss, st, ans),
        exec_stmt(
            StmtView::If(ExprView::Boolean(Boolean::False), Box::new(StmtView::Block(ss))),
            st,
            ans,
        ) == (st, None::<HaltView>),
{
}

/// Assigning to a variable that was never declared is a runtime error.
pub proof fn lemma_reassign_undeclared(name: Seq<char>, e: ExprView, st: State, ans: Seq<AnswerView>)
    requires
        lookup(st.env, name) is None,
        eval_expr(e, st.env, ans, st.k) is Ok,
    ensures
        exec_stmt(StmtView::Reassignment(name, e), st, ans) == (
            st,
            Some(HaltView::Failed(FaultView::UndeclaredReassignment(name))),
        ),
{
}

/// A name that was just bound is found.
proof fn lemma_lookup_pushed(env: Env, name: Seq<char>, v: ValueView)
    ensures
        lookup(env.push((name, v)), name) is Some,
{
    let e = env.push((name, v));
    lemma_lookup_from(e, name, 0);
    if lookup(e, name) is None {
        assert(e[env.len() as int].0 == name);
    }
}

/// Declaring a variable that the scope already holds is a runtime error.
pub proof fn lemma_redeclare_bound(name: Seq<char>, e: ExprView, st: State, ans: Seq<AnswerView>)
    requires
        lookup(st.env, name) is Some,
        eval_expr(e, st.env, ans, st.k) is Ok,
    ensures
        exec_stmt(StmtView::Declaration(name, e), st, ans) == (
            st,
            Some(HaltView::Failed(FaultView::Redeclaration(name))),
        ),
{
}

/// Two declarations of one name in a row stop at the second with a runtime
/// error.
pub proof fn lemma_declare_twice(
    name: Seq<char>,
    e1: ExprView,
    e2: ExprView,
    st: State,
    ans: Seq<AnswerView>,
)
    requires
        exec_stmt(StmtView::Declaration(name, e1), st, ans).1 is None,
        eval_expr(
            e2,
            exec_stmt(StmtView::Declaration(name, e1), st, ans).0.env,
            ans,
            exec_stmt(StmtView::Declaration(name, e1), st, ans).0.k,
        ) is Ok,
    ensures
        exec_stmts(
            seq![StmtView::Declaration(name, e1), StmtView::Declaration(name, e2)],
            st,
            ans,
        ).1 == Some(HaltView::Failed(FaultView::Redeclaration(name))),
{
    let st1 = exec_stmt(StmtView::Declaration(name, e1), st, ans).0;
    let v = eval_expr(e1, st.env, ans, st.k)->Ok_0.0;
    assert(st1.env == st.env.push((name, v)));
    lemma_lookup_pushed(st.env, name, v);
    lemma_redeclare_bound(name, e2, st1, ans);
    let two = seq![StmtView::Declaration(name, e1), StmtView::Declaration(name, e2)];
    let one = seq![StmtView::Declaration(name, e2)];
    assert(two.drop_first() =~= one);
    assert(two[0] == StmtView::Declaration(name, e1));
    assert(one[0] == StmtView::Declaration(name, e2));
    assert(exec_stmts(one, st1, ans) == (
        st1,
        Some(HaltView::Failed(FaultView::Redeclaration(name))),
    ));
}

/// The run stopped for want of an answer.
pub open spec fn waits<T>(r: Result<T, HaltView>) -> bool {
    r matches Err(HaltView::Asked(_))
}

/// `x` begins with the lines `p`.
pub open spec fn extends(x: Seq<Seq<char>>, p: Seq<Seq<char>>) -> bool {
    p.len() <= x.len() && x.subrange(0, p.len() as int) == p
}

/// `b` holds the answers `a` and possibly more after them.
pub open spec fn more_answers(a: Seq<AnswerView>, b: Seq<AnswerView>) -> bool {
    a.len() <= b.len() && b.subrange(0, a.len() as int) == a
}

proof fn lemma_answer_settled(a: Seq<AnswerView>, b: Seq<AnswerView>, k: int, q: QueryView)
    requires
        more_answers(a, b),
        0 <= k,
    ensures
        !waits(answer_number(a, k, q)) ==> answer_number(b, k, q) == answer_number(a, k, q),
        !waits(answer_text(a, k, q)) ==> answer_text(b, k, q) == answer_text(a, k, q),
        answer_number(a, k, q) matches Ok((_, k1)) ==> k1 >= k,
        answer_text(a, k, q) matches Ok((_, k1)) ==> k1 >= k,
{
    if k < a.len() {
        assert(b[k] == b.subrange(0, a.len() as int)[k]);
    }
}

proof fn lemma_expr_settled(e: ExprView, env: Env, a: Seq<AnswerView>, b: Seq<AnswerView>, k: int)
    requires
        more_answers(a, b),
        0 <= k,
    ensures
        !waits(eval_expr(e, env, a, k)) ==> eval_expr(e, env, b, k) == eval_expr(e, env, a, k),
        eval_expr(e, env, a, k) matches Ok((_, k1)) ==> k1 >= k,
    decreases e,
{
    match e {
        ExprView::Number(t) => lemma_answer_settled(a, b, k, QueryView::Literal(t)),
        ExprView::Group(inner) => lemma_expr_settled(*inner, env, a, b, k),
        ExprView::Unary(_, inner) => lemma_expr_settled(*inner, env, a, b, k),
        ExprView::Binary(l, op, r) => {
            lemma_expr_settled(*l, env, a, b, k);
            if let Ok((x, k1)) = eval_expr(*l, env, a, k) {
                lemma_expr_settled(*r, env, a, b, k1);
                if let Ok((y, k2)) = eval_expr(*r, env, a, k1) {
                    if let (ValueView::Number(x), ValueView::Number(y)) = (x, y) {
                        lemma_answer_settled(a, b, k2, QueryView::Arithmetic(op, x, y));
                    }
                }
            }
        },
        ExprView::Comparison(l, op, r) => {
            lemma_expr_settled(*l, env, a, b, k);
            if let Ok((x, k1)) = eval_expr(*l, env, a, k) {
                lemma_expr_settled(*r, env, a, b, k1);
            }
        },
        _ => {},
    }
}

proof fn lemma_render_settled(v: ValueView, a: Seq<AnswerView>, b: Seq<AnswerView>, k: int)
    requires
        more_answers(a, b),
        0 <= k,
    ensures
        !waits(render(v, a, k)) ==> render(v, b, k) == render(v, a, k),
        render(v, a, k) matches Ok((_, k1)) ==> k1 >= k,
{
    if let ValueView::Number(x) = v {
        lemma_answer_settled(a, b, k, QueryView::Render(x));
    }
}

proof fn lemma_args_settled(
    args: Seq<ExprView>,
    env: Env,
    a: Seq<AnswerView>,
    b: Seq<AnswerView>,
    k: int,
)
    requires
        more_answers(a, b),
        0 <= k,
    ensures
        !waits(eval_args(args, env, a, k)) ==> eval_args(args, env, b, k) == eval_args(
            args,
            env,
            a,
            k,
        ),
        eval_args(args, env, a, k) matches Ok((_, k1)) ==> k1 >= k,
    decreases args.len(),
{
    if args.len() > 0 {
        lemma_expr_settled(args[0], env, a, b, k);
        if let Ok((v, k1)) = eval_expr(args[0], env, a, k) {
            lemma_render_settled(v, a, b, k1);
            if let Ok((t, k2)) = render(v, a, k1) {
                lemma_args_settled(args.drop_first(), env, a, b, k2);
            }
        }
    }
}

/// Statements only add lines, and use answers in order.
proof fn lemma_stmt_grows(s: StmtView, st: State, ans: Seq<AnswerView>)
    requires
        0 <= st.k,
    ensures
        extends(exec_stmt(s, st, ans).0.out, st.out),
        exec_stmt(s, st, ans).0.k >= st.k,
    decreases s,
{
    assert(ans.subrange(0, ans.len() as int) =~= ans);
    match s {
        StmtView::Block(ss) => lemma_stmts_grow(ss, st, ans),
        StmtView::Expression(e) => {
            lemma_expr_settled(e, st.env, ans, ans, st.k);
            if let Ok((v, k1)) = eval_expr(e, st.env, ans, st.k) {
                lemma_render_settled(v, ans, ans, k1);
            }
            assert(st.out.push(seq![]).subrange(0, st.out.len() as int) =~= st.out);
            assert(forall|t: Seq<char>| st.out.push(t).subrange(0, st.out.len() as int) =~= st.out);
        },
        StmtView::Log(args) => {
            lemma_args_settled(args, st.env, ans, ans, st.k);
            assert(forall|t: Seq<char>| st.out.push(t).subrange(0, st.out.len() as int) =~= st.out);
        },
        StmtView::If(c, body) => {
            lemma_expr_settled(c, st.env, ans, ans, st.k);
            if let Ok((ValueView::Boolean(Boolean::True), k1)) = eval_expr(c, st.env, ans, st.k) {
                if let StmtView::Block(ss) = *body {
                    lemma_stmts_grow(ss, State { env: st.env, out: st.out, k: k1 }, ans);
                }
            }
        },
        StmtView::Declaration(_, e) => lemma_expr_settled(e, st.env, ans, ans, st.k),
        StmtView::Reassignment(_, e) => lemma_expr_settled(e, st.env, ans, ans, st.k),
        _ => {},
    }
    assert(st.out.subrange(0, st.out.len() as int) =~= st.out);
}

proof fn lemma_stmts_grow(ss: Seq<StmtView>, st: State, ans: Seq<AnswerView>)
    requires
        0 <= st.k,
    ensures
        extends(exec_stmts(ss, st, ans).0.out, st.out),
        exec_stmts(ss, st, ans).0.k >= st.k,
    decreases ss,
{
    assert(st.out.subrange(0, st.out.len() as int) =~= st.out);
    if ss.len() > 0 {
        lemma_stmt_grows(ss[0], st, ans);
        let (st1, h) = exec_stmt(ss[0], st, ans);
        if h is None {
            lemma_stmts_grow(ss.drop_first(), st1, ans);
            let st2 = exec_stmts(ss.drop_first(), st1, ans).0;
            assert(st2.out.subrange(0, st.out.len() as int) =~= st2.out.subrange(
                0,
                st1.out.len() as int,
            ).subrange(0, st.out.len() as int));
        }
    }
}

proof fn lemma_stmt_settled(s: StmtView, st: State, a: Seq<AnswerView>, b: Seq<AnswerView>)
    requires
        more_answers(a, b),
        0 <= st.k,
    ensures
        exec_stmt(s, st, a).1 matches Some(HaltView::Asked(_)) ==> extends(
            exec_stmt(s, st, b).0.out,
            exec_stmt(s, st, a).0.out,
        ),
        !(exec_stmt(s, st, a).1 matches Some(HaltView::Asked(_))) ==> exec_stmt(s, st, b)
            == exec_stmt(s, st, a),
    decreases s,
{
    lemma_stmt_grows(s, st, b);
    match s {
        StmtView::Block(ss) => lemma_stmts_settled(ss, st, a, b),
        StmtView::Expression(e) => {
            lemma_expr_settled(e, st.env, a, b, st.k);
            if let Ok((v, k1)) = eval_expr(e, st.env, a, st.k) {
                lemma_render_settled(v, a, b, k1);
            }
        },
        StmtView::Log(args) => lemma_args_settled(args, st.env, a, b, st.k),
        StmtView::If(c, body) => {
            lemma_expr_settled(c, st.env, a, b, st.k);
            if let Ok((ValueView::Boolean(Boolean::True), k1)) = eval_expr(c, st.env, a, st.k) {
                if let StmtView::Block(ss) = *body {
                    lemma_stmts_settled(ss, State { env: st.env, out: st.out, k: k1 }, a, b);
                }
            }
        },
        StmtView::Declaration(_, e) => lemma_expr_settled(e, st.env, a, b, st.k),
        StmtView::Reassignment(_, e) => lemma_expr_settled(e, st.env, a, b, st.k),
        _ => {},
    }
}

proof fn lemma_stmts_settled(ss: Seq<StmtView>, st: State, a: Seq<AnswerView>, b: Seq<AnswerView>)
    requires
        more_answers(a, b),
        0 <= st.k,
    ensures
        exec_stmts(ss, st, a).1 matches Some(HaltView::Asked(_)) ==> extends(
            exec_stmts(ss, st, b).0.out,
            exec_stmts(ss, st, a).0.out,
        ),
        !(exec_stmts(ss, st, a).1 matches Some(HaltView::Asked(_))) ==> exec_stmts(ss, st, b)
            == exec_stmts(ss, st, a),
    decreases ss,
{
    if ss.len() > 0 {
        lemma_stmt_settled(ss[0], st, a, b);
        lemma_stmt_grows(ss[0], st, a);
        let (sa, ha) = exec_stmt(ss[0], st, a);
        let (sb, hb) = exec_stmt(ss[0], st, b);
        if ha matches Some(HaltView::Asked(_)) {
            if hb is None {
                lemma_stmt_grows(ss[0], st, b);
                lemma_stmts_grow(ss.drop_first(), sb, b);
                let sc = exec_stmts(ss.drop_first(), sb, b).0;
                assert(sc.out.subrange(0, sa.out.len() as int) =~= sc.out.subrange(
                    0,
                    sb.out.len() as int,
                ).subrange(0, sa.out.len() as int));
            }
        } else if ha is None {
            lemma_stmts_settled(ss.drop_first(), sa, a, b);
        }
    }
}

/// Answers added after those a run has used change nothing that run did:
/// a run given more answers prints the lines of the shorter run first, and
/// where the shorter run finished or failed, the longer one ends in the same
/// state with the same result. In particular two runs of one program with
/// the same answers agree entirely.
pub proof fn lemma_more_answers(program: Seq<StmtView>, a: Seq<AnswerView>, b: Seq<AnswerView>)
    requires
        more_answers(a, b),
    ensures
        extends(run_program(program, b).0.out, run_program(program, a).0.out),
        !(run_program(program, a).1 matches Some(HaltView::Asked(_))) ==> run_program(program, b)
            == run_program(program, a),
{
    lemma_stmts_settled(program, initial_state(), a, b);
    let (sa, ha) = run_program(program, a);
    if !(ha matches Some(HaltView::Asked(_))) {
        assert(sa.out.subrange(0, sa.out.len() as int) =~= sa.out);
    }
}

/// `pre` in front of the parts that `r` gives.
pub open spec fn parts_after(pre: Seq<Seq<char>>, r: Result<(Seq<Seq<char>>, int), HaltView>) -> Result<
    (Seq<Seq<char>>, int),
    HaltView,
> {
    match r {
        Ok((ts, k)) => Ok((pre + ts, k)),
        Err(h) => Err(h),
    }
}

pub open spec fn value_result(r: Result<(RuntimeType, usize), Halt>) -> Result<
    (ValueView, int),
    HaltView,
> {
    match r {
        Ok((v, k)) => Ok((v@, k as int)),
        Err(h) => Err(h@),
    }
}

pub open spec fn text_result(r: Result<(String, usize), Halt>) -> Result<(Seq<char>, int), HaltView> {
    match r {
        Ok((t, k)) => Ok((t@, k as int)),
        Err(h) => Err(h@),
    }
}

pub open spec fn halt_view(h: Option<Halt>) -> Option<HaltView> {
    match h {
        Some(h) => Some(h@),
        None => None,
    }
}

pub open spec fn lines_view(v: Seq<String>) -> Seq<Seq<char>> {
    v.map_values(|s: String| s@)
}

/// The state of a run in progress.
struct Machine {
    env: Vec<Binding>,
    out: Vec<String>,
    k: usize,
}

impl Machine {
    spec fn state(&self) -> State {
        State { env: env_view(self.env@), out: lines_view(self.out@), k: self.k as int }
    }
}

fn copy_value(v: &RuntimeType) -> (r: RuntimeType)
    ensures
        r@ == v@,
{
    match v {
        RuntimeType::Number(b) => RuntimeType::Number(*b),
        RuntimeType::String(s) => RuntimeType::String(s.clone()),
        RuntimeType::Boolean(b) => RuntimeType::Boolean(*b),
        RuntimeType::Nothing => RuntimeType::Nothing,
    }
}

/// Index of the binding of `name`.
fn find(env: &Vec<Binding>, name: &String) -> (r: Option<usize>)
    ensures
        match r {
            Some(i) => lookup(env_view(env@), name@) == Some(i as int) && i < env.len(),
            None => lookup(env_view(env@), name@) is None,
        },
{
    let ghost e = env_view(env@);
    let mut i: usize = 0;
    while i < env.len()
        invariant
            i <= env.len(),
            e == env_view(env@),
            lookup(e, name@) == lookup_from(e, name@, i as int),
        decreases env.len() - i,
    {
        assert(e[i as int] == (env@[i as int].name@, env@[i as int].value@));
        if env[i].name == *name {
            return Some(i);
        }
        i = i + 1;
    }
    None
}

fn take_number(answers: &Vec<Answer>, k: usize, q: Query) -> (r: Result<(u64, usize), Halt>)
    requires
        k <= answers.len(),
    ensures
        match r {
            Ok((b, k1)) => answer_number(answers_view(answers@), k as int, q@) == Ok::<
                (u64, int),
                HaltView,
            >((b, k1 as int)) && k1 <= answers.len(),
            Err(h) => answer_number(answers_view(answers@), k as int, q@) == Err::<
                (u64, int),
                HaltView,
            >(h@),
        },
{
    if k < answers.len() {
        match &answers[k] {
            Answer::Number(b) => Ok((*b, k + 1)),
            Answer::Text(_) => Err(Halt::Failed(RuntimeError::AnswerMismatch)),
        }
    } else {
        Err(Halt::Asked(q))
    }
}

fn take_text(answers: &Vec<Answer>, k: usize, q: Query) -> (r: Result<(String, usize), Halt>)
    requires
        k <= answers.len(),
    ensures
        text_result(r) == answer_text(answers_view(answers@), k as int, q@),
        r matches Ok((_, k1)) ==> k1 <= answers.len(),
{
    if k < answers.len() {
        match &answers[k] {
            Answer::Text(t) => Ok((t.clone(), k + 1)),
            Answer::Number(_) => Err(Halt::Failed(RuntimeError::AnswerMismatch)),
        }
    } else {
        Err(Halt::Asked(q))
    }
}

/// IEEE-754 equality of two floats given as bit patterns.
pub fn float_equal(a: u64, b: u64) -> (r: bool)
    ensures
        r == float_eq(a, b),
{
    let a_nan = a & 0x7ff0_0000_0000_0000u64 == 0x7ff0_0000_0000_0000u64 && a
        & 0x000f_ffff_ffff_ffffu64 != 0;
    let b_nan = b & 0x7ff0_0000_0000_0000u64 == 0x7ff0_0000_0000_0000u64 && b
        & 0x000f_ffff_ffff_ffffu64 != 0;
    let zeros = a & 0x7fff_ffff_ffff_ffffu64 == 0 && b & 0x7fff_ffff_ffff_ffffu64 == 0;
    !a_nan && !b_nan && (a == b || zeros)
}

fn equal_values(a: &RuntimeType, b: &RuntimeType) -> (r: bool)
    ensures
        r == values_equal(a@, b@),
{
    match (a, b) {
        (RuntimeType::Number(x), RuntimeType::Number(y)) => float_equal(*x, *y),
        (RuntimeType::String(x), RuntimeType::String(y)) => *x == *y,
        (RuntimeType::Boolean(x), RuntimeType::Boolean(y)) => *x == *y,
        (RuntimeType::Nothing, RuntimeType::Nothing) => true,
        _ => false,
    }
}

fn to_boolean(b: bool) -> (r: Boolean)
    ensures
        r == boolean_of(b),
{
    if b {
        Boolean::True
    } else {
        Boolean::False
    }
}

fn comparison(op: ComparisonOperator, a: &RuntimeType, b: &RuntimeType) -> (r: Result<
    RuntimeType,
    RuntimeError,
>)
    ensures
        match r {
            Ok(v) => compare(op, a@, b@) == Ok::<ValueView, FaultView>(v@),
            Err(f) => compare(op, a@, b@) == Err::<ValueView, FaultView>(f@),
        },
{
    match op {
        ComparisonOperator::And | ComparisonOperator::Or => match (a, b) {
            (RuntimeType::Boolean(x), RuntimeType::Boolean(y)) => {
                let x = *x == Boolean::True;
                let y = *y == Boolean::True;
                let v = if op == ComparisonOperator::And {
                    x && y
                } else {
                    x || y
                };
                Ok(RuntimeType::Boolean(to_boolean(v)))
            },
            _ => Err(RuntimeError::LogicalOperandNotBoolean),
        },
        ComparisonOperator::EqualTo => Ok(RuntimeType::Boolean(to_boolean(equal_values(a, b)))),
        ComparisonOperator::NotEqualTo => Ok(
            RuntimeType::Boolean(to_boolean(!equal_values(a, b))),
        ),
        _ => Err(RuntimeError::OrderingUnsupported(op)),
    }
}

/// Evaluates `e` with the variables `env`, using answers from index `k` on.
fn evaluate_expression(e: &Expr, env: &Vec<Binding>, answers: &Vec<Answer>, k: usize) -> (r: Result<
    (RuntimeType, usize),
    Halt,
>)
    requires
        k <= answers.len(),
    ensures
        value_result(r) == eval_expr(e@, env_view(env@), answers_view(answers@), k as int),
        r matches Ok((_, k1)) ==> k1 <= answers.len(),
    decreases e,
{
    let ghost ev = env_view(env@);
    match e {
        Expr::NumberLiteral(t) => match take_number(answers, k, Query::Literal(t.clone())) {
            Ok((b, k1)) => Ok((RuntimeType::Number(b), k1)),
            Err(h) => Err(h),
        },
        Expr::StringLiteral(s) => Ok((RuntimeType::String(s.clone()), k)),
        Expr::Identifier(n) => match find(env, n) {
            Some(i) => {
                assert(ev[i as int] == (env@[i as int].name@, env@[i as int].value@));
                Ok((copy_value(&env[i].value), k))
            },
            None => Err(Halt::Failed(RuntimeError::UndefinedVariable(n.clone()))),
        },
        Expr::Boolean(b) => Ok((RuntimeType::Boolean(*b), k)),
        Expr::NilLiteral => Ok((RuntimeType::Nothing, k)),
        Expr::GroupExpression(inner) => evaluate_expression(inner, env, answers, k),
        Expr::UnaryExpression(_, inner) => match evaluate_expression(inner, env, answers, k) {
            Ok((RuntimeType::Number(b), k1)) => Ok(
                (RuntimeType::Number(b ^ 0x8000_0000_0000_0000u64), k1),
            ),
            Ok(_) => Err(Halt::Failed(RuntimeError::UnaryOperandNotNumber)),
            Err(h) => Err(h),
        },
        Expr::BinaryExpression { left_side, right_side, operator } => {
            let (a, k1) = match evaluate_expression(left_side, env, answers, k) {
                Ok(x) => x,
                Err(h) => {
                    return Err(h);
                },
            };
            let (b, k2) = match evaluate_expression(right_side, env, answers, k1) {
                Ok(x) => x,
                Err(h) => {
                    return Err(h);
                },
            };
            match (a, b) {
                (RuntimeType::Number(x), RuntimeType::Number(y)) => match take_number(
                    answers,
                    k2,
                    Query::Arithmetic(*operator, x, y),
                ) {
                    Ok((z, k3)) => Ok((RuntimeType::Number(z), k3)),
                    Err(h) => Err(h),
                },
                _ => Err(Halt::Failed(RuntimeError::BinaryOperandNotNumber)),
            }
        },
        Expr::ComparisonExpression { lhs, rhs, operator } => {
            let (a, k1) = match evaluate_expression(lhs, env, answers, k) {
                Ok(x) => x,
                Err(h) => {
                    return Err(h);
                },
            };
            let (b, k2) = match evaluate_expression(rhs, env, answers, k1) {
                Ok(x) => x,
                Err(h) => {
                    return Err(h);
                },
            };
            match comparison(*operator, &a, &b) {
                Ok(v) => Ok((v, k2)),
                Err(f) => Err(Halt::Failed(f)),
            }
        },
        Expr::FunctionCall { .. } => Err(Halt::Failed(RuntimeError::UnsupportedExpression)),
    }
}

/// The printed form of `v`.
fn render_value(v: &RuntimeType, answers: &Vec<Answer>, k: usize) -> (r: Result<(String, usize), Halt>)
    requires
        k <= answers.len(),
    ensures
        text_result(r) == render(v@, answers_view(answers@), k as int),
        r matches Ok((_, k1)) ==> k1 <= answers.len(),
{
    match v {
        RuntimeType::Number(b) => take_text(answers, k, Query::Render(*b)),
        RuntimeType::String(s) => Ok((s.clone(), k)),
        RuntimeType::Boolean(Boolean::True) => Ok(("true".to_owned(), k)),
        RuntimeType::Boolean(Boolean::False) => Ok(("false".to_owned(), k)),
        RuntimeType::Nothing => Ok(("None".to_owned(), k)),
    }
}

/// The line that `log` prints for `args`.
fn log_line(args: &Vec<Expr>, env: &Vec<Binding>, answers: &Vec<Answer>, k: usize) -> (r: Result<
    (String, usize),
    Halt,
>)
    requires
        k <= answers.len(),
    ensures
        match r {
            Ok((line, k1)) => eval_args(
                crate::ast::exprs_view(args@),
                env_view(env@),
                answers_view(answers@),
                k as int,
            ) matches Ok((parts, kk)) && line@ == join(parts) && kk == k1 && k1 <= answers.len(),
            Err(h) => eval_args(
                crate::ast::exprs_view(args@),
                env_view(env@),
                answers_view(answers@),
                k as int,
            ) == Err::<(Seq<Seq<char>>, int), HaltView>(h@),
        },
{
    let ghost a = crate::ast::exprs_view(args@);
    let ghost ev = env_view(env@);
    let ghost av = answers_view(answers@);
    let ghost mut parts: Seq<Seq<char>> = seq![];
    let mut line = String::new();
    let mut kc = k;
    let mut i: usize = 0;
    assert(a.skip(0) =~= a);
    assert(parts + seq![] =~= parts);
    while i < args.len()
        invariant
            i <= args.len(),
            a.len() == args.len(),
            a == crate::ast::exprs_view(args@),
            ev == env_view(env@),
            av == answers_view(answers@),
            kc <= answers.len(),
            parts.len() == i,
            line@ == join(parts),
            eval_args(a, ev, av, k as int) == parts_after(parts, eval_args(a.skip(i as int), ev, av, kc as int)),
        decreases args.len() - i,
    {
        let ghost rest = a.skip(i as int);
        assert(rest[0] == args@[i as int]@);
        assert(rest.drop_first() =~= a.skip(i + 1));
        let (v, k1) = match evaluate_expression(&args[i], env, answers, kc) {
            Ok(x) => x,
            Err(h) => {
                return Err(h);
            },
        };
        let (t, k2) = match render_value(&v, answers, k1) {
            Ok(x) => x,
            Err(h) => {
                return Err(h);
            },
        };
        proof {
            let next = eval_args(a.skip(i + 1), ev, av, k2 as int);
            match next {
                Ok((ts, k3)) => {
                    assert(parts + (seq![t@] + ts) =~= parts.push(t@) + ts);
                },
                Err(_) => {},
            }
            assert(parts.push(t@).drop_last() =~= parts);
        }
        if i > 0 {
            push_char(&mut line, ' ');
        }
        line.append(t.as_str());
        proof {
            parts = parts.push(t@);
        }
        kc = k2;
        i = i + 1;
    }
    proof {
        assert(a.skip(i as int) =~= seq![]);
        assert(parts + seq![] =~= parts);
    }
    Ok((line, kc))
}

/// Runs statement `s` on the machine.
fn evaluate_statement(m: &mut Machine, s: &Stmt, answers: &Vec<Answer>) -> (r: Option<Halt>)
    requires
        old(m).k <= answers.len(),
    ensures
        final(m).k <= answers.len(),
        (final(m).state(), halt_view(r)) == exec_stmt(s@, old(m).state(), answers_view(answers@)),
    decreases s,
{
    let ghost st = m.state();
    let ghost av = answers_view(answers@);
    match s {
        Stmt::EmptyStatement => None,
        Stmt::BlockStatement(ss) => evaluate_block(m, ss, answers),
        Stmt::ExpressionStatement(e) => {
            let (v, k1) = match evaluate_expression(e, &m.env, answers, m.k) {
                Ok(x) => x,
                Err(h) => {
                    return Some(h);
                },
            };
            let (t, k2) = match render_value(&v, answers, k1) {
                Ok(x) => x,
                Err(h) => {
                    return Some(h);
                },
            };
            let mut line = "[expr_stmt] ".to_owned();
            line.append(t.as_str());
            m.out.push(line);
            m.k = k2;
            assert(m.state().out =~= st.out.push(diagnostic(t@)));
            None
        },
        Stmt::LogStatement(args) => {
            let (line, k1) = match log_line(args, &m.env, answers, m.k) {
                Ok(x) => x,
                Err(h) => {
                    return Some(h);
                },
            };
            m.out.push(line);
            m.k = k1;
            assert(m.state().out =~= st.out.push(line@));
            None
        },
        Stmt::IfStatement { condition, body } => {
            let (c, k1) = match evaluate_expression(condition, &m.env, answers, m.k) {
                Ok(x) => x,
                Err(h) => {
                    return Some(h);
                },
            };
            match c {
                RuntimeType::Boolean(Boolean::True) => match &**body {
                    Stmt::BlockStatement(ss) => {
                        m.k = k1;
                        assert(m.state() == State { env: st.env, out: st.out, k: k1 as int });
                        assert(body@ == StmtView::Block(stmts_view(ss@)));
                        evaluate_block(m, ss, answers)
                    },
                    _ => Some(Halt::Failed(RuntimeError::IfBodyNotBlock)),
                },
                RuntimeType::Boolean(Boolean::False) => {
                    m.k = k1;
                    assert(m.state() == State { env: st.env, out: st.out, k: k1 as int });
                    None
                },
                _ => Some(Halt::Failed(RuntimeError::NonBooleanCondition)),
            }
        },
        Stmt::VariableDeclaration { name, value } => {
            let (v, k1) = match evaluate_expression(value, &m.env, answers, m.k) {
                Ok(x) => x,
                Err(h) => {
                    return Some(h);
                },
            };
            if find(&m.env, name).is_some() {
                return Some(Halt::Failed(RuntimeError::Redeclaration(name.clone())));
            }
            let b = Binding { name: name.clone(), value: v };
            m.env.push(b);
            m.k = k1;
            assert(m.state().env =~= st.env.push((name@, v@)));
            None
        },
        Stmt::VariableReassignment { name, value } => {
            let (v, k1) = match evaluate_expression(value, &m.env, answers, m.k) {
                Ok(x) => x,
                Err(h) => {
                    return Some(h);
                },
            };
            match find(&m.env, name) {
                Some(i) => {
                    m.env.set(i, Binding { name: name.clone(), value: v });
                    m.k = k1;
                    assert(m.state().env =~= st.env.update(i as int, (name@, v@)));
                    None
                },
                None => Some(Halt::Failed(RuntimeError::UndeclaredReassignment(name.clone()))),
            }
        },
        _ => Some(Halt::Failed(RuntimeError::UnsupportedStatement)),
    }
}

/// Runs the statements `ss` in order on the machine.
fn evaluate_block(m: &mut Machine, ss: &Vec<Stmt>, answers: &Vec<Answer>) -> (r: Option<Halt>)
    requires
        old(m).k <= answers.len(),
    ensures
        final(m).k <= answers.len(),
        (final(m).state(), halt_view(r)) == exec_stmts(
            stmts_view(ss@),
            old(m).state(),
            answers_view(answers@),
        ),
    decreases ss,
{
    let ghost v = stmts_view(ss@);
    let ghost av = answers_view(answers@);
    proof {
        lemma_stmts_view(ss@);
        assert(v.skip(0) =~= v);
    }
    let mut i: usize = 0;
    while i < ss.len()
        invariant
            i <= ss.len(),
            v == stmts_view(ss@),
            v.len() == ss.len(),
            forall|j: int| 0 <= j < ss.len() ==> #[trigger] v[j] == ss@[j]@,
            av == answers_view(answers@),
            m.k <= answers.len(),
            exec_stmts(v, old(m).state(), av) == exec_stmts(v.skip(i as int), m.state(), av),
        decreases ss.len() - i,
    {
        let ghost rest = v.skip(i as int);
        assert(rest[0] == v[i as int]);
        assert(rest.drop_first() =~= v.skip(i + 1));
        let h = evaluate_statement(m, &ss[i], answers);
        if h.is_some() {
            return h;
        }
        i = i + 1;
    }
    assert(v.skip(i as int) =~= seq![]);
    None
}

/// The result of a run: the lines printed, and where it stopped if it did
/// not finish.
#[derive(Debug, Clone)]
pub struct Outcome {
    pub lines: Vec<String>,
    pub halt: Option<Halt>,
}

/// Runs a program, one run per set of answers.
pub struct Evaluator {
    program: Vec<Stmt>,
    scope: Vec<Binding>,
    debug: u8,
}

impl Evaluator {
    /// The program to run.
    pub closed spec fn statements(&self) -> Seq<StmtView> {
        stmts_view(self.program@)
    }

    /// The variables as the last run left them.
    pub closed spec fn scope_view(&self) -> Env {
        env_view(self.scope@)
    }

    pub closed spec fn debug_level(&self) -> u8 {
        self.debug
    }

    pub fn new(program: Vec<Stmt>, debug: u8) -> (r: Evaluator)
        ensures
            r.statements() == stmts_view(program@),
            r.scope_view() == Seq::<(Seq<char>, ValueView)>::empty(),
            r.debug_level() == debug,
    {
        let r = Evaluator { program, scope: Vec::new(), debug };
        assert(r.scope_view() =~= Seq::<(Seq<char>, ValueView)>::empty());
        r
    }

    /// The variables as the last run left them.
    pub fn get_main_scope(&self) -> (r: &Vec<Binding>)
        ensures
            env_view(r@) == self.scope_view(),
    {
        &self.scope
    }

    /// Runs the program from the start, with `answers` answering its
    /// questions in order. The lines are those printed up to where the run
    /// stopped.
    pub fn evaluate_program(&mut self, answers: &Vec<Answer>) -> (r: Outcome)
        ensures
            final(self).statements() == old(self).statements(),
            final(self).debug_level() == old(self).debug_level(),
            ({
                let (st, h) = run_program(old(self).statements(), answers_view(answers@));
                &&& lines_view(r.lines@) == st.out
                &&& halt_view(r.halt) == h
                &&& final(self).scope_view() == st.env
            }),
    {
        let mut m = Machine { env: Vec::new(), out: Vec::new(), k: 0 };
        assert(m.state().env =~= initial_state().env);
        assert(m.state().out =~= initial_state().out);
        let halt = evaluate_block(&mut m, &self.program, answers);
        self.scope = m.env;
        Outcome { lines: m.out, halt }
    }
}

} // verus!

//! The parser: tokens in, statements out, by recursive descent.
//!
//! Binary and comparison expressions take no precedence into account: the
//! right operand of an operator is the whole expression that follows it, so
//! `1 * 2 + 3` groups as `1 * (2 + 3)`.
use crate::ast::{
    exprs_view, lemma_stmts_view_push, stmts_view, BinaryExprOperator, Boolean, ComparisonOperator, Expr,
    ExprView, Stmt, StmtView, UnaryOperation,
};
use crate::lex::is_digit;
use crate::text::same_text;
use crate::token::{Token, TokenView};
use vstd::prelude::*;

verus! {

broadcast use vstd::std_specs::vec::group_vec_axioms, vstd::seq::group_seq_axioms;

/// Why parsing stopped.
#[derive(Debug)]
pub enum ParserError {
    /// The token at `position` is not the one the construct needs.
    SyntaxError { position: usize, message: String },
    /// The token at `position` begins no statement.
    UnknownToken { position: usize },
    /// The tokens ran out at this position in the middle of a construct.
    CurrentIndexOutOfBounds(usize),
    /// The number literal at `position` does not convert to a float. Unlike
    /// the errors above this one is fatal: a caller must not run the
    /// statements parsed before it.
    MalformedNumber { position: usize },
}

/// The mathematical value of a [`ParserError`].
pub enum ParseFault {
    Syntax(int, Seq<char>),
    Unknown(int),
    OutOfBounds(int),
    Malformed(int),
}

impl View for ParserError {
    type V = ParseFault;

    open spec fn view(&self) -> ParseFault {
        match self {
            ParserError::SyntaxError { position, message } => ParseFault::Syntax(
                *position as int,
                message@,
            ),
            ParserError::UnknownToken { position } => ParseFault::Unknown(*position as int),
            ParserError::CurrentIndexOutOfBounds(position) => ParseFault::OutOfBounds(
                *position as int,
            ),
            ParserError::MalformedNumber { position } => ParseFault::Malformed(*position as int),
        }
    }
}

/// The token at `p`, if there is one.
pub open spec fn tok(ts: Seq<TokenView>, p: int) -> Option<TokenView> {
    if 0 <= p < ts.len() {
        Some(ts[p])
    } else {
        None
    }
}

/// The error for a token at `p` that is not the one expected.
pub open spec fn mismatch(ts: Seq<TokenView>, p: int, message: Seq<char>) -> ParseFault {
    if 0 <= p < ts.len() {
        ParseFault::Syntax(p, message)
    } else {
        ParseFault::OutOfBounds(p)
    }
}

/// A number literal's text converts to a float: digits with at most one
/// dot, and at least one digit.
pub open spec fn valid_number(s: Seq<char>) -> bool {
    &&& forall|i: int| 0 <= i < s.len() ==> is_digit(#[trigger] s[i]) || s[i] == '.'
    &&& exists|i: int| 0 <= i < s.len() && is_digit(#[trigger] s[i])
    &&& forall|i: int, j: int|
        #![trigger s[i], s[j]]
        0 <= i < j < s.len() && s[i] == '.' ==> s[j] != '.'
}

pub open spec fn binary_op_of(c: char) -> Option<BinaryExprOperator> {
    if c == '+' {
        Some(BinaryExprOperator::Plus)
    } else if c == '-' {
        Some(BinaryExprOperator::Minus)
    } else if c == '*' {
        Some(BinaryExprOperator::Multiply)
    } else if c == '/' {
        Some(BinaryExprOperator::Divide)
    } else if c == '%' {
        Some(BinaryExprOperator::Modulus)
    } else {
        None
    }
}

pub open spec fn comparison_op_of(c: char) -> Option<ComparisonOperator> {
    if c == '<' {
        Some(ComparisonOperator::LessThan)
    } else if c == '>' {
        Some(ComparisonOperator::GreaterThan)
    } else {
        None
    }
}

/// The operand that the token `t` alone makes, if it makes one.
pub open spec fn atom_of(t: TokenView) -> Option<ExprView> {
    match t {
        TokenView::Keyword(w) => if w == "true"@ {
            Some(ExprView::Boolean(Boolean::True))
        } else if w == "false"@ {
            Some(ExprView::Boolean(Boolean::False))
        } else if w == "nil"@ {
            Some(ExprView::Nil)
        } else {
            None
        },
        TokenView::Str(s) => Some(ExprView::Str(s)),
        TokenView::Number(s) => Some(ExprView::Number(s)),
        TokenView::Identifier(s) => Some(ExprView::Identifier(s)),
        _ => None,
    }
}

/// An expression starting at `p`, with the position after it.
pub open spec fn parse_expr(ts: Seq<TokenView>, p: int) -> Result<(ExprView, int), ParseFault>
    decreases ts.len() - p,
{
    if p < 0 || p >= ts.len() {
        Err(ParseFault::OutOfBounds(p))
    } else if ts[p] == TokenView::BinaryOperator('-') {
        match tok(ts, p + 1) {
            Some(TokenView::Number(_)) | Some(TokenView::Identifier(_)) | Some(
                TokenView::Delimiter('('),
            ) => match parse_expr(ts, p + 1) {
                Ok((e, q)) => Ok((ExprView::Unary(UnaryOperation::Minus, Box::new(e)), q)),
                Err(f) => Err(f),
            },
            _ => Err(mismatch(ts, p + 1, "expected a number, identifier or '(' after '-'"@)),
        }
    } else {
        let first = if ts[p] == TokenView::Delimiter('(') {
            match parse_expr(ts, p + 1) {
                Ok((e, q)) => if tok(ts, q) == Some(TokenView::Delimiter(')')) {
                    Ok((ExprView::Group(Box::new(e)), q + 1))
                } else {
                    Err(mismatch(ts, q, "expected ')'"@))
                },
                Err(f) => Err(f),
            }
        } else {
            match atom_of(ts[p]) {
                Some(ExprView::Number(s)) => if valid_number(s) {
                    Ok((ExprView::Number(s), p + 1))
                } else {
                    Err(ParseFault::Malformed(p))
                },
                Some(e) => Ok((e, p + 1)),
                None => Err(ParseFault::Syntax(p, "expected an expression"@)),
            }
        };
        match first {
            Err(f) => Err(f),
            Ok((lhs, q)) => if q <= p {
                // Not reached: an operand takes at least one token
                // (`lemma_expr_progress`).
                Err(ParseFault::Syntax(p, "expected an expression"@))
            } else {
                match tok(ts, q) {
                    Some(TokenView::BinaryOperator(c)) => match binary_op_of(c) {
                        None => Err(ParseFault::Unknown(q)),
                        Some(op) => match parse_expr(ts, q + 1) {
                            Ok((rhs, r)) => Ok(
                                (ExprView::Binary(Box::new(lhs), op, Box::new(rhs)), r),
                            ),
                            Err(f) => Err(f),
                        },
                    },
                    Some(TokenView::ComparisonOperator(c)) => match comparison_op_of(c) {
                        None => Err(ParseFault::Unknown(q)),
                        Some(op) => match parse_expr(ts, q + 1) {
                            Ok((rhs, r)) => Ok(
                                (ExprView::Comparison(Box::new(lhs), op, Box::new(rhs)), r),
                            ),
                            Err(f) => Err(f),
                        },
                    },
                    _ => Ok((lhs, q)),
                }
            },
        }
    }
}

/// An expression always takes at least one token.
pub proof fn lemma_expr_progress(ts: Seq<TokenView>, p: int)
    ensures
        parse_expr(ts, p) matches Ok((_, q)) ==> p < q <= ts.len(),
    decreases ts.len() - p,
{
    if 0 <= p < ts.len() {
        lemma_expr_progress(ts, p + 1);
        if ts[p] != TokenView::BinaryOperator('-') {
            let first = if ts[p] == TokenView::Delimiter('(') {
                match parse_expr(ts, p + 1) {
                    Ok((e, q)) => if tok(ts, q) == Some(TokenView::Delimiter(')')) {
                        Ok((ExprView::Group(Box::new(e)), q + 1))
                    } else {
                        Err(mismatch(ts, q, "expected ')'"@))
                    },
                    Err(f) => Err(f),
                }
            } else {
                match atom_of(ts[p]) {
                    Some(ExprView::Number(s)) => if valid_number(s) {
                        Ok((ExprView::Number(s), p + 1))
                    } else {
                        Err(ParseFault::Malformed(p))
                    },
                    Some(e) => Ok((e, p + 1)),
                    None => Err(ParseFault::Syntax(p, "expected an expression"@)),
                }
            };
            if let Ok((_, q)) = first {
                if q > p && q < ts.len() {
                    lemma_expr_progress(ts, q + 1);
                }
            }
        }
    }
}

/// A token that may begin an argument of `log`.
pub open spec fn starts_argument(t: TokenView) -> bool {
    match t {
        TokenView::Str(_) | TokenView::Number(_) | TokenView::Identifier(_) => true,
        TokenView::Delimiter(c) => c == '(',
        TokenView::BinaryOperator(c) => c == '-',
        TokenView::Keyword(w) => w == "true"@ || w == "false"@,
        _ => false,
    }
}

/// A token other than an identifier that begins an expression statement.
pub open spec fn starts_expression_statement(t: TokenView) -> bool {
    match t {
        TokenView::Str(_) | TokenView::Number(_) => true,
        TokenView::Delimiter(c) => c == '(',
        TokenView::BinaryOperator(c) => c == '-',
        TokenView::Keyword(w) => w == "true"@ || w == "false"@,
        _ => false,
    }
}

/// The comma-separated arguments of `log` from `p` on, after `acc`.
pub open spec fn parse_args(ts: Seq<TokenView>, p: int, acc: Seq<ExprView>) -> Result<
    (Seq<ExprView>, int),
    ParseFault,
>
    decreases ts.len() - p,
{
    if 0 <= p < ts.len() && starts_argument(ts[p]) {
        match parse_expr(ts, p) {
            Ok((e, q)) => {
                proof {
                    lemma_expr_progress(ts, p);
                }
                if tok(ts, q) == Some(TokenView::Delimiter(',')) {
                    parse_args(ts, q + 1, acc.push(e))
                } else {
                    Ok((acc.push(e), q))
                }
            },
            Err(f) => Err(f),
        }
    } else {
        Ok((acc, p))
    }
}

/// `;` at `q` ends the statement `s`.
pub open spec fn then_semicolon(ts: Seq<TokenView>, s: StmtView, q: int) -> Result<
    (StmtView, int),
    ParseFault,
> {
    if tok(ts, q) == Some(TokenView::Delimiter(';')) {
        Ok((s, q + 1))
    } else {
        Err(mismatch(ts, q, "expected ';'"@))
    }
}

/// A statement starting at `p`, with the position after it.
pub open spec fn parse_stmt(ts: Seq<TokenView>, p: int) -> Result<(StmtView, int), ParseFault>
    decreases ts.len() - p, 2int,
{
    if p < 0 || p >= ts.len() {
        Err(ParseFault::OutOfBounds(p))
    } else {
        let t = ts[p];
        proof {
            lemma_expr_progress(ts, p + 2);
        }
        if t == TokenView::Keyword("var"@) {
            match tok(ts, p + 1) {
                Some(TokenView::Identifier(name)) => if tok(ts, p + 2) == Some(TokenView::Equals) {
                    match parse_expr(ts, p + 3) {
                        Ok((e, q)) => then_semicolon(ts, StmtView::Declaration(name, e), q),
                        Err(f) => Err(f),
                    }
                } else {
                    Err(mismatch(ts, p + 2, "expected '='"@))
                },
                _ => Err(mismatch(ts, p + 1, "expected an identifier after `var`"@)),
            }
        } else if t == TokenView::Keyword("log"@) {
            match parse_args(ts, p + 1, seq![]) {
                Ok((args, q)) => then_semicolon(ts, StmtView::Log(args), q),
                Err(f) => Err(f),
            }
        } else if t == TokenView::Keyword("if"@) {
            if tok(ts, p + 1) == Some(TokenView::Delimiter('(')) {
                match parse_expr(ts, p + 2) {
                    Ok((c, q)) => if tok(ts, q) != Some(TokenView::Delimiter(')')) {
                        Err(mismatch(ts, q, "expected ')'"@))
                    } else if tok(ts, q + 1) != Some(TokenView::Keyword("then"@)) {
                        Err(mismatch(ts, q + 1, "expected `then`"@))
                    } else if tok(ts, q + 2) != Some(TokenView::Delimiter('{')) {
                        Err(mismatch(ts, q + 2, "expected '{'"@))
                    } else {
                        match parse_block(ts, q + 2) {
                            Ok((b, r)) => Ok((StmtView::If(c, Box::new(b)), r)),
                            Err(f) => Err(f),
                        }
                    },
                    Err(f) => Err(f),
                }
            } else {
                Err(mismatch(ts, p + 1, "expected '('"@))
            }
        } else if t == TokenView::Delimiter('{') {
            parse_block(ts, p)
        } else if t == TokenView::Delimiter(';') {
            Ok((StmtView::Empty, p + 1))
        } else if t is Identifier && tok(ts, p + 1) == Some(TokenView::Equals) {
            match parse_expr(ts, p + 2) {
                Ok((e, q)) => then_semicolon(
                    ts,
                    StmtView::Reassignment(t->Identifier_0, e),
                    q,
                ),
                Err(f) => Err(f),
            }
        } else if t is Identifier || starts_expression_statement(t) {
            match parse_expr(ts, p) {
                Ok((e, q)) => then_semicolon(ts, StmtView::Expression(e), q),
                Err(f) => Err(f),
            }
        } else {
            Err(ParseFault::Unknown(p))
        }
    }
}

/// A block whose `{` stands at `p`.
pub open spec fn parse_block(ts: Seq<TokenView>, p: int) -> Result<(StmtView, int), ParseFault>
    decreases ts.len() - p, 1int,
{
    if p < 0 || p >= ts.len() {
        Err(ParseFault::OutOfBounds(p))
    } else {
        parse_block_items(ts, p + 1, seq![])
    }
}

/// The statements of a block from `p` up to its `}`, after `acc`.
pub open spec fn parse_block_items(ts: Seq<TokenView>, p: int, acc: Seq<StmtView>) -> Result<
    (StmtView, int),
    ParseFault,
>
    decreases ts.len() - p, 3int,
{
    if p < 0 || p >= ts.len() {
        Err(ParseFault::OutOfBounds(p))
    } else if ts[p] == TokenView::Delimiter('}') {
        Ok((StmtView::Block(acc), p + 1))
    } else if ts[p] == TokenView::EndOfFile {
        Err(ParseFault::Syntax(p, "expected '}'"@))
    } else {
        match parse_stmt(ts, p) {
            Ok((s, q)) => if q <= p || q > ts.len() {
                // Not reached: a statement takes at least one token
                // (`lemma_stmt_progress`).
                Err(ParseFault::Unknown(p))
            } else {
                parse_block_items(ts, q, acc.push(s))
            },
            Err(f) => Err(f),
        }
    }
}

/// The statements from `p` up to the end of the tokens or the first
/// end-of-file token, after `acc`, and the error that stopped them if any.
pub open spec fn parse_from(ts: Seq<TokenView>, p: int, acc: Seq<StmtView>) -> (
    Seq<StmtView>,
    Option<ParseFault>,
)
    decreases ts.len() - p,
{
    if p < 0 || p >= ts.len() || ts[p] == TokenView::EndOfFile {
        (acc, None)
    } else {
        match parse_stmt(ts, p) {
            Ok((s, q)) => if q <= p || q > ts.len() {
                // Not reached: a statement takes at least one token
                // (`lemma_stmt_progress`).
                (acc.push(s), Some(ParseFault::Unknown(p)))
            } else {
                parse_from(ts, q, acc.push(s))
            },
            Err(f) => (acc, Some(f)),
        }
    }
}

/// The arguments of `log` never move the position backwards.
pub proof fn lemma_args_progress(ts: Seq<TokenView>, p: int, acc: Seq<ExprView>)
    requires
        0 <= p <= ts.len(),
    ensures
        parse_args(ts, p, acc) matches Ok((_, q)) ==> p <= q <= ts.len(),
    decreases ts.len() - p,
{
    if 0 <= p < ts.len() && starts_argument(ts[p]) {
        lemma_expr_progress(ts, p);
        if let Ok((e, q)) = parse_expr(ts, p) {
            if tok(ts, q) == Some(TokenView::Delimiter(',')) {
                lemma_args_progress(ts, q + 1, acc.push(e));
            }
        }
    }
}

/// A statement always takes at least one token, so the guards marked "not
/// reached" above never apply.
pub proof fn lemma_stmt_progress(ts: Seq<TokenView>, p: int)
    ensures
        parse_stmt(ts, p) matches Ok((_, q)) ==> p < q <= ts.len(),
    decreases ts.len() - p, 2int,
{
    if 0 <= p < ts.len() {
        lemma_expr_progress(ts, p);
        lemma_expr_progress(ts, p + 2);
        lemma_expr_progress(ts, p + 3);
        lemma_args_progress(ts, p + 1, seq![]);
        let t = ts[p];
        if t == TokenView::Keyword("if"@) {
            if let Ok((c, q)) = parse_expr(ts, p + 2) {
                if tok(ts, q + 2) == Some(TokenView::Delimiter('{')) {
                    lemma_block_progress(ts, q + 2);
                }
            }
        } else if t == TokenView::Delimiter('{') {
            lemma_block_progress(ts, p);
        }
    }
}

pub proof fn lemma_block_progress(ts: Seq<TokenView>, p: int)
    ensures
        parse_block(ts, p) matches Ok((_, q)) ==> p < q <= ts.len(),
    decreases ts.len() - p, 1int,
{
    if 0 <= p < ts.len() {
        lemma_items_progress(ts, p + 1, seq![]);
    }
}

pub proof fn lemma_items_progress(ts: Seq<TokenView>, p: int, acc: Seq<StmtView>)
    ensures
        parse_block_items(ts, p, acc) matches Ok((_, q)) ==> p < q <= ts.len(),
    decreases ts.len() - p, 3int,
{
    if 0 <= p < ts.len() && ts[p] != TokenView::Delimiter('}') && ts[p] != TokenView::EndOfFile {
        lemma_stmt_progress(ts, p);
        if let Ok((s, q)) = parse_stmt(ts, p) {
            if q > p && q <= ts.len() {
                lemma_items_progress(ts, q, acc.push(s));
            }
        }
    }
}

/// The program that the tokens `ts` make.
pub open spec fn parse_program(ts: Seq<TokenView>) -> (Seq<StmtView>, Option<ParseFault>) {
    parse_from(ts, 0, seq![])
}

/// Parses a token stream into statements, stopping at the first error.
pub struct Parser {
    /// The statements parsed so far.
    pub program: Vec<Stmt>,
    tokens: Vec<Token>,
    current: usize,
    debug: u8,
}

pub open spec fn expr_result(r: Result<(Expr, usize), ParserError>) -> Result<
    (ExprView, int),
    ParseFault,
> {
    match r {
        Ok((e, q)) => Ok((e@, q as int)),
        Err(f) => Err(f@),
    }
}

pub open spec fn stmt_result(r: Result<(Stmt, usize), ParserError>) -> Result<
    (StmtView, int),
    ParseFault,
> {
    match r {
        Ok((s, q)) => Ok((s@, q as int)),
        Err(f) => Err(f@),
    }
}

fn syntax(p: usize, message: &str) -> (r: ParserError)
    ensures
        r@ == ParseFault::Syntax(p as int, message@),
{
    ParserError::SyntaxError { position: p, message: message.to_owned() }
}

fn is_word(t: &Token, w: &str) -> (r: bool)
    ensures
        r == (t@ == TokenView::Keyword(w@)),
{
    match t {
        Token::Keyword(k) => same_text(k.as_str(), w),
        _ => false,
    }
}

/// Whether `s` is a well-formed number literal.
fn check_number(s: &String) -> (r: bool)
    ensures
        r == valid_number(s@),
{
    let mut seen_dot = false;
    let mut seen_digit = false;
    let mut ok = true;
    for c in it: s.as_str().chars()
        invariant
            it.seq() == s@,
            it.index() <= s@.len(),
            ok == ((forall|i: int| 0 <= i < it.index() ==> is_digit(#[trigger] s@[i]) || s@[i] == '.')
                && (forall|i: int, j: int|
                #![trigger s@[i], s@[j]]
                0 <= i < j < it.index() && s@[i] == '.' ==> s@[j] != '.')),
            seen_dot <==> exists|i: int| 0 <= i < it.index() && #[trigger] s@[i] == '.',
            seen_digit <==> exists|i: int| 0 <= i < it.index() && is_digit(#[trigger] s@[i]),
    {
        let ghost k = it.index() as int;
        assert(s@[k] == c);
        if '0' <= c && c <= '9' {
            seen_digit = true;
        } else if c == '.' {
            if seen_dot {
                let ghost w = choose|i: int| 0 <= i < k && #[trigger] s@[i] == '.';
                assert(s@[w] == '.' && s@[k] == '.');
                ok = false;
            }
            seen_dot = true;
        } else {
            ok = false;
        }
    }
    ok && seen_digit
}

impl Parser {
    pub closed spec fn tokens_view(&self) -> Seq<TokenView> {
        self.tokens@.map_values(|t: Token| t@)
    }

    /// Index of the next token to parse.
    pub closed spec fn position(&self) -> int {
        self.current as int
    }

    pub closed spec fn debug_level(&self) -> u8 {
        self.debug
    }

    /// The statements parsed so far.
    pub closed spec fn statements(&self) -> Seq<StmtView> {
        stmts_view(self.program@)
    }

    /// A parser at the first of `tokens`, with no statements yet.
    pub fn new(tokens: Vec<Token>, debug: u8) -> (r: Parser)
        ensures
            r.tokens_view() == tokens@.map_values(|t: Token| t@),
            r.position() == 0,
            r.statements() == Seq::<StmtView>::empty(),
            r.debug_level() == debug,
    {
        let r = Parser { program: Vec::new(), tokens, current: 0, debug };
        assert(r.statements() =~= Seq::<StmtView>::empty());
        r
    }

    /// Parses `tokens` whole: the statements before the first error, and
    /// that error if there is one.
    pub fn parse(tokens: Vec<Token>) -> (r: (Vec<Stmt>, Result<(), ParserError>))
        ensures
            ({
                let (stmts, fault) = parse_program(tokens@.map_values(|t: Token| t@));
                &&& stmts_view(r.0@) == stmts
                &&& r.1 is Ok <==> fault is None
                &&& r.1 matches Err(e) ==> fault == Some(e@)
            }),
    {
        let mut parser = Parser::new(tokens, 0);
        let res = parser.parse_all();
        (parser.program, res)
    }

    /// The statements parsed so far.
    pub fn get_program_node(&self) -> (r: &Vec<Stmt>)
        ensures
            stmts_view(r@) == self.statements(),
    {
        &self.program
    }

    /// Parses statements from the current token up to the end, appending them
    /// to `program`; stops at the first error and returns it.
    pub fn parse_all(&mut self) -> (r: Result<(), ParserError>)
        ensures
            final(self).tokens_view() == old(self).tokens_view(),
            ({
                let (stmts, fault) = parse_from(
                    old(self).tokens_view(),
                    old(self).position(),
                    old(self).statements(),
                );
                &&& final(self).statements() == stmts
                &&& r is Ok <==> fault is None
                &&& r matches Err(e) ==> fault == Some(e@)
            }),
    {
        let ghost goal = parse_from(
            self.tokens_view(),
            self.position(),
            stmts_view(self.program@),
        );
        loop
            invariant
                self.tokens_view() == old(self).tokens_view(),
                goal == parse_from(old(self).tokens_view(), old(self).position(), stmts_view(old(self).program@)),
                goal == parse_from(self.tokens_view(), self.position(), stmts_view(self.program@)),
            decreases self.tokens.len() - self.current,
        {
            if self.current >= self.tokens.len() {
                return Ok(());
            }
            if let Token::EndOfFile = &self.tokens[self.current] {
                return Ok(());
            }
            let ghost before = self.program@;
            match self.statement(self.current) {
                Ok((s, q)) => {
                    self.program.push(s);
                    proof {
                        lemma_stmts_view_push(before, s);
                    }
                    self.current = q;
                },
                Err(e) => {
                    return Err(e);
                },
            }
        }
    }

    /// An expression starting at `p`.
    fn expression(&self, p: usize) -> (r: Result<(Expr, usize), ParserError>)
        ensures
            expr_result(r) == parse_expr(self.tokens_view(), p as int),
            r matches Ok((_, q)) ==> p < q <= self.tokens.len(),
        decreases self.tokens.len() - p,
    {
        let ghost ts = self.tokens_view();
        proof {
            lemma_expr_progress(ts, p as int);
        }
        if p >= self.tokens.len() {
            return Err(ParserError::CurrentIndexOutOfBounds(p));
        }
        assert(ts[p as int] == self.tokens@[p as int]@);
        if let Token::BinaryOperator('-') = &self.tokens[p] {
            if p + 1 >= self.tokens.len() {
                return Err(ParserError::CurrentIndexOutOfBounds(p + 1));
            }
            assert(ts[p + 1] == self.tokens@[p + 1]@);
            match &self.tokens[p + 1] {
                Token::Number(_) | Token::Identifier(_) | Token::Delimiter('(') => {
                    match self.expression(p + 1) {
                        Ok((e, q)) => {
                            return Ok((Expr::UnaryExpression(UnaryOperation::Minus, Box::new(e)), q));
                        },
                        Err(f) => {
                            return Err(f);
                        },
                    }
                },
                _ => {
                    return Err(
                        syntax(p + 1, "expected a number, identifier or '(' after '-'"),
                    );
                },
            }
        }
        let (lhs, q) = match &self.tokens[p] {
            Token::Delimiter('(') => {
                match self.expression(p + 1) {
                    Ok((e, q)) => {
                        if q < self.tokens.len() {
                            assert(ts[q as int] == self.tokens@[q as int]@);
                            if let Token::Delimiter(')') = &self.tokens[q] {
                                (Expr::GroupExpression(Box::new(e)), q + 1)
                            } else {
                                return Err(syntax(q, "expected ')'"));
                            }
                        } else {
                            return Err(ParserError::CurrentIndexOutOfBounds(q));
                        }
                    },
                    Err(f) => {
                        return Err(f);
                    },
                }
            },
            Token::Keyword(w) => {
                if same_text(w.as_str(), "true") {
                    (Expr::Boolean(Boolean::True), p + 1)
                } else if same_text(w.as_str(), "false") {
                    (Expr::Boolean(Boolean::False), p + 1)
                } else if same_text(w.as_str(), "nil") {
                    (Expr::NilLiteral, p + 1)
                } else {
                    return Err(syntax(p, "expected an expression"));
                }
            },
            Token::String(s) => (Expr::StringLiteral(s.clone()), p + 1),
            Token::Number(s) => {
                if check_number(s) {
                    (Expr::NumberLiteral(s.clone()), p + 1)
                } else {
                    return Err(ParserError::MalformedNumber { position: p });
                }
            },
            Token::Identifier(s) => (Expr::Identifier(s.clone()), p + 1),
            _ => {
                return Err(syntax(p, "expected an expression"));
            },
        };
        let ghost first = if ts[p as int] == TokenView::Delimiter('(') {
            match parse_expr(ts, p + 1) {
                Ok((e, q)) => if tok(ts, q) == Some(TokenView::Delimiter(')')) {
                    Ok((ExprView::Group(Box::new(e)), q + 1))
                } else {
                    Err(mismatch(ts, q, "expected ')'"@))
                },
                Err(f) => Err(f),
            }
        } else {
            match atom_of(ts[p as int]) {
                Some(ExprView::Number(s)) => if valid_number(s) {
                    Ok((ExprView::Number(s), p + 1))
                } else {
                    Err(ParseFault::Malformed(p as int))
                },
                Some(e) => Ok((e, p + 1)),
                None => Err(ParseFault::Syntax(p as int, "expected an expression"@)),
            }
        };
        assert(first == Ok::<(ExprView, int), ParseFault>((lhs@, q as int)));
        if q >= self.tokens.len() {
            return Ok((lhs, q));
        }
        assert(ts[q as int] == self.tokens@[q as int]@);
        match &self.tokens[q] {
            Token::BinaryOperator(c) => {
                let op = if *c == '+' {
                    BinaryExprOperator::Plus
                } else if *c == '-' {
                    BinaryExprOperator::Minus
                } else if *c == '*' {
                    BinaryExprOperator::Multiply
                } else if *c == '/' {
                    BinaryExprOperator::Divide
                } else if *c == '%' {
                    BinaryExprOperator::Modulus
                } else {
                    return Err(ParserError::UnknownToken { position: q });
                };
                match self.expression(q + 1) {
                    Ok((rhs, r)) => Ok(
                        (
                            Expr::BinaryExpression {
                                left_side: Box::new(lhs),
                                right_side: Box::new(rhs),
                                operator: op,
                            },
                            r,
                        ),
                    ),
                    Err(f) => Err(f),
                }
            },
            Token::ComparisonOperator(c) => {
                let op = if *c == '<' {
                    ComparisonOperator::LessThan
                } else if *c == '>' {
                    ComparisonOperator::GreaterThan
                } else {
                    return Err(ParserError::UnknownToken { position: q });
                };
                match self.expression(q + 1) {
                    Ok((rhs, r)) => Ok(
                        (
                            Expr::ComparisonExpression {
                                lhs: Box::new(lhs),
                                rhs: Box::new(rhs),
                                operator: op,
                            },
                            r,
                        ),
                    ),
                    Err(f) => Err(f),
                }
            },
            _ => Ok((lhs, q)),
        }
    }

    /// The error for a token at `p` that is not the one expected.
    fn mismatch(&self, p: usize, message: &str) -> (r: ParserError)
        ensures
            r@ == mismatch(self.tokens_view(), p as int, message@),
    {
        if p < self.tokens.len() {
            syntax(p, message)
        } else {
            ParserError::CurrentIndexOutOfBounds(p)
        }
    }

    /// Whether the token at `p` is the delimiter `d`.
    fn delimiter_at(&self, p: usize, d: char) -> (r: bool)
        ensures
            r == (tok(self.tokens_view(), p as int) == Some(TokenView::Delimiter(d))),
    {
        if p < self.tokens.len() {
            assert(self.tokens_view()[p as int] == self.tokens@[p as int]@);
            match &self.tokens[p] {
                Token::Delimiter(c) => *c == d,
                _ => false,
            }
        } else {
            false
        }
    }

    /// `;` at `q` ends the statement `s`.
    fn then_semicolon(&self, s: Stmt, q: usize) -> (r: Result<(Stmt, usize), ParserError>)
        requires
            q <= self.tokens.len(),
        ensures
            stmt_result(r) == then_semicolon(self.tokens_view(), s@, q as int),
            r matches Ok((_, e)) ==> e == q + 1,
    {
        if self.delimiter_at(q, ';') {
            Ok((s, q + 1))
        } else {
            Err(self.mismatch(q, "expected ';'"))
        }
    }

    /// The comma-separated arguments of `log` from `p` on.
    fn arguments(&self, p: usize) -> (r: Result<(Vec<Expr>, usize), ParserError>)
        requires
            p <= self.tokens.len(),
        ensures
            match r {
                Ok((v, q)) => parse_args(self.tokens_view(), p as int, seq![]) == Ok::<
                    (Seq<ExprView>, int),
                    ParseFault,
                >((exprs_view(v@), q as int)) && p <= q <= self.tokens.len(),
                Err(f) => parse_args(self.tokens_view(), p as int, seq![]) == Err::<
                    (Seq<ExprView>, int),
                    ParseFault,
                >(f@),
            },
    {
        let ghost ts = self.tokens_view();
        let mut args: Vec<Expr> = Vec::new();
        let mut q = p;
        proof {
            assert(exprs_view(args@) =~= seq![]);
        }
        loop
            invariant
                ts == self.tokens_view(),
                p <= q <= self.tokens.len(),
                parse_args(ts, p as int, seq![]) == parse_args(ts, q as int, exprs_view(args@)),
            decreases self.tokens.len() - q,
        {
            if q >= self.tokens.len() {
                return Ok((args, q));
            }
            assert(ts[q as int] == self.tokens@[q as int]@);
            let starts = match &self.tokens[q] {
                Token::String(_) | Token::Number(_) | Token::Identifier(_) => true,
                Token::Delimiter(c) => *c == '(',
                Token::BinaryOperator(c) => *c == '-',
                Token::Keyword(w) => same_text(w.as_str(), "true") || same_text(
                    w.as_str(),
                    "false",
                ),
                _ => false,
            };
            if !starts {
                return Ok((args, q));
            }
            let ghost before = args@;
            match self.expression(q) {
                Ok((e, r)) => {
                    args.push(e);
                    assert(exprs_view(args@) =~= exprs_view(before).push(e@));
                    if self.delimiter_at(r, ',') {
                        q = r + 1;
                    } else {
                        return Ok((args, r));
                    }
                },
                Err(f) => {
                    return Err(f);
                },
            }
        }
    }

    /// A statement starting at `p`.
    fn statement(&self, p: usize) -> (r: Result<(Stmt, usize), ParserError>)
        ensures
            stmt_result(r) == parse_stmt(self.tokens_view(), p as int),
            r matches Ok((_, q)) ==> p < q <= self.tokens.len(),
        decreases self.tokens.len() - p, 2int,
    {
        let ghost ts = self.tokens_view();
        if p >= self.tokens.len() {
            return Err(ParserError::CurrentIndexOutOfBounds(p));
        }
        proof {
            lemma_expr_progress(ts, p + 2);
        }
        assert(ts[p as int] == self.tokens@[p as int]@);
        let t = &self.tokens[p];
        if is_word(t, "var") {
            if p + 1 >= self.tokens.len() {
                return Err(ParserError::CurrentIndexOutOfBounds(p + 1));
            }
            assert(ts[p + 1] == self.tokens@[p + 1]@);
            let name = match &self.tokens[p + 1] {
                Token::Identifier(n) => n.clone(),
                _ => {
                    return Err(syntax(p + 1, "expected an identifier after `var`"));
                },
            };
            if p + 2 >= self.tokens.len() {
                return Err(ParserError::CurrentIndexOutOfBounds(p + 2));
            }
            assert(ts[p + 2] == self.tokens@[p + 2]@);
            if let Token::Equals = &self.tokens[p + 2] {
            } else {
                return Err(syntax(p + 2, "expected '='"));
            }
            match self.expression(p + 3) {
                Ok((e, q)) => self.then_semicolon(Stmt::VariableDeclaration { name, value: e }, q),
                Err(f) => Err(f),
            }
        } else if is_word(t, "log") {
            match self.arguments(p + 1) {
                Ok((args, q)) => self.then_semicolon(Stmt::LogStatement(args), q),
                Err(f) => Err(f),
            }
        } else if is_word(t, "if") {
            if !self.delimiter_at(p + 1, '(') {
                return Err(self.mismatch(p + 1, "expected '('"));
            }
            let (c, q) = match self.expression(p + 2) {
                Ok(x) => x,
                Err(f) => {
                    return Err(f);
                },
            };
            if !self.delimiter_at(q, ')') {
                return Err(self.mismatch(q, "expected ')'"));
            }
            if q + 1 >= self.tokens.len() {
                return Err(ParserError::CurrentIndexOutOfBounds(q + 1));
            }
            assert(ts[q + 1] == self.tokens@[q + 1]@);
            if !is_word(&self.tokens[q + 1], "then") {
                return Err(syntax(q + 1, "expected `then`"));
            }
            if !self.delimiter_at(q + 2, '{') {
                return Err(self.mismatch(q + 2, "expected '{'"));
            }
            match self.block(q + 2) {
                Ok((b, r)) => Ok((Stmt::IfStatement { condition: c, body: Box::new(b) }, r)),
                Err(f) => Err(f),
            }
        } else if self.delimiter_at(p, '{') {
            self.block(p)
        } else if self.delimiter_at(p, ';') {
            Ok((Stmt::EmptyStatement, p + 1))
        } else {
            let is_ident = match t {
                Token::Identifier(_) => true,
                _ => false,
            };
            let assigns = is_ident && p + 1 < self.tokens.len() && match &self.tokens[p + 1] {
                Token::Equals => true,
                _ => false,
            };
            if p + 1 < self.tokens.len() {
                assert(ts[p + 1] == self.tokens@[p + 1]@);
            }
            if assigns {
                let name = match t {
                    Token::Identifier(n) => n.clone(),
                    _ => {
                        return Err(ParserError::UnknownToken { position: p });
                    },
                };
                match self.expression(p + 2) {
                    Ok((e, q)) => self.then_semicolon(
                        Stmt::VariableReassignment { name, value: e },
                        q,
                    ),
                    Err(f) => Err(f),
                }
            } else {
                let starts = match t {
                    Token::Identifier(_) | Token::String(_) | Token::Number(_) => true,
                    Token::Delimiter(c) => *c == '(',
                    Token::BinaryOperator(c) => *c == '-',
                    Token::Keyword(w) => same_text(w.as_str(), "true") || same_text(
                        w.as_str(),
                        "false",
                    ),
                    _ => false,
                };
                if starts {
                    match self.expression(p) {
                        Ok((e, q)) => self.then_semicolon(Stmt::ExpressionStatement(e), q),
                        Err(f) => Err(f),
                    }
                } else {
                    Err(ParserError::UnknownToken { position: p })
                }
            }
        }
    }

    /// A block whose `{` stands at `p`.
    fn block(&self, p: usize) -> (r: Result<(Stmt, usize), ParserError>)
        requires
            p < self.tokens.len(),
        ensures
            stmt_result(r) == parse_block(self.tokens_view(), p as int),
            r matches Ok((_, q)) ==> p < q <= self.tokens.len(),
        decreases self.tokens.len() - p, 1int,
    {
        let ghost ts = self.tokens_view();
        let mut stmts: Vec<Stmt> = Vec::new();
        let mut q = p + 1;
        proof {
            assert(stmts_view(stmts@) =~= seq![]);
        }
        loop
            invariant
                ts == self.tokens_view(),
                p < q <= self.tokens.len(),
                parse_block(ts, p as int) == parse_block_items(ts, q as int, stmts_view(stmts@)),
            decreases self.tokens.len() - q,
        {
            if q >= self.tokens.len() {
                return Err(ParserError::CurrentIndexOutOfBounds(q));
            }
            assert(ts[q as int] == self.tokens@[q as int]@);
            match &self.tokens[q] {
                Token::Delimiter('}') => {
                    return Ok((Stmt::BlockStatement(stmts), q + 1));
                },
                Token::EndOfFile => {
                    return Err(syntax(q, "expected '}'"));
                },
                _ => {},
            }
            let ghost before = stmts@;
            match self.statement(q) {
                Ok((s, r)) => {
                    stmts.push(s);
                    proof {
                        lemma_stmts_view_push(before, s);
                    }
                    q = r;
                },
                Err(f) => {
                    return Err(f);
                },
            }
        }
    }
}

} // verus!

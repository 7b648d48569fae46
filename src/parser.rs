use vstd::prelude::*;
use std::rc::Rc;
use crate::ast::{Ast, Expr, asts, names};
use crate::tokenizer::Token;

verus! {

/// Why a token sequence is not an expression.
#[derive(Debug, PartialEq)]
pub enum ParseError {
    /// A token (or the end of input) where an expression must start.
    UnexpectedToken(Option<Token>),
    MissingRightParen,
    MissingArgumentSeparator,
    MissingArrow,
    MissingSwitchArrow,
    MissingRightBracket,
    MissingRightBrace,
}

pub open spec fn tok(ts: Seq<Token>, p: int) -> Option<Token> {
    if 0 <= p < ts.len() {
        Some(ts[p])
    } else {
        None
    }
}

/// The operators of a binary level: comparisons, then sums, then products.
pub open spec fn level_op(level: nat, t: Token) -> bool {
    if level == 0 {
        t is Greater || t is Less || t is LessEqual || t is GreaterEqual || t is EqualEqual
    } else if level == 1 {
        t is Plus || t is Minus
    } else {
        t is Mul || t is Div || t is Mod
    }
}

/// A token that starts a leaf.
pub open spec fn leaf_start(t: Token) -> bool {
    t is Number || t is LParen || t is Identifier || t is Function || t is While || t is LBracket
        || t is LBrace
}

/// Parses an expression of precedence `level` at position `p`: 0 to 2 are the
/// binary levels, 3 a call chain, 4 a leaf. The result holds the tree and the
/// position after it.
pub open spec fn parse_expr(ts: Seq<Token>, p: int, level: nat) -> Result<(Ast, int), ParseError>
    decreases ts.len() - p, 5 - level,
{
    if p < 0 || p > ts.len() || level > 4 {
        Err(ParseError::UnexpectedToken(None))
    } else if level < 4 {
        match parse_expr(ts, p, level + 1) {
            Err(e) => Err(e),
            Ok((l, q)) => if p < q <= ts.len() {
                if level < 3 {
                    binary_chain(ts, level, l, q)
                } else {
                    call_chain(ts, l, q)
                }
            } else {
                Err(ParseError::UnexpectedToken(None))
            },
        }
    } else {
        parse_leaf(ts, p)
    }
}

/// Left-associative operators of a binary level that follow `left` at `q`.
pub open spec fn binary_chain(ts: Seq<Token>, level: nat, left: Ast, q: int) -> Result<(Ast, int), ParseError>
    decreases ts.len() - q, 0int,
{
    if 0 <= q < ts.len() && level <= 2 && level_op(level, ts[q]) {
        match parse_expr(ts, q + 1, level + 1) {
            Err(e) => Err(e),
            Ok((r, q2)) => if q + 1 < q2 <= ts.len() {
                binary_chain(
                    ts,
                    level,
                    Ast::BinaryOperator { left: Box::new(left), right: Box::new(r), op: ts[q] },
                    q2,
                )
            } else {
                Err(ParseError::UnexpectedToken(None))
            },
        }
    } else {
        Ok((left, q))
    }
}

/// Argument lists that follow the callee `left` at `q`.
pub open spec fn call_chain(ts: Seq<Token>, left: Ast, q: int) -> Result<(Ast, int), ParseError>
    decreases ts.len() - q, 0int,
{
    if 0 <= q < ts.len() && tok(ts, q) == Some(Token::LParen) {
        if tok(ts, q + 1) == Some(Token::RParen) {
            call_chain(ts, Ast::FunctionCall(Box::new(left), Seq::empty()), q + 2)
        } else {
            match arguments(ts, q + 1, Seq::empty()) {
                Err(e) => Err(e),
                Ok((args, q2)) => if q + 1 < q2 <= ts.len() {
                    call_chain(ts, Ast::FunctionCall(Box::new(left), args), q2)
                } else {
                    Err(ParseError::UnexpectedToken(None))
                },
            }
        }
    } else {
        Ok((left, q))
    }
}

/// Comma-separated arguments up to and including the closing parenthesis.
pub open spec fn arguments(ts: Seq<Token>, p: int, acc: Seq<Ast>) -> Result<(Seq<Ast>, int), ParseError>
    decreases ts.len() - p, 6int,
{
    if p < 0 || p > ts.len() {
        Err(ParseError::UnexpectedToken(None))
    } else {
        match parse_expr(ts, p, 0) {
            Err(e) => Err(e),
            Ok((a, q)) => if p < q <= ts.len() {
                if tok(ts, q) == Some(Token::Comma) {
                    arguments(ts, q + 1, acc.push(a))
                } else if tok(ts, q) == Some(Token::RParen) {
                    Ok((acc.push(a), q + 1))
                } else {
                    Err(ParseError::MissingArgumentSeparator)
                }
            } else {
                Err(ParseError::UnexpectedToken(None))
            },
        }
    }
}

/// Parameter names of a function, separated by commas.
pub open spec fn parameters(ts: Seq<Token>, p: int, acc: Seq<Seq<char>>) -> (Seq<Seq<char>>, int)
    decreases ts.len() - p,
{
    if 0 <= p < ts.len() && ts[p] is Identifier {
        if tok(ts, p + 1) == Some(Token::Comma) {
            parameters(ts, p + 2, acc.push(ts[p]->Identifier_0@))
        } else {
            (acc.push(ts[p]->Identifier_0@), p + 1)
        }
    } else {
        (acc, p)
    }
}

/// The expressions of a block, separated by semicolons.
pub open spec fn statements(ts: Seq<Token>, p: int, acc: Seq<Ast>) -> Result<(Seq<Ast>, int), ParseError>
    decreases ts.len() - p, 6int,
{
    if p < 0 || p > ts.len() {
        Err(ParseError::UnexpectedToken(None))
    } else {
        match parse_expr(ts, p, 0) {
            Err(e) => Err(e),
            Ok((e, q)) => if p < q <= ts.len() {
                if tok(ts, q) == Some(Token::SemiColon) {
                    statements(ts, q + 1, acc.push(e))
                } else {
                    Ok((acc.push(e), q))
                }
            } else {
                Err(ParseError::UnexpectedToken(None))
            },
        }
    }
}

/// The `condition -> branch` arms of a switch, separated by commas.
pub open spec fn arms(ts: Seq<Token>, p: int, cs: Seq<Ast>, bs: Seq<Ast>) -> Result<
    (Seq<Ast>, Seq<Ast>, int),
    ParseError,
>
    decreases ts.len() - p, 6int,
{
    if p < 0 || p > ts.len() {
        Err(ParseError::UnexpectedToken(None))
    } else {
        match parse_expr(ts, p, 0) {
            Err(e) => Err(e),
            Ok((c, q)) => if p < q <= ts.len() {
                if tok(ts, q) == Some(Token::Arrow) {
                    match parse_expr(ts, q + 1, 0) {
                        Err(e) => Err(e),
                        Ok((b, q2)) => if q + 1 < q2 <= ts.len() {
                            if tok(ts, q2) == Some(Token::Comma) {
                                arms(ts, q2 + 1, cs.push(c), bs.push(b))
                            } else {
                                Ok((cs.push(c), bs.push(b), q2))
                            }
                        } else {
                            Err(ParseError::UnexpectedToken(None))
                        },
                    }
                } else {
                    Err(ParseError::MissingSwitchArrow)
                }
            } else {
                Err(ParseError::UnexpectedToken(None))
            },
        }
    }
}

/// The forms that start with a token of their own.
pub open spec fn parse_leaf(ts: Seq<Token>, p: int) -> Result<(Ast, int), ParseError>
    decreases ts.len() - p, 0int,
{
    if p < 0 || p >= ts.len() {
        Err(ParseError::UnexpectedToken(None))
    } else {
        match ts[p] {
            Token::Number(t) => Ok((Ast::Number(t@), p + 1)),
            Token::LParen => match parse_expr(ts, p + 1, 0) {
                Err(e) => Err(e),
                Ok((e, q)) => if tok(ts, q) == Some(Token::RParen) {
                    Ok((e, q + 1))
                } else {
                    Err(ParseError::MissingRightParen)
                },
            },
            Token::Identifier(n) => if tok(ts, p + 1) == Some(Token::Equal) {
                match parse_expr(ts, p + 2, 0) {
                    Err(e) => Err(e),
                    Ok((e, q)) => Ok((Ast::Assign(n@, Box::new(e)), q)),
                }
            } else {
                Ok((Ast::Variable(n@), p + 1))
            },
            Token::Function => {
                let (ps, q) = parameters(ts, p + 1, Seq::empty());
                if p < q && tok(ts, q) == Some(Token::Arrow) {
                    match parse_expr(ts, q + 1, 0) {
                        Err(e) => Err(e),
                        Ok((b, q2)) => Ok((Ast::Function(ps, Box::new(b)), q2)),
                    }
                } else {
                    Err(ParseError::MissingArrow)
                }
            },
            Token::While => match parse_expr(ts, p + 1, 0) {
                Err(e) => Err(e),
                Ok((c, q)) => if p + 1 < q <= ts.len() {
                    match parse_expr(ts, q, 0) {
                        Err(e) => Err(e),
                        Ok((b, q2)) => Ok((Ast::While(Box::new(c), Box::new(b)), q2)),
                    }
                } else {
                    Err(ParseError::UnexpectedToken(None))
                },
            },
            Token::LBracket => match statements(ts, p + 1, Seq::empty()) {
                Err(e) => Err(e),
                Ok((es, q)) => if tok(ts, q) == Some(Token::RBracket) {
                    Ok((Ast::CodeBlock(es), q + 1))
                } else {
                    Err(ParseError::MissingRightBracket)
                },
            },
            Token::LBrace => match arms(ts, p + 1, Seq::empty(), Seq::empty()) {
                Err(e) => Err(e),
                Ok((cs, bs, q)) => if tok(ts, q) == Some(Token::RBrace) {
                    Ok((Ast::Switch(cs, bs), q + 1))
                } else {
                    Err(ParseError::MissingRightBrace)
                },
            },
            _ => Err(ParseError::UnexpectedToken(Some(ts[p]))),
        }
    }
}

/// The tree of a whole token sequence's leading expression.
pub open spec fn parse_tokens(ts: Seq<Token>) -> Result<Ast, ParseError> {
    match parse_expr(ts, 0, 0) {
        Ok((a, _)) => Ok(a),
        Err(e) => Err(e),
    }
}

/// A copy of a token.
pub fn copy_token(t: &Token) -> (r: Token)
    ensures
        r == *t,
{
    match t {
        Token::Plus => Token::Plus,
        Token::Minus => Token::Minus,
        Token::Mul => Token::Mul,
        Token::Div => Token::Div,
        Token::Mod => Token::Mod,
        Token::LParen => Token::LParen,
        Token::RParen => Token::RParen,
        Token::LBrace => Token::LBrace,
        Token::RBrace => Token::RBrace,
        Token::LBracket => Token::LBracket,
        Token::RBracket => Token::RBracket,
        Token::Equal => Token::Equal,
        Token::EqualEqual => Token::EqualEqual,
        Token::Greater => Token::Greater,
        Token::GreaterEqual => Token::GreaterEqual,
        Token::Less => Token::Less,
        Token::LessEqual => Token::LessEqual,
        Token::SemiColon => Token::SemiColon,
        Token::Comma => Token::Comma,
        Token::Ampersand => Token::Ampersand,
        Token::Arrow => Token::Arrow,
        Token::Number(t) => Token::Number(t.clone()),
        Token::Identifier(n) => Token::Identifier(n.clone()),
        Token::Function => Token::Function,
        Token::While => Token::While,
        Token::Invalid => Token::Invalid,
    }
}

fn is_level_op(level: u8, t: &Token) -> (r: bool)
    ensures
        r == level_op(level as nat, *t),
{
    if level == 0 {
        matches!(t, Token::Greater | Token::Less | Token::LessEqual | Token::GreaterEqual | Token::EqualEqual)
    } else if level == 1 {
        matches!(t, Token::Plus | Token::Minus)
    } else {
        matches!(t, Token::Mul | Token::Div | Token::Mod)
    }
}

/// A forward-only cursor over a token sequence.
pub struct Parser<'a> {
    index: usize,
    tokens: &'a [Token],
    /// Whether the first token has been read.
    started: bool,
}

impl<'a> Parser<'a> {
    pub closed spec fn input(&self) -> Seq<Token> {
        self.tokens@
    }

    /// The position of the current token: -1 before the first one has been
    /// read.
    pub closed spec fn position(&self) -> int {
        if self.started {
            self.index as int
        } else {
            -1
        }
    }

    pub closed spec fn wf(&self) -> bool {
        &&& self.index <= self.tokens@.len()
        &&& !self.started ==> self.index == 0
    }

    /// Where the cursor stands after one more step.
    pub open spec fn next_position(&self) -> int {
        if self.position() < self.input().len() {
            self.position() + 1
        } else {
            self.position()
        }
    }

    pub fn new(tokens: &'a [Token]) -> (p: Parser<'a>)
        ensures
            p.wf(),
            p.input() == tokens@,
            p.position() == -1,
    {
        Parser { index: 0, tokens, started: false }
    }

    /// Steps to the next token and parses one expression there; on a new
    /// parser, the expression that starts the token sequence.
    pub fn start_parsing(&mut self) -> (r: Result<Expr, ParseError>)
        requires
            old(self).wf(),
        ensures
            final(self).wf(),
            final(self).input() == old(self).input(),
            match parse_expr(old(self).input(), old(self).next_position(), 0) {
                Ok((a, q)) => r is Ok && r->Ok_0.ast() == a && final(self).position() == q,
                Err(e) => r == Err::<Expr, ParseError>(e),
            },
            old(self).position() == -1 ==> match parse_tokens(old(self).input()) {
                Ok(a) => r is Ok && r->Ok_0.ast() == a,
                Err(e) => r == Err::<Expr, ParseError>(e),
            },
    {
        self.next_token();
        self.parse()
    }

    /// Parses one expression at the cursor.
    pub fn parse(&mut self) -> (r: Result<Expr, ParseError>)
        requires
            old(self).wf(),
        ensures
            final(self).wf(),
            final(self).input() == old(self).input(),
            match parse_expr(old(self).input(), old(self).position(), 0) {
                Ok((a, q)) => r is Ok && r->Ok_0.ast() == a && final(self).position() == q,
                Err(e) => r == Err::<Expr, ParseError>(e),
            },
            r is Ok ==> old(self).position() < final(self).position(),
        decreases old(self).input().len() - old(self).position(), 20int,
    {
        self.parse_comparison()
    }

    fn parse_comparison(&mut self) -> (r: Result<Expr, ParseError>)
        requires
            old(self).wf(),
        ensures
            final(self).wf(),
            final(self).input() == old(self).input(),
            match parse_expr(old(self).input(), old(self).position(), 0) {
                Ok((a, q)) => r is Ok && r->Ok_0.ast() == a && final(self).position() == q,
                Err(e) => r == Err::<Expr, ParseError>(e),
            },
            r is Ok ==> old(self).position() < final(self).position(),
        decreases old(self).input().len() - old(self).position(), 19int,
    {
        self.parse_binary(0)
    }

    fn parse_add_sub(&mut self) -> (r: Result<Expr, ParseError>)
        requires
            old(self).wf(),
        ensures
            final(self).wf(),
            final(self).input() == old(self).input(),
            match parse_expr(old(self).input(), old(self).position(), 1) {
                Ok((a, q)) => r is Ok && r->Ok_0.ast() == a && final(self).position() == q,
                Err(e) => r == Err::<Expr, ParseError>(e),
            },
            r is Ok ==> old(self).position() < final(self).position(),
        decreases old(self).input().len() - old(self).position(), 16int,
    {
        self.parse_binary(1)
    }

    fn parse_mul_div(&mut self) -> (r: Result<Expr, ParseError>)
        requires
            old(self).wf(),
        ensures
            final(self).wf(),
            final(self).input() == old(self).input(),
            match parse_expr(old(self).input(), old(self).position(), 2) {
                Ok((a, q)) => r is Ok && r->Ok_0.ast() == a && final(self).position() == q,
                Err(e) => r == Err::<Expr, ParseError>(e),
            },
            r is Ok ==> old(self).position() < final(self).position(),
        decreases old(self).input().len() - old(self).position(), 12int,
    {
        self.parse_binary(2)
    }

    /// The operand of a binary level: the next level up.
    fn parse_operand(&mut self, level: u8) -> (r: Result<Expr, ParseError>)
        requires
            old(self).wf(),
            level <= 2,
        ensures
            final(self).wf(),
            final(self).input() == old(self).input(),
            match parse_expr(old(self).input(), old(self).position(), level as nat + 1) {
                Ok((a, q)) => r is Ok && r->Ok_0.ast() == a && final(self).position() == q,
                Err(e) => r == Err::<Expr, ParseError>(e),
            },
            r is Ok ==> old(self).position() < final(self).position(),
        decreases old(self).input().len() - old(self).position(), 17int - 4 * level,
    {
        if level == 0 {
            self.parse_add_sub()
        } else if level == 1 {
            self.parse_mul_div()
        } else {
            self.parse_function_call()
        }
    }

    fn parse_binary(&mut self, level: u8) -> (r: Result<Expr, ParseError>)
        requires
            old(self).wf(),
            level <= 2,
        ensures
            final(self).wf(),
            final(self).input() == old(self).input(),
            match parse_expr(old(self).input(), old(self).position(), level as nat) {
                Ok((a, q)) => r is Ok && r->Ok_0.ast() == a && final(self).position() == q,
                Err(e) => r == Err::<Expr, ParseError>(e),
            },
            r is Ok ==> old(self).position() < final(self).position(),
        decreases old(self).input().len() - old(self).position(), 18int - 4 * level,
    {
        let ghost ts = self.tokens@;
        let ghost p = self.position();
        let mut left = match self.parse_operand(level) {
            Ok(e) => e,
            Err(e) => return Err(e),
        };
        while self.index < self.tokens.len() && is_level_op(level, &self.tokens[self.index])
            invariant
                self.wf(),
                self.tokens@ == ts,
                ts == old(self).tokens@,
                p == old(self).position(),
                self.started,
                0 <= p,
                level <= 2,
                p < self.index <= ts.len(),
                binary_chain(ts, level as nat, left.ast(), self.index as int) == parse_expr(ts, p, level as nat),
            decreases ts.len() - self.index,
        {
            let op = copy_token(&self.tokens[self.index]);
            self.next_token();
            let right = match self.parse_operand(level) {
                Ok(e) => e,
                Err(e) => return Err(e),
            };
            left = Expr::BinaryOperator { left: Box::new(left), right: Box::new(right), op };
        }
        Ok(left)
    }

    fn parse_function_call(&mut self) -> (r: Result<Expr, ParseError>)
        requires
            old(self).wf(),
        ensures
            final(self).wf(),
            final(self).input() == old(self).input(),
            match parse_expr(old(self).input(), old(self).position(), 3) {
                Ok((a, q)) => r is Ok && r->Ok_0.ast() == a && final(self).position() == q,
                Err(e) => r == Err::<Expr, ParseError>(e),
            },
            r is Ok ==> old(self).position() < final(self).position(),
        decreases old(self).input().len() - old(self).position(), 8int,
    {
        let ghost ts = self.tokens@;
        let ghost p = self.position();
        let mut left = match self.parse_leaf() {
            Ok(e) => e,
            Err(e) => return Err(e),
        };
        assert(parse_expr(ts, p, 4) == parse_leaf(ts, p));
        while self.index < self.tokens.len() && matches!(self.tokens[self.index], Token::LParen)
            invariant
                self.wf(),
                self.tokens@ == ts,
                ts == old(self).tokens@,
                p == old(self).position(),
                self.started,
                0 <= p,
                p < self.index <= ts.len(),
                call_chain(ts, left.ast(), self.index as int) == parse_expr(ts, p, 3),
            decreases ts.len() - self.index,
        {
            let ghost q = self.index as int;
            self.next_token();
            if self.index < self.tokens.len() && matches!(self.tokens[self.index], Token::RParen) {
                self.next_token();
                let ghost callee = left.ast();
                left = Expr::FunctionCall(Box::new(left), Vec::new());
                assert(left.ast()->FunctionCall_1 =~= Seq::<Ast>::empty());
                assert(left.ast() == Ast::FunctionCall(Box::new(callee), Seq::empty()));
                continue;
            }
            let mut args: Vec<Expr> = Vec::new();
            assert(asts(args@) =~= Seq::empty());
            loop
                invariant_except_break
                    arguments(ts, self.index as int, asts(args@)) == arguments(ts, q + 1, Seq::empty()),
                invariant
                    self.wf(),
                    self.tokens@ == ts,
                    ts == old(self).tokens@,
                    p == old(self).position(),
                    self.started,
                    0 <= p,
                    q + 1 <= self.index <= ts.len(),
                    p < q,
                    call_chain(ts, left.ast(), q) == parse_expr(ts, p, 3),
                    0 <= q < ts.len(),
                    tok(ts, q) == Some(Token::LParen),
                    tok(ts, q + 1) != Some(Token::RParen),
                ensures
                    q + 1 < self.index,
                    arguments(ts, q + 1, Seq::empty()) == Ok::<(Seq<Ast>, int), ParseError>((asts(args@), self.index as int)),
                decreases ts.len() - self.index,
            {
                let arg = match self.parse() {
                    Ok(e) => e,
                    Err(e) => return Err(e),
                };
                let ghost before = asts(args@);
                args.push(arg);
                assert(asts(args@) =~= before.push(arg.ast()));
                if self.index < self.tokens.len() && matches!(self.tokens[self.index], Token::Comma) {
                    self.next_token();
                } else if self.index < self.tokens.len() && matches!(self.tokens[self.index], Token::RParen) {
                    self.next_token();
                    break;
                } else {
                    return Err(ParseError::MissingArgumentSeparator);
                }
            }
            let ghost a = asts(args@);
            let ghost callee = left.ast();
            left = Expr::FunctionCall(Box::new(left), args);
            assert(left.ast()->FunctionCall_1 =~= a);
            assert(left.ast() == Ast::FunctionCall(Box::new(callee), a));
            assert(call_chain(ts, callee, q) == call_chain(ts, left.ast(), self.index as int));
        }
        Ok(left)
    }

    fn parse_leaf(&mut self) -> (r: Result<Expr, ParseError>)
        requires
            old(self).wf(),
        ensures
            final(self).wf(),
            final(self).input() == old(self).input(),
            match parse_leaf(old(self).input(), old(self).position()) {
                Ok((a, q)) => r is Ok && r->Ok_0.ast() == a && final(self).position() == q,
                Err(e) => r == Err::<Expr, ParseError>(e),
            },
            r is Ok ==> old(self).position() < final(self).position(),
            (old(self).position() < 0 || old(self).position() >= old(self).input().len() || !leaf_start(
                old(self).input()[old(self).position()],
            )) ==> final(self).position() == old(self).position(),
        decreases old(self).input().len() - old(self).position(), 7int,
    {
        let ghost ts = self.tokens@;
        let ghost p = self.position();
        if !self.started || self.index >= self.tokens.len() {
            return Err(ParseError::UnexpectedToken(None));
        }
        match &self.tokens[self.index] {
            Token::Number(value) => {
                self.next_token();
                Ok(Expr::Number(value.clone()))
            },
            Token::LParen => {
                self.next_token();
                let expr = match self.parse() {
                    Ok(e) => e,
                    Err(e) => return Err(e),
                };
                if self.index < self.tokens.len() && matches!(self.tokens[self.index], Token::RParen) {
                    self.next_token();
                    Ok(expr)
                } else {
                    Err(ParseError::MissingRightParen)
                }
            },
            Token::Identifier(name) => {
                self.next_token();
                if self.index < self.tokens.len() && matches!(self.tokens[self.index], Token::Equal) {
                    self.next_token();
                    let expr = match self.parse() {
                        Ok(e) => e,
                        Err(e) => return Err(e),
                    };
                    Ok(Expr::Assign(name.clone(), Box::new(expr)))
                } else {
                    Ok(Expr::Variable(name.clone()))
                }
            },
            Token::Function => {
                self.next_token();
                let mut args: Vec<String> = Vec::new();
                assert(names(args@) =~= Seq::empty());
                while self.index < self.tokens.len() && matches!(self.tokens[self.index], Token::Identifier(_))
                    invariant_except_break
                        parameters(ts, self.index as int, names(args@)) == parameters(ts, p + 1, Seq::empty()),
                    invariant
                        self.wf(),
                        self.tokens@ == ts,
                        ts == old(self).tokens@,
                        p == old(self).position(),
                        self.started,
                        0 <= p,
                        p < self.index <= ts.len(),
                    ensures
                        parameters(ts, p + 1, Seq::empty()) == (names(args@), self.index as int),
                    decreases ts.len() - self.index,
                {
                    if let Token::Identifier(arg) = &self.tokens[self.index] {
                        let ghost before = names(args@);
                        args.push(arg.clone());
                        assert(names(args@) =~= before.push(arg@));
                    }
                    self.next_token();
                    if self.index < self.tokens.len() && matches!(self.tokens[self.index], Token::Comma) {
                        self.next_token();
                    } else {
                        break;
                    }
                }
                if self.index < self.tokens.len() && matches!(self.tokens[self.index], Token::Arrow) {
                    self.next_token();
                    let expr = match self.parse() {
                        Ok(e) => e,
                        Err(e) => return Err(e),
                    };
                    Ok(Expr::Function(args, Rc::new(expr)))
                } else {
                    Err(ParseError::MissingArrow)
                }
            },
            Token::While => {
                self.next_token();
                let condition = match self.parse() {
                    Ok(e) => e,
                    Err(e) => return Err(e),
                };
                let expr = match self.parse() {
                    Ok(e) => e,
                    Err(e) => return Err(e),
                };
                Ok(Expr::While(Box::new(condition), Box::new(expr)))
            },
            Token::LBracket => {
                let mut expressions: Vec<Expr> = Vec::new();
                self.next_token();
                assert(asts(expressions@) =~= Seq::empty());
                loop
                    invariant_except_break
                        statements(ts, self.index as int, asts(expressions@)) == statements(ts, p + 1, Seq::empty()),
                    invariant
                        self.wf(),
                        self.tokens@ == ts,
                        ts == old(self).tokens@,
                        p == old(self).position(),
                        self.started,
                        0 <= p,
                        p < self.index <= ts.len(),
                        ts[p] is LBracket,
                    ensures
                        statements(ts, p + 1, Seq::empty()) == Ok::<(Seq<Ast>, int), ParseError>((asts(expressions@), self.index as int)),
                    decreases ts.len() - self.index,
                {
                    let e = match self.parse() {
                        Ok(e) => e,
                        Err(e) => return Err(e),
                    };
                    let ghost before = asts(expressions@);
                    expressions.push(e);
                    assert(asts(expressions@) =~= before.push(e.ast()));
                    if self.index < self.tokens.len() && matches!(self.tokens[self.index], Token::SemiColon) {
                        self.next_token();
                    } else {
                        break;
                    }
                }
                if self.index < self.tokens.len() && matches!(self.tokens[self.index], Token::RBracket) {
                    self.next_token();
                    let ghost es = asts(expressions@);
                    let block = Expr::CodeBlock(expressions);
                    assert(block.ast()->CodeBlock_0 =~= es);
                    Ok(block)
                } else {
                    Err(ParseError::MissingRightBracket)
                }
            },
            Token::LBrace => {
                let mut cases: Vec<Expr> = Vec::new();
                let mut expressions: Vec<Expr> = Vec::new();
                self.next_token();
                assert(asts(cases@) =~= Seq::empty());
                assert(asts(expressions@) =~= Seq::empty());
                loop
                    invariant_except_break
                        arms(ts, self.index as int, asts(cases@), asts(expressions@)) == arms(
                            ts,
                            p + 1,
                            Seq::empty(),
                            Seq::empty(),
                        ),
                    invariant
                        self.wf(),
                        self.tokens@ == ts,
                        ts == old(self).tokens@,
                        p == old(self).position(),
                        self.started,
                        0 <= p,
                        p < self.index <= ts.len(),
                        ts[p] is LBrace,
                    ensures
                        arms(ts, p + 1, Seq::empty(), Seq::empty()) == Ok::<(Seq<Ast>, Seq<Ast>, int), ParseError>(
                            (asts(cases@), asts(expressions@), self.index as int),
                        ),
                    decreases ts.len() - self.index,
                {
                    let c = match self.parse() {
                        Ok(e) => e,
                        Err(e) => return Err(e),
                    };
                    if self.index < self.tokens.len() && matches!(self.tokens[self.index], Token::Arrow) {
                        self.next_token();
                        let b = match self.parse() {
                            Ok(e) => e,
                            Err(e) => return Err(e),
                        };
                        let ghost before_c = asts(cases@);
                        let ghost before_b = asts(expressions@);
                        cases.push(c);
                        expressions.push(b);
                        assert(asts(cases@) =~= before_c.push(c.ast()));
                        assert(asts(expressions@) =~= before_b.push(b.ast()));
                        if self.index < self.tokens.len() && matches!(self.tokens[self.index], Token::Comma) {
                            self.next_token();
                        } else {
                            break;
                        }
                    } else {
                        return Err(ParseError::MissingSwitchArrow);
                    }
                }
                if self.index < self.tokens.len() && matches!(self.tokens[self.index], Token::RBrace) {
                    self.next_token();
                    let ghost cs = asts(cases@);
                    let ghost bs = asts(expressions@);
                    let switch = Expr::Switch(cases, expressions);
                    assert(switch.ast()->Switch_0 =~= cs);
                    assert(switch.ast()->Switch_1 =~= bs);
                    Ok(switch)
                } else {
                    Err(ParseError::MissingRightBrace)
                }
            },
            other => Err(ParseError::UnexpectedToken(Some(copy_token(other)))),
        }
    }

    /// Moves the cursor one token on.
    fn next_token(&mut self)
        requires
            old(self).wf(),
        ensures
            final(self).wf(),
            final(self).input() == old(self).input(),
            final(self).position() == old(self).next_position(),
    {
        if !self.started {
            self.started = true;
        } else if self.index < self.tokens.len() {
            self.index = self.index + 1;
        }
    }
}

} // verus!

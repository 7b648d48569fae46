use vstd::prelude::*;
use std::rc::Rc;
use crate::tokenizer::Token;
use crate::number::{ONE, ZERO, float_eq, float_lt, float_equal, float_less, nonzero, is_nonzero};

verus! {

/// A node of the syntax tree; each node owns its children.
#[derive(Debug)]
pub enum Expr {
    /// A numeric literal, as the text of the literal.
    Number(String),
    BinaryOperator { left: Box<Expr>, right: Box<Expr>, op: Token },
    Variable(String),
    CodeBlock(Vec<Expr>),
    Assign(String, Box<Expr>),
    /// Parameter names and body; the body is shared with the function values
    /// made from this node, and never changed.
    Function(Vec<String>, Rc<Expr>),
    FunctionCall(Box<Expr>, Vec<Expr>),
    Switch(Vec<Expr>, Vec<Expr>),
    While(Box<Expr>, Box<Expr>),
}

/// The mathematical content of a syntax tree: lists are sequences and names
/// are character sequences.
pub enum Ast {
    Number(Seq<char>),
    BinaryOperator { left: Box<Ast>, right: Box<Ast>, op: Token },
    Variable(Seq<char>),
    CodeBlock(Seq<Ast>),
    Assign(Seq<char>, Box<Ast>),
    Function(Seq<Seq<char>>, Box<Ast>),
    FunctionCall(Box<Ast>, Seq<Ast>),
    Switch(Seq<Ast>, Seq<Ast>),
    While(Box<Ast>, Box<Ast>),
}

pub open spec fn names(v: Seq<String>) -> Seq<Seq<char>> {
    Seq::new(v.len(), |i: int| v[i]@)
}

pub open spec fn asts(v: Seq<Expr>) -> Seq<Ast> {
    Seq::new(v.len(), |i: int| v[i].ast())
}

impl Expr {
    pub open spec fn ast(self) -> Ast
        decreases self,
    {
        match self {
            Expr::Number(t) => Ast::Number(t@),
            Expr::BinaryOperator { left, right, op } => Ast::BinaryOperator {
                left: Box::new(left.ast()),
                right: Box::new(right.ast()),
                op,
            },
            Expr::Variable(n) => Ast::Variable(n@),
            Expr::CodeBlock(v) => Ast::CodeBlock(
                Seq::new(v.len() as nat, |i: int| if 0 <= i < v.len() { v[i].ast() } else { Ast::CodeBlock(Seq::empty()) }),
            ),
            Expr::Assign(n, e) => Ast::Assign(n@, Box::new(e.ast())),
            Expr::Function(ps, b) => Ast::Function(names(ps@), Box::new(b.ast())),
            Expr::FunctionCall(f, args) => Ast::FunctionCall(
                Box::new(f.ast()),
                Seq::new(args.len() as nat, |i: int| if 0 <= i < args.len() { args[i].ast() } else { Ast::CodeBlock(Seq::empty()) }),
            ),
            Expr::Switch(cs, bs) => Ast::Switch(
                Seq::new(cs.len() as nat, |i: int| if 0 <= i < cs.len() { cs[i].ast() } else { Ast::CodeBlock(Seq::empty()) }),
                Seq::new(bs.len() as nat, |i: int| if 0 <= i < bs.len() { bs[i].ast() } else { Ast::CodeBlock(Seq::empty()) }),
            ),
            Expr::While(c, b) => Ast::While(Box::new(c.ast()), Box::new(b.ast())),
        }
    }
}

/// A runtime value.
#[derive(Debug)]
pub enum Object {
    /// A number, as its IEEE-754 binary64 encoding.
    Number(u64),
    /// A function: its parameters, its body, and the environment at the
    /// moment it was made.
    Function { args: Rc<Vec<String>>, body: Rc<Expr>, context: Rc<Context> },
    Vector(Rc<Vec<Object>>),
    Null,
}

/// A flat environment from names to values. Later entries hide earlier
/// ones of the same name.
#[derive(Debug)]
pub struct Context {
    variables: Vec<(String, Object)>,
}

/// The value of the last entry named `k`.
pub open spec fn lookup(s: Seq<(String, Object)>, k: Seq<char>) -> Option<Object>
    decreases s.len(),
{
    if s.len() == 0 {
        None
    } else if s.last().0@ == k {
        Some(s.last().1)
    } else {
        lookup(s.drop_last(), k)
    }
}

pub open spec fn env_of(s: Seq<(String, Object)>) -> Map<Seq<char>, Object> {
    Map::new(|k: Seq<char>| lookup(s, k) is Some, |k: Seq<char>| lookup(s, k)->Some_0)
}

/// Entries after a position leave a name's lookup as it was when none of
/// them has that name.
proof fn lemma_lookup_prefix(s: Seq<(String, Object)>, i: int, k: Seq<char>)
    requires
        0 <= i <= s.len(),
        forall|j: int| i <= j < s.len() ==> (#[trigger] s[j]).0@ != k,
    ensures
        lookup(s, k) == lookup(s.subrange(0, i), k),
    decreases s.len() - i,
{
    if i < s.len() {
        assert(s.drop_last() =~= s.subrange(0, s.len() - 1));
        lemma_lookup_prefix(s.drop_last(), i, k);
        assert(s.drop_last().subrange(0, i) =~= s.subrange(0, i));
    } else {
        assert(s.subrange(0, i) =~= s);
    }
}

/// Replacing the last entry of a name changes that name's value alone.
proof fn lemma_lookup_update(s: Seq<(String, Object)>, i: int, e: (String, Object), k: Seq<char>)
    requires
        0 <= i < s.len(),
        s[i].0@ == e.0@,
        forall|j: int| i < j < s.len() ==> (#[trigger] s[j]).0@ != e.0@,
    ensures
        lookup(s.update(i, e), k) == if k == e.0@ {
            Some(e.1)
        } else {
            lookup(s, k)
        },
    decreases s.len(),
{
    let t = s.update(i, e);
    if i == s.len() - 1 {
        assert(t.drop_last() =~= s.drop_last());
    } else {
        assert(t.drop_last() =~= s.drop_last().update(i, e));
        lemma_lookup_update(s.drop_last(), i, e, k);
    }
}

/// Looking up in `a + b` finds `b`'s entry first.
proof fn lemma_lookup_append(a: Seq<(String, Object)>, b: Seq<(String, Object)>, k: Seq<char>)
    ensures
        lookup(a + b, k) == if lookup(b, k) is Some {
            lookup(b, k)
        } else {
            lookup(a, k)
        },
    decreases b.len(),
{
    if b.len() == 0 {
        assert(a + b =~= a);
    } else {
        assert((a + b).drop_last() =~= a + b.drop_last());
        lemma_lookup_append(a, b.drop_last(), k);
    }
}

/// Relies on Rc::clone: a new pointer to the same value.
#[verifier::external_body]
fn share<T>(r: &Rc<T>) -> (s: Rc<T>)
    ensures
        s == *r,
{
    Rc::clone(r)
}

pub fn copy_names(v: &Vec<String>) -> (r: Vec<String>)
    ensures
        r@ == v@,
{
    let mut r: Vec<String> = Vec::new();
    let mut i: usize = 0;
    while i < v.len()
        invariant
            i <= v@.len(),
            r@ == v@.subrange(0, i as int),
        decreases v@.len() - i,
    {
        r.push(v[i].clone());
        i = i + 1;
        assert(r@ =~= v@.subrange(0, i as int));
    }
    assert(v@.subrange(0, v@.len() as int) =~= v@);
    r
}

impl Object {
    /// A copy of the value; functions and vectors share their parts.
    pub fn copy(&self) -> (r: Object)
        ensures
            r == *self,
    {
        match self {
            Object::Number(x) => Object::Number(*x),
            Object::Function { args, body, context } => Object::Function {
                args: share(args),
                body: share(body),
                context: share(context),
            },
            Object::Vector(v) => Object::Vector(share(v)),
            Object::Null => Object::Null,
        }
    }
}

impl View for Context {
    type V = Map<Seq<char>, Object>;

    open spec fn view(&self) -> Map<Seq<char>, Object> {
        env_of(self.entries())
    }
}

impl Context {
    pub closed spec fn entries(&self) -> Seq<(String, Object)> {
        self.variables@
    }

    /// The empty environment.
    pub fn new() -> (c: Context)
        ensures
            c@ == Map::<Seq<char>, Object>::empty(),
    {
        let c = Context { variables: Vec::new() };
        assert(c@ =~= Map::<Seq<char>, Object>::empty());
        c
    }

    /// The position of the entry that holds `name`'s value.
    fn find(&self, name: &String) -> (r: Option<usize>)
        ensures
            match r {
                None => lookup(self.entries(), name@) is None,
                Some(i) => i < self.entries().len() && self.entries()[i as int].0@ == name@
                    && forall|j: int|
                    i < j < self.entries().len() ==> (#[trigger] self.entries()[j]).0@ != name@,
            },
    {
        let mut i: usize = self.variables.len();
        while i > 0
            invariant
                i <= self.variables@.len(),
                forall|j: int| i <= j < self.variables@.len() ==> (#[trigger] self.variables@[j]).0@ != name@,
            decreases i,
        {
            if self.variables[i - 1].0 == *name {
                return Some(i - 1);
            }
            i = i - 1;
        }
        proof {
            lemma_lookup_prefix(self.variables@, 0, name@);
        }
        None
    }

    /// The value bound to `name`, if any.
    pub fn get(&self, name: &String) -> (r: Option<Object>)
        ensures
            r == (if self@.contains_key(name@) {
                Some(self@[name@])
            } else {
                None::<Object>
            }),
    {
        match self.find(name) {
            Some(i) => {
                proof {
                    lemma_lookup_prefix(self.variables@, i + 1, name@);
                    assert(self.variables@.subrange(0, i + 1).drop_last() =~= self.variables@.subrange(0, i as int));
                }
                Some(self.variables[i].1.copy())
            },
            None => None,
        }
    }

    /// Binds `name` to `value`, replacing an earlier binding.
    pub fn insert(&mut self, name: String, value: Object)
        ensures
            final(self)@ == old(self)@.insert(name@, value),
    {
        let ghost k = name@;
        let ghost e = (name, value);
        match self.find(&name) {
            Some(i) => {
                proof {
                    assert forall|k2: Seq<char>| #[trigger] lookup(self.variables@.update(i as int, e), k2) == if k2 == k {
                        Some(value)
                    } else {
                        lookup(self.variables@, k2)
                    } by {
                        lemma_lookup_update(self.variables@, i as int, e, k2);
                    }
                }
                self.variables.set(i, (name, value));
            },
            None => {
                self.variables.push((name, value));
                assert(self.variables@.drop_last() =~= old(self).variables@);
            },
        }
        assert(self@ =~= old(self)@.insert(k, value));
    }

    /// A copy of the environment.
    pub fn copy(&self) -> (r: Context)
        ensures
            r@ == self@,
    {
        let mut v: Vec<(String, Object)> = Vec::new();
        let mut i: usize = 0;
        while i < self.variables.len()
            invariant
                i <= self.variables@.len(),
                v@ == self.variables@.subrange(0, i as int),
            decreases self.variables@.len() - i,
        {
            let (k, x) = &self.variables[i];
            v.push((k.clone(), x.copy()));
            i = i + 1;
            assert(v@ =~= self.variables@.subrange(0, i as int));
        }
        assert(self.variables@.subrange(0, self.variables@.len() as int) =~= self.variables@);
        Context { variables: v }
    }

    /// The environment of `outer` overlaid with that of `inner`: where both
    /// bind a name, `inner`'s value counts.
    pub fn overlay(outer: &Context, inner: &Context) -> (r: Context)
        ensures
            r@ == outer@.union_prefer_right(inner@),
    {
        let mut r = outer.copy();
        let mut v = inner.copy();
        let ghost a = r.variables@;
        let ghost b = v.variables@;
        r.variables.append(&mut v.variables);
        proof {
            assert(r.variables@ == a + b);
            assert forall|k: Seq<char>| #[trigger] lookup(a + b, k) == if lookup(b, k) is Some {
                lookup(b, k)
            } else {
                lookup(a, k)
            } by {
                lemma_lookup_append(a, b, k);
            }
            assert(env_of(a) == outer@);
            assert(env_of(b) == inner@);
        }
        assert(r@ =~= outer@.union_prefer_right(inner@));
        r
    }
}

/// Binds the first `n` parameters to the first `n` values, in order.
pub open spec fn bind_parameters(
    m: Map<Seq<char>, Object>,
    ps: Seq<String>,
    vs: Seq<Object>,
    n: nat,
) -> Map<Seq<char>, Object>
    decreases n,
{
    if n == 0 || n > ps.len() || n > vs.len() {
        m
    } else {
        bind_parameters(m, ps, vs, (n - 1) as nat).insert(ps[n - 1]@, vs[n - 1])
    }
}

pub open spec fn min_len(a: nat, b: nat) -> nat {
    if a < b {
        a
    } else {
        b
    }
}

/// The environment a call runs in: the caller's, overlaid with the one the
/// function captured, with the parameters bound to the values given, as far
/// as both go.
pub open spec fn call_env(
    caller: Map<Seq<char>, Object>,
    captured: Map<Seq<char>, Object>,
    ps: Seq<String>,
    vs: Seq<Object>,
) -> Map<Seq<char>, Object> {
    bind_parameters(caller.union_prefer_right(captured), ps, vs, min_len(ps.len(), vs.len()))
}

/// Builds the environment of a call.
pub fn call_environment(caller: &Context, captured: &Context, params: &Vec<String>, values: &Vec<Object>) -> (r: Context)
    ensures
        r@ == call_env(caller@, captured@, params@, values@),
{
    let mut env = Context::overlay(caller, captured);
    let mut i: usize = 0;
    while i < params.len() && i < values.len()
        invariant
            i <= params@.len(),
            i <= values@.len(),
            env@ == bind_parameters(caller@.union_prefer_right(captured@), params@, values@, i as nat),
        decreases params@.len() - i,
    {
        env.insert(params[i].clone(), values[i].copy());
        i = i + 1;
    }
    env
}

/// Inside a call, a name that no bound parameter has keeps the value that
/// the function captured, and only where it captured none the caller's.
pub proof fn call_scoping(
    caller: Map<Seq<char>, Object>,
    captured: Map<Seq<char>, Object>,
    ps: Seq<String>,
    vs: Seq<Object>,
    k: Seq<char>,
)
    requires
        forall|i: int| 0 <= i < min_len(ps.len(), vs.len()) ==> (#[trigger] ps[i])@ != k,
    ensures
        call_env(caller, captured, ps, vs).contains_key(k) == (caller.contains_key(k) || captured.contains_key(k)),
        captured.contains_key(k) ==> call_env(caller, captured, ps, vs)[k] == captured[k],
        !captured.contains_key(k) && caller.contains_key(k) ==> call_env(caller, captured, ps, vs)[k] == caller[k],
{
    lemma_unbound_name(caller.union_prefer_right(captured), ps, vs, min_len(ps.len(), vs.len()), k);
}

/// Inside a call, a parameter that no later parameter repeats is bound to its
/// argument.
pub proof fn call_binds_parameter(
    caller: Map<Seq<char>, Object>,
    captured: Map<Seq<char>, Object>,
    ps: Seq<String>,
    vs: Seq<Object>,
    i: int,
)
    requires
        0 <= i < min_len(ps.len(), vs.len()),
        forall|j: int| i < j < min_len(ps.len(), vs.len()) ==> (#[trigger] ps[j])@ != ps[i]@,
    ensures
        call_env(caller, captured, ps, vs).contains_key(ps[i]@),
        call_env(caller, captured, ps, vs)[ps[i]@] == vs[i],
{
    lemma_bound_name(caller.union_prefer_right(captured), ps, vs, min_len(ps.len(), vs.len()), i);
}

proof fn lemma_unbound_name(m: Map<Seq<char>, Object>, ps: Seq<String>, vs: Seq<Object>, n: nat, k: Seq<char>)
    requires
        n <= ps.len(),
        n <= vs.len(),
        forall|i: int| 0 <= i < n ==> (#[trigger] ps[i])@ != k,
    ensures
        bind_parameters(m, ps, vs, n).contains_key(k) == m.contains_key(k),
        m.contains_key(k) ==> bind_parameters(m, ps, vs, n)[k] == m[k],
    decreases n,
{
    if n > 0 {
        lemma_unbound_name(m, ps, vs, (n - 1) as nat, k);
        assert(ps[n - 1]@ != k);
    }
}

proof fn lemma_bound_name(m: Map<Seq<char>, Object>, ps: Seq<String>, vs: Seq<Object>, n: nat, i: int)
    requires
        n <= ps.len(),
        n <= vs.len(),
        0 <= i < n,
        forall|j: int| i < j < n ==> (#[trigger] ps[j])@ != ps[i]@,
    ensures
        bind_parameters(m, ps, vs, n).contains_key(ps[i]@),
        bind_parameters(m, ps, vs, n)[ps[i]@] == vs[i],
    decreases n,
{
    if i < n - 1 {
        lemma_bound_name(m, ps, vs, (n - 1) as nat, i);
        assert(ps[n - 1]@ != ps[i]@);
    }
}

/// Why an expression has no value.
#[derive(Debug, PartialEq)]
pub enum EvalError {
    UndefinedVariable(String),
    LeftOperandNotNumber,
    RightOperandNotNumber,
    NotAFunction,
    SwitchLengthMismatch,
    /// The step budget of the evaluation ran out.
    OutOfSteps,
}

/// The floating-point part of the language: reading a numeric literal and the
/// operators `+ - * / %`, all over binary64 encodings.
pub trait Arithmetic {
    /// The value of a literal of digits with at most one dot.
    fn literal(&self, text: &String) -> u64;

    /// `a op b`, for `op` one of `Plus`, `Minus`, `Mul`, `Div`, `Mod`.
    fn arithmetic(&self, op: &Token, a: u64, b: u64) -> u64;
}

/// Truthiness of a condition of a loop.
pub open spec fn truthy(v: Object) -> bool {
    match v {
        Object::Null => false,
        Object::Number(x) => nonzero(x),
        _ => true,
    }
}

/// Whether a switch condition selects its branch.
pub open spec fn selects(v: Object) -> bool {
    match v {
        Object::Number(x) => nonzero(x),
        Object::Function { .. } => true,
        _ => false,
    }
}

pub open spec fn arithmetic_op(op: Token) -> bool {
    op is Plus || op is Minus || op is Mul || op is Div || op is Mod
}

pub open spec fn flag(b: bool) -> u64 {
    if b {
        ONE
    } else {
        ZERO
    }
}

/// The result of an operator other than `+ - * / %`: 1.0 or 0.0 for a
/// comparison, 0.0 for any other token.
pub open spec fn comparison(op: Token, a: u64, b: u64) -> u64 {
    match op {
        Token::EqualEqual => flag(float_eq(a, b)),
        Token::Less => flag(float_lt(a, b)),
        Token::Greater => flag(float_lt(b, a)),
        Token::LessEqual => flag(float_lt(a, b) || float_eq(a, b)),
        Token::GreaterEqual => flag(float_lt(b, a) || float_eq(a, b)),
        _ => ZERO,
    }
}

pub fn object_to_bool(object: &Object) -> (r: bool)
    ensures
        r == truthy(*object),
{
    match object {
        Object::Null => false,
        Object::Number(value) => is_nonzero(*value),
        Object::Function { .. } => true,
        Object::Vector(..) => true,
    }
}

fn selects_branch(object: &Object) -> (r: bool)
    ensures
        r == selects(*object),
{
    match object {
        Object::Number(value) => is_nonzero(*value),
        Object::Function { .. } => true,
        _ => false,
    }
}

/// Applies an operator to two numbers.
pub fn apply_operator<A: Arithmetic>(op: &Token, a: u64, b: u64, ops: &A) -> (r: u64)
    ensures
        !arithmetic_op(*op) ==> r == comparison(*op, a, b),
{
    match op {
        Token::Plus | Token::Minus | Token::Mul | Token::Div | Token::Mod => ops.arithmetic(op, a, b),
        Token::EqualEqual => if float_equal(a, b) { ONE } else { ZERO },
        Token::Less => if float_less(a, b) { ONE } else { ZERO },
        Token::Greater => if float_less(b, a) { ONE } else { ZERO },
        Token::LessEqual => if float_less(a, b) || float_equal(a, b) { ONE } else { ZERO },
        Token::GreaterEqual => if float_less(b, a) || float_equal(a, b) { ONE } else { ZERO },
        _ => ZERO,
    }
}


/// Names a candidate outcome of an evaluation (result, environment, steps
/// left) for the quantifiers below to be instantiated on.
pub open spec fn outcome(r: Result<Object, EvalError>, env: Map<Seq<char>, Object>, s: int) -> bool {
    true
}

/// The outcome of evaluating both operands of `op` from `env` with `s` steps
/// left can be result `r`, environment `env2` and `s2` steps left. What
/// `+ - * / %` give is any number: that is up to the arithmetic.
pub open spec fn binary_rel(
    left: Expr,
    right: Expr,
    op: Token,
    env: Map<Seq<char>, Object>,
    s: int,
    r: Result<Object, EvalError>,
    env2: Map<Seq<char>, Object>,
    s2: int,
) -> bool
    decreases s, 1int,
{
    exists|rl: Result<Object, EvalError>, e1: Map<Seq<char>, Object>, s1: int|
            #[trigger] outcome(rl, e1, s1) && 
        0 <= s1 <= s && eval_rel(left, env, s, rl, e1, s1) && match rl {
            Err(e) => r == Err::<Object, EvalError>(e) && env2 == e1 && s2 == s1,
            Ok(Object::Number(a)) => exists|rr: Result<Object, EvalError>, e3: Map<Seq<char>, Object>, s3: int|
            #[trigger] outcome(rr, e3, s3) && 
                0 <= s3 <= s1 && eval_rel(right, e1, s1, rr, e3, s3) && env2 == e3 && s2 == s3 && match rr {
                    Err(e) => r == Err::<Object, EvalError>(e),
                    Ok(Object::Number(b)) => if arithmetic_op(op) {
                        r matches Ok(Object::Number(_))
                    } else {
                        r == Ok::<Object, EvalError>(Object::Number(comparison(op, a, b)))
                    },
                    Ok(_) => r == Err::<Object, EvalError>(EvalError::RightOperandNotNumber),
                },
            Ok(_) => r == Err::<Object, EvalError>(EvalError::LeftOperandNotNumber) && env2 == e1 && s2 == s1,
        }
}

/// Statements `es[i..]` of a block, after a statement that gave `last`.
pub open spec fn block_rel(
    es: Seq<Expr>,
    i: int,
    env: Map<Seq<char>, Object>,
    s: int,
    last: Object,
    r: Result<Object, EvalError>,
    env2: Map<Seq<char>, Object>,
    s2: int,
) -> bool
    decreases s, es.len() - i + 1,
{
    if i < 0 || i >= es.len() {
        r == Ok::<Object, EvalError>(last) && env2 == env && s2 == s
    } else {
        exists|ri: Result<Object, EvalError>, e1: Map<Seq<char>, Object>, s1: int|
            #[trigger] outcome(ri, e1, s1) && 
            0 <= s1 <= s && eval_rel(es[i], env, s, ri, e1, s1) && match ri {
                Err(e) => r == Err::<Object, EvalError>(e) && env2 == e1 && s2 == s1,
                Ok(v) => block_rel(es, i + 1, e1, s1, v, r, env2, s2),
            }
    }
}

/// Arms `i..` of a switch: the first condition that selects runs its branch,
/// and no later condition is evaluated.
pub open spec fn switch_rel(
    cs: Seq<Expr>,
    bs: Seq<Expr>,
    i: int,
    env: Map<Seq<char>, Object>,
    s: int,
    r: Result<Object, EvalError>,
    env2: Map<Seq<char>, Object>,
    s2: int,
) -> bool
    decreases s, cs.len() - i + 1,
{
    if i < 0 || i >= cs.len() || i >= bs.len() {
        r == Ok::<Object, EvalError>(Object::Null) && env2 == env && s2 == s
    } else {
        exists|rc: Result<Object, EvalError>, e1: Map<Seq<char>, Object>, s1: int|
            #[trigger] outcome(rc, e1, s1) && 
            0 <= s1 <= s && eval_rel(cs[i], env, s, rc, e1, s1) && match rc {
                Err(e) => r == Err::<Object, EvalError>(e) && env2 == e1 && s2 == s1,
                Ok(v) => if selects(v) {
                    eval_rel(bs[i], e1, s1, r, env2, s2)
                } else {
                    switch_rel(cs, bs, i + 1, e1, s1, r, env2, s2)
                },
            }
    }
}

/// Arguments `i..` of a call, with the values `vals` of those before; then
/// the body runs in the call's environment, and the caller keeps the
/// environment that the arguments left.
pub open spec fn call_rel(
    args: Seq<Expr>,
    i: int,
    env: Map<Seq<char>, Object>,
    s: int,
    vals: Seq<Object>,
    params: Seq<String>,
    body: Expr,
    captured: Map<Seq<char>, Object>,
    r: Result<Object, EvalError>,
    env2: Map<Seq<char>, Object>,
    s2: int,
) -> bool
    decreases s, args.len() - i + 1,
{
    if i < 0 || i > args.len() {
        false
    } else if i == args.len() {
        env2 == env && exists|eb: Map<Seq<char>, Object>|
            #[trigger] outcome(r, eb, s2) && eval_rel(body, call_env(env, captured, params, vals), s, r, eb, s2)
    } else {
        exists|ra: Result<Object, EvalError>, e1: Map<Seq<char>, Object>, s1: int|
            #[trigger] outcome(ra, e1, s1) && 
            0 <= s1 <= s && eval_rel(args[i], env, s, ra, e1, s1) && match ra {
                Err(e) => r == Err::<Object, EvalError>(e) && env2 == e1 && s2 == s1,
                Ok(v) => call_rel(args, i + 1, e1, s1, vals.push(v), params, body, captured, r, env2, s2),
            }
    }
}

/// Rounds of a loop: the condition, then the body while it is true.
pub open spec fn while_rel(
    c: Expr,
    b: Expr,
    env: Map<Seq<char>, Object>,
    s: int,
    r: Result<Object, EvalError>,
    env2: Map<Seq<char>, Object>,
    s2: int,
) -> bool
    decreases s, 1int,
{
    exists|rc: Result<Object, EvalError>, e1: Map<Seq<char>, Object>, s1: int|
            #[trigger] outcome(rc, e1, s1) && 
        0 <= s1 <= s && eval_rel(c, env, s, rc, e1, s1) && match rc {
            Err(e) => r == Err::<Object, EvalError>(e) && env2 == e1 && s2 == s1,
            Ok(v) => if truthy(v) {
                exists|rb: Result<Object, EvalError>, e3: Map<Seq<char>, Object>, s3: int|
            #[trigger] outcome(rb, e3, s3) && 
                    0 <= s3 < s && eval_rel(b, e1, s1, rb, e3, s3) && match rb {
                        Err(e) => r == Err::<Object, EvalError>(e) && env2 == e3 && s2 == s3,
                        Ok(_) => while_rel(c, b, e3, s3, r, env2, s2),
                    }
            } else {
                r == Ok::<Object, EvalError>(Object::Null) && env2 == e1 && s2 == s1
            },
        }
}

/// Evaluating `e` from environment `env` with `s` steps left can end with
/// result `r`, environment `env2` and `s2` steps left. Each node evaluated
/// takes one step; with none left the result is `OutOfSteps`. Numeric
/// literals and `+ - * / %` give some number, which is up to the arithmetic;
/// everything else is fixed.
pub open spec fn eval_rel(
    e: Expr,
    env: Map<Seq<char>, Object>,
    s: int,
    r: Result<Object, EvalError>,
    env2: Map<Seq<char>, Object>,
    s2: int,
) -> bool
    decreases s, 0int,
{
    if s <= 0 {
        r == Err::<Object, EvalError>(EvalError::OutOfSteps) && env2 == env && s2 == s
    } else {
        let t = s - 1;
        match e {
            Expr::Number(_) => env2 == env && s2 == t && (r matches Ok(v) && v is Number),
            Expr::Variable(n) => env2 == env && s2 == t && r == if env.contains_key(n@) {
                Ok::<Object, EvalError>(env[n@])
            } else {
                Err::<Object, EvalError>(EvalError::UndefinedVariable(n))
            },
            Expr::BinaryOperator { left, right, op } => binary_rel(*left, *right, op, env, t, r, env2, s2),
            Expr::CodeBlock(es) => block_rel(es@, 0, env, t, Object::Null, r, env2, s2),
            Expr::Assign(n, v) => exists|rv: Result<Object, EvalError>, e1: Map<Seq<char>, Object>, s1: int|
            #[trigger] outcome(rv, e1, s1) && 
                0 <= s1 <= t && eval_rel(*v, env, t, rv, e1, s1) && s2 == s1 && match rv {
                    Err(e) => r == Err::<Object, EvalError>(e) && env2 == e1,
                    Ok(x) => r == Ok::<Object, EvalError>(x) && env2 == e1.insert(n@, x),
                },
            Expr::Function(ps, b) => env2 == env && s2 == t && (r matches Ok(
                Object::Function { args, body, context },
            ) && args@ == ps@ && body == b && context@ == env),
            Expr::FunctionCall(f, args) => exists|rf: Result<Object, EvalError>, e1: Map<Seq<char>, Object>, s1: int|
            #[trigger] outcome(rf, e1, s1) && 
                0 <= s1 <= t && eval_rel(*f, env, t, rf, e1, s1) && match rf {
                    Err(e) => r == Err::<Object, EvalError>(e) && env2 == e1 && s2 == s1,
                    Ok(Object::Function { args: ps, body, context: cap }) => call_rel(
                        args@,
                        0,
                        e1,
                        s1,
                        Seq::empty(),
                        (*ps)@,
                        *body,
                        (*cap)@,
                        r,
                        env2,
                        s2,
                    ),
                    Ok(_) => r == Err::<Object, EvalError>(EvalError::NotAFunction) && env2 == e1 && s2 == s1,
                },
            Expr::Switch(cs, bs) => if cs.len() != bs.len() {
                r == Err::<Object, EvalError>(EvalError::SwitchLengthMismatch) && env2 == env && s2 == t
            } else {
                switch_rel(cs@, bs@, 0, env, t, r, env2, s2)
            },
            Expr::While(c, b) => while_rel(*c, *b, env, t, r, env2, s2),
        }
    }
}


impl Expr {
    /// Evaluates the node against `context`, spending one of `steps` for each
    /// node evaluated, so that a loop that never ends runs out of steps.
    pub fn eval<A: Arithmetic>(&self, context: &mut Context, ops: &A, steps: &mut u64) -> (r: Result<Object, EvalError>)
        ensures
            *final(steps) <= *old(steps),
            *old(steps) > 0 ==> *final(steps) < *old(steps),
            eval_rel(*self, old(context)@, *old(steps) as int, r, final(context)@, *final(steps) as int),
        decreases *old(steps), 0int,
    {
        if *steps == 0 {
            return Err(EvalError::OutOfSteps);
        }
        *steps = *steps - 1;
        let ghost env0 = context@;
        let ghost t = *steps as int;
        match self {
            Expr::Number(value) => Ok(Object::Number(ops.literal(value))),
            Expr::BinaryOperator { left, right, op } => eval_binary_operator(left, right, op, context, ops, steps),
            Expr::Variable(name) => match context.get(name) {
                Some(value) => Ok(value),
                None => Err(EvalError::UndefinedVariable(name.clone())),
            },
            Expr::CodeBlock(code) => {
                let mut last_line_eval = Object::Null;
                let mut i: usize = 0;
                while i < code.len()
                    invariant
                        *self == Expr::CodeBlock(*code),
                        i <= code@.len(),
                        0 <= *steps as int <= t,
                        t + 1 == *old(steps) as int,
                        env0 == old(context)@,
                        forall|r2: Result<Object, EvalError>, env2: Map<Seq<char>, Object>, s2: int|
                            #[trigger] block_rel(code@, i as int, context@, *steps as int, last_line_eval, r2, env2, s2)
                                ==> block_rel(code@, 0, env0, t, Object::Null, r2, env2, s2),
                    decreases code@.len() - i,
                {
                    let ghost ei = context@;
                    let ghost si = *steps as int;
                    let ghost li = last_line_eval;
                    let ri = code[i].eval(context, ops, steps);
                    assert(eval_rel(code@[i as int], ei, si, ri, context@, *steps as int));
                    assert(outcome(ri, context@, *steps as int));
                    proof {
                        assert(block_rel(code@, i as int, ei, si, li, ri, context@, *steps as int) ==> block_rel(code@, 0, env0, t, Object::Null, ri, context@, *steps as int));
                    }
                    match ri {
                        Ok(v) => {
                            proof {
                                assert forall|r2: Result<Object, EvalError>, env2: Map<Seq<char>, Object>, s2: int|
                                    #[trigger] block_rel(code@, i + 1, context@, *steps as int, v, r2, env2, s2)
                                    implies block_rel(code@, 0, env0, t, Object::Null, r2, env2, s2) by {
                                    assert(block_rel(code@, i as int, ei, si, li, r2, env2, s2));
                                }
                            }
                            last_line_eval = v;
                        },
                        Err(e) => {
                            assert(block_rel(code@, i as int, ei, si, li, Err(e), context@, *steps as int));
                            assert(block_rel(code@, 0, env0, t, Object::Null, Err(e), context@, *steps as int));
                            assert(eval_rel(*self, env0, t + 1, Err(e), context@, *steps as int));
                            return Err(e);
                        },
                    }
                    i = i + 1;
                }
                assert(block_rel(code@, i as int, context@, *steps as int, last_line_eval, Ok(last_line_eval), context@, *steps as int));
                Ok(last_line_eval)
            },
            Expr::Assign(name, value) => {
                let rv = value.eval(context, ops, steps);
                assert(eval_rel(**value, env0, t, rv, context@, *steps as int));
                assert(outcome(rv, context@, *steps as int));
                let value = match rv {
                    Ok(v) => v,
                    Err(e) => return Err(e),
                };
                context.insert(name.clone(), value.copy());
                Ok(value)
            },
            Expr::Function(args, body) => Ok(
                Object::Function {
                    args: Rc::new(copy_names(args)),
                    body: share(body),
                    context: Rc::new(context.copy()),
                },
            ),
            Expr::FunctionCall(function, args) => {
                let rf = function.eval(context, ops, steps);
                assert(eval_rel(**function, env0, t, rf, context@, *steps as int));
                assert(outcome(rf, context@, *steps as int));
                let ghost rfv = rf;
                let callee = match rf {
                    Ok(v) => v,
                    Err(e) => return Err(e),
                };
                let ghost e1 = context@;
                let ghost s1 = *steps as int;
                match callee {
                    Object::Function { args: params, body, context: captured } => {
                        let ghost ps = (*params)@;
                        let ghost cap = (*captured)@;
                        let mut values: Vec<Object> = Vec::new();
                        let mut i: usize = 0;
                        while i < args.len()
                            invariant
                                *self == Expr::FunctionCall(*function, *args),
                                i <= args@.len(),
                                0 <= *steps as int <= t,
                                t + 1 == *old(steps) as int,
                        env0 == old(context)@,
                                ps == (*params)@,
                                cap == (*captured)@,
                                0 <= s1 <= t,
                                outcome(rfv, e1, s1),
                                eval_rel(**function, env0, t, rfv, e1, s1),
                                rfv == Ok::<Object, EvalError>(Object::Function { args: params, body, context: captured }),
                                forall|r2: Result<Object, EvalError>, env2: Map<Seq<char>, Object>, s2: int|
                                    #[trigger] call_rel(args@, i as int, context@, *steps as int, values@, ps, *body, cap, r2, env2, s2)
                                        ==> call_rel(args@, 0, e1, s1, Seq::empty(), ps, *body, cap, r2, env2, s2),
                            decreases args@.len() - i,
                        {
                            let ghost ei = context@;
                            let ghost si = *steps as int;
                            let ghost vi = values@;
                            let ra = args[i].eval(context, ops, steps);
                            assert(eval_rel(args@[i as int], ei, si, ra, context@, *steps as int));
                            assert(outcome(ra, context@, *steps as int));
                            match ra {
                                Ok(v) => {
                                    proof {
                                        assert forall|r2: Result<Object, EvalError>, env2: Map<Seq<char>, Object>, s2: int|
                                            #[trigger] call_rel(args@, i + 1, context@, *steps as int, vi.push(v), ps, *body, cap, r2, env2, s2)
                                            implies call_rel(args@, 0, e1, s1, Seq::empty(), ps, *body, cap, r2, env2, s2) by {
                                            assert(call_rel(args@, i as int, ei, si, vi, ps, *body, cap, r2, env2, s2));
                                        }
                                    }
                                    values.push(v);
                                },
                                Err(e) => {
                                    assert(call_rel(args@, i as int, ei, si, vi, ps, *body, cap, Err(e), context@, *steps as int));
                                    return Err(e);
                                },
                            }
                            i = i + 1;
                        }
                        let ghost ec = context@;
                        let ghost sc = *steps as int;
                        let mut env = call_environment(context, &captured, &params, &values);
                        let ghost eb0 = env@;
                        let r = body.eval(&mut env, ops, steps);
                        assert(outcome(r, env@, *steps as int));
                        assert(eb0 == call_env(ec, cap, ps, values@));
                        assert(call_rel(args@, i as int, ec, sc, values@, ps, *body, cap, r, ec, *steps as int));
                        r
                    },
                    _ => Err(EvalError::NotAFunction),
                }
            },
            Expr::Switch(cases, expressions) => {
                if cases.len() != expressions.len() {
                    return Err(EvalError::SwitchLengthMismatch);
                }
                let mut i: usize = 0;
                while i < cases.len()
                    invariant
                        *self == Expr::Switch(*cases, *expressions),
                        i <= cases@.len(),
                        cases@.len() == expressions@.len(),
                        0 <= *steps as int <= t,
                        t + 1 == *old(steps) as int,
                        env0 == old(context)@,
                        forall|r2: Result<Object, EvalError>, env2: Map<Seq<char>, Object>, s2: int|
                            #[trigger] switch_rel(cases@, expressions@, i as int, context@, *steps as int, r2, env2, s2)
                                ==> switch_rel(cases@, expressions@, 0, env0, t, r2, env2, s2),
                    decreases cases@.len() - i,
                {
                    let ghost ei = context@;
                    let ghost si = *steps as int;
                    let rc = cases[i].eval(context, ops, steps);
                    assert(eval_rel(cases@[i as int], ei, si, rc, context@, *steps as int));
                    assert(outcome(rc, context@, *steps as int));
                    let case_eval = match rc {
                        Ok(v) => v,
                        Err(e) => {
                            assert(switch_rel(cases@, expressions@, i as int, ei, si, Err(e), context@, *steps as int));
                            return Err(e);
                        },
                    };
                    let ghost e1 = context@;
                    let ghost s1 = *steps as int;
                    if selects_branch(&case_eval) {
                        let r = expressions[i].eval(context, ops, steps);
                        assert(eval_rel(expressions@[i as int], e1, s1, r, context@, *steps as int));
                        assert(outcome(r, context@, *steps as int));
                        assert(switch_rel(cases@, expressions@, i as int, ei, si, r, context@, *steps as int));
                        return r;
                    }
                    proof {
                        assert forall|r2: Result<Object, EvalError>, env2: Map<Seq<char>, Object>, s2: int|
                            #[trigger] switch_rel(cases@, expressions@, i + 1, e1, s1, r2, env2, s2)
                            implies switch_rel(cases@, expressions@, 0, env0, t, r2, env2, s2) by {
                            assert(switch_rel(cases@, expressions@, i as int, ei, si, r2, env2, s2));
                        }
                    }
                    i = i + 1;
                }
                assert(switch_rel(cases@, expressions@, i as int, context@, *steps as int, Ok(Object::Null), context@, *steps as int));
                Ok(Object::Null)
            },
            Expr::While(condition, expr) => {
                loop
                    invariant_except_break
                        forall|r2: Result<Object, EvalError>, env2: Map<Seq<char>, Object>, s2: int|
                            #[trigger] while_rel(**condition, **expr, context@, *steps as int, r2, env2, s2)
                                ==> while_rel(**condition, **expr, env0, t, r2, env2, s2),
                    invariant
                        *self == Expr::While(*condition, *expr),
                        0 <= *steps as int <= t,
                        t + 1 == *old(steps) as int,
                        env0 == old(context)@,
                    ensures
                        while_rel(**condition, **expr, env0, t, Ok(Object::Null), context@, *steps as int),
                    decreases *steps,
                {
                    let ghost ei = context@;
                    let ghost si = *steps as int;
                    let rc = condition.eval(context, ops, steps);
                    assert(eval_rel(**condition, ei, si, rc, context@, *steps as int));
                    assert(outcome(rc, context@, *steps as int));
                    let c = match rc {
                        Ok(v) => v,
                        Err(e) => {
                            assert(while_rel(**condition, **expr, ei, si, Err(e), context@, *steps as int));
                            return Err(e);
                        },
                    };
                    let ghost e1 = context@;
                    let ghost s1 = *steps as int;
                    if !object_to_bool(&c) {
                        assert(while_rel(**condition, **expr, ei, si, Ok(Object::Null), context@, *steps as int));
                        break;
                    }
                    let rb = expr.eval(context, ops, steps);
                    assert(eval_rel(**expr, e1, s1, rb, context@, *steps as int));
                    assert(outcome(rb, context@, *steps as int));
                    match rb {
                        Ok(_) => {
                            proof {
                                assert forall|r2: Result<Object, EvalError>, env2: Map<Seq<char>, Object>, s2: int|
                                    #[trigger] while_rel(**condition, **expr, context@, *steps as int, r2, env2, s2)
                                    implies while_rel(**condition, **expr, env0, t, r2, env2, s2) by {
                                    assert(while_rel(**condition, **expr, ei, si, r2, env2, s2));
                                }
                            }
                        },
                        Err(e) => {
                            assert(while_rel(**condition, **expr, ei, si, Err(e), context@, *steps as int));
                            return Err(e);
                        },
                    }
                }
                Ok(Object::Null)
            },
        }
    }
}

/// Evaluates both operands, which must be numbers, and applies the operator.
pub fn eval_binary_operator<A: Arithmetic>(
    left: &Expr,
    right: &Expr,
    op: &Token,
    context: &mut Context,
    ops: &A,
    steps: &mut u64,
) -> (r: Result<Object, EvalError>)
    ensures
        *final(steps) <= *old(steps),
        binary_rel(*left, *right, *op, old(context)@, *old(steps) as int, r, final(context)@, *final(steps) as int),
    decreases *old(steps), 1int,
{
    let rl = left.eval(context, ops, steps);
    assert(outcome(rl, context@, *steps as int));
    let ghost e1 = context@;
    let ghost s1 = *steps as int;
    let left_eval = match rl {
        Ok(Object::Number(x)) => x,
        Ok(_) => return Err(EvalError::LeftOperandNotNumber),
        Err(e) => return Err(e),
    };
    let rr = right.eval(context, ops, steps);
    assert(outcome(rr, context@, *steps as int));
    assert(eval_rel(*right, e1, s1, rr, context@, *steps as int));
    let right_eval = match rr {
        Ok(Object::Number(x)) => x,
        Ok(_) => return Err(EvalError::RightOperandNotNumber),
        Err(e) => return Err(e),
    };
    Ok(Object::Number(apply_operator(op, left_eval, right_eval, ops)))
}

/// Evaluating an unbound name, with any step left, fails with the
/// undefined-variable error and changes nothing: no default value stands in.
pub proof fn unbound_variable_fails(
    n: String,
    env: Map<Seq<char>, Object>,
    s: int,
    r: Result<Object, EvalError>,
    env2: Map<Seq<char>, Object>,
    s2: int,
)
    requires
        s > 0,
        !env.contains_key(n@),
        eval_rel(Expr::Variable(n), env, s, r, env2, s2),
    ensures
        r == Err::<Object, EvalError>(EvalError::UndefinedVariable(n)),
        env2 == env,
{
}

/// A switch whose conditions and branches differ in number fails, whatever
/// they hold, and evaluates none of them.
pub proof fn mismatched_switch_fails(
    cs: Vec<Expr>,
    bs: Vec<Expr>,
    env: Map<Seq<char>, Object>,
    s: int,
    r: Result<Object, EvalError>,
    env2: Map<Seq<char>, Object>,
    s2: int,
)
    requires
        cs.len() != bs.len(),
        eval_rel(Expr::Switch(cs, bs), env, s, r, env2, s2),
    ensures
        r is Err,
        env2 == env,
        s > 0 ==> r == Err::<Object, EvalError>(EvalError::SwitchLengthMismatch),
{
}

} // verus!

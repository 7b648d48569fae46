use std::rc::Rc;
use tinyscript::ast::{Arithmetic, Context, EvalError, Expr, Object};
use tinyscript::parser::{ParseError, Parser};
use tinyscript::tokenizer::{Token, tokenize};
use tinyscript::{Error, evaluate};

struct Floats;

impl Arithmetic for Floats {
    fn literal(&self, text: &String) -> u64 {
        text.parse::<f64>().unwrap().to_bits()
    }

    fn arithmetic(&self, op: &Token, a: u64, b: u64) -> u64 {
        let (x, y) = (f64::from_bits(a), f64::from_bits(b));
        let r = match op {
            Token::Plus => x + y,
            Token::Minus => x - y,
            Token::Mul => x * y,
            Token::Div => x / y,
            Token::Mod => x % y,
            _ => 0.0,
        };
        r.to_bits()
    }
}

fn run_in(source: &str, context: &mut Context) -> Result<Object, Error> {
    evaluate(source, context, &Floats, 1_000_000)
}

fn run(source: &str) -> Result<Object, Error> {
    run_in(source, &mut Context::new())
}

fn number(r: Result<Object, Error>) -> f64 {
    match r {
        Ok(Object::Number(bits)) => f64::from_bits(bits),
        other => panic!("not a number: {:?}", other),
    }
}

fn parse(source: &str) -> Result<Expr, ParseError> {
    let tokens = tokenize(source).unwrap();
    let mut parser = Parser::new(&tokens);
    parser.start_parsing()
}

#[test]
fn block_assigns_in_surrounding_environment() {
    let mut context = Context::new();
    assert_eq!(number(run_in("[a = 5; a + 2]", &mut context)), 7.0);
    match context.get(&"a".to_string()) {
        Some(Object::Number(bits)) => assert_eq!(f64::from_bits(bits), 5.0),
        other => panic!("a is {:?}", other),
    }
}

#[test]
fn function_applied_to_argument() {
    assert!(matches!(run("fn x -> x * x"), Ok(Object::Function { .. })));
    assert_eq!(number(run("(fn x -> x * x)(4)")), 16.0);
}

#[test]
fn first_matching_switch_arm_wins() {
    assert_eq!(number(run("{1 == 2 -> 10, 1 == 1 -> 20}")), 20.0);
    assert_eq!(number(run("{1 -> 10, 1 -> 20}")), 10.0);
    assert_eq!(number(run("{1 == 1 -> 20, missing -> 30}")), 20.0);
    assert!(matches!(run("{0 -> 1}"), Ok(Object::Null)));
    assert_eq!(number(run("{fn -> 0 -> 4}")), 4.0);
}

#[test]
fn while_loop_counts() {
    assert_eq!(number(run("[i = 0; while i < 3 [i = i + 1]; i]")), 3.0);
    assert!(matches!(run("while 0 1"), Ok(Object::Null)));
}

#[test]
fn unbound_variable_fails() {
    assert_eq!(
        run("x").unwrap_err(),
        Error::Eval(EvalError::UndefinedVariable("x".to_string()))
    );
    assert_eq!(
        run("[y = 1; x]").unwrap_err(),
        Error::Eval(EvalError::UndefinedVariable("x".to_string()))
    );
}

#[test]
fn mismatched_switch_fails() {
    let switch = Expr::Switch(vec![Expr::Number("1".to_string())], vec![]);
    let mut steps: u64 = 100;
    let r = switch.eval(&mut Context::new(), &Floats, &mut steps);
    assert_eq!(r.unwrap_err(), EvalError::SwitchLengthMismatch);
    let empty_cases = Expr::Switch(vec![], vec![Expr::Variable("nothing".to_string())]);
    let r = empty_cases.eval(&mut Context::new(), &Floats, &mut steps);
    assert_eq!(r.unwrap_err(), EvalError::SwitchLengthMismatch);
}

#[test]
fn captured_value_beats_reassigned_caller_value() {
    // before the reassignment the captured and the caller's value agree
    assert_eq!(number(run("[x = 1; f = fn -> x; f()]")), 1.0);
    // after it the captured value still counts
    assert_eq!(number(run("[x = 1; f = fn -> x; x = 2; f()]")), 1.0);
    // a name the function did not capture comes from the caller
    assert_eq!(number(run("[f = fn -> y; y = 5; f()]")), 5.0);
    // a parameter beats both
    assert_eq!(number(run("[x = 1; f = fn x -> x; x = 2; f(7)]")), 7.0);
}

#[test]
fn call_does_not_change_caller() {
    assert_eq!(
        run("[f = fn -> z = 3; f(); z]").unwrap_err(),
        Error::Eval(EvalError::UndefinedVariable("z".to_string()))
    );
}

#[test]
fn missing_argument_leaves_parameter_unbound() {
    assert_eq!(
        run("(fn a, b -> b)(1)").unwrap_err(),
        Error::Eval(EvalError::UndefinedVariable("b".to_string()))
    );
    assert_eq!(number(run("(fn a, b -> a)(1)")), 1.0);
}

#[test]
fn arguments_see_and_change_caller() {
    assert_eq!(number(run("[f = fn a -> a; f(q = 4); q]")), 4.0);
    // the call runs in the caller's environment as the arguments left it
    assert_eq!(number(run("[f = fn a -> q; f(q = 4)]")), 4.0);
}

#[test]
fn operator_errors() {
    assert_eq!(run("(fn -> 1) + 1").unwrap_err(), Error::Eval(EvalError::LeftOperandNotNumber));
    assert_eq!(run("1 + (fn -> 1)").unwrap_err(), Error::Eval(EvalError::RightOperandNotNumber));
    assert_eq!(run("1(2)").unwrap_err(), Error::Eval(EvalError::NotAFunction));
}

#[test]
fn endless_loop_runs_out_of_steps() {
    assert_eq!(
        evaluate("while 1 1", &mut Context::new(), &Floats, 1000).unwrap_err(),
        Error::Eval(EvalError::OutOfSteps)
    );
}

#[test]
fn arithmetic_and_precedence() {
    assert_eq!(number(run("1 + 2 * 3")), 7.0);
    assert_eq!(number(run("1 - 2 - 3")), -4.0);
    assert_eq!(number(run("7 % 4")), 3.0);
    assert_eq!(number(run("1 / 4")), 0.25);
    assert_eq!(number(run("(1 + 2) * 3")), 9.0);
    assert!(number(run("1 / 0")).is_infinite());
}

#[test]
fn comparisons() {
    assert_eq!(number(run("1 < 2")), 1.0);
    assert_eq!(number(run("2 < 1")), 0.0);
    assert_eq!(number(run("2 <= 2")), 1.0);
    assert_eq!(number(run("3 >= 4")), 0.0);
    assert_eq!(number(run("3 > 2")), 1.0);
    assert_eq!(number(run("2 == 2")), 1.0);
    assert_eq!(number(run("0 / 0 == 0 / 0")), 0.0);
    assert_eq!(number(run("0 / 0 < 1")), 0.0);
    assert_eq!(number(run("(0 - 1) * 0 == 0")), 1.0);
    assert_eq!(number(run("0 - 1 / 0 < 0 - 5")), 1.0);
    assert_eq!(number(run("1 + 1 == 2")), 1.0);
}

#[test]
fn nan_condition_is_true() {
    assert_eq!(number(run("{0 / 0 -> 1}")), 1.0);
}

#[test]
fn empty_block_is_null() {
    let block = Expr::CodeBlock(vec![]);
    let mut steps: u64 = 10;
    assert!(matches!(block.eval(&mut Context::new(), &Floats, &mut steps), Ok(Object::Null)));
}

#[test]
fn lexical_error_reported() {
    assert_eq!(run("1.2.3").unwrap_err(), Error::Lex("Found second dot in a number.".to_string()));
}

#[test]
fn parse_errors() {
    assert_eq!(parse("(1").unwrap_err(), ParseError::MissingRightParen);
    assert_eq!(parse("f(1 2)").unwrap_err(), ParseError::MissingArgumentSeparator);
    assert_eq!(parse("fn x 1").unwrap_err(), ParseError::MissingArrow);
    assert_eq!(parse("{1 2}").unwrap_err(), ParseError::MissingSwitchArrow);
    assert_eq!(parse("[1").unwrap_err(), ParseError::MissingRightBracket);
    assert_eq!(parse("{1 -> 2").unwrap_err(), ParseError::MissingRightBrace);
    assert_eq!(parse(")").unwrap_err(), ParseError::UnexpectedToken(Some(Token::RParen)));
    assert_eq!(parse("").unwrap_err(), ParseError::UnexpectedToken(None));
    assert_eq!(run("1 +").unwrap_err(), Error::Parse(ParseError::UnexpectedToken(None)));
}

#[test]
fn assignment_is_right_recursive() {
    match parse("a = b = 1 + 2").unwrap() {
        Expr::Assign(a, inner) => {
            assert_eq!(a, "a");
            match *inner {
                Expr::Assign(b, value) => {
                    assert_eq!(b, "b");
                    assert!(matches!(*value, Expr::BinaryOperator { op: Token::Plus, .. }));
                }
                other => panic!("{:?}", other),
            }
        }
        other => panic!("{:?}", other),
    }
}

#[test]
fn chained_calls_and_arguments() {
    match parse("f(x, 1)(y)").unwrap() {
        Expr::FunctionCall(inner, args) => {
            assert_eq!(args.len(), 1);
            match *inner {
                Expr::FunctionCall(f, args) => {
                    assert!(matches!(*f, Expr::Variable(ref n) if n == "f"));
                    assert_eq!(args.len(), 2);
                }
                other => panic!("{:?}", other),
            }
        }
        other => panic!("{:?}", other),
    }
    assert_eq!(number(run("(fn a -> fn b -> a - b)(5)(2)")), 3.0);
}

#[test]
fn function_node_keeps_parameters_and_body() {
    match parse("fn a, b -> a").unwrap() {
        Expr::Function(params, body) => {
            assert_eq!(params, vec!["a".to_string(), "b".to_string()]);
            assert!(matches!(&*body, Expr::Variable(n) if n == "a"));
            let _shared: Rc<Expr> = body;
        }
        other => panic!("{:?}", other),
    }
}

#[test]
fn context_insert_replaces() {
    let mut c = Context::new();
    c.insert("k".to_string(), Object::Null);
    c.insert("k".to_string(), Object::Number(0));
    assert!(matches!(c.get(&"k".to_string()), Some(Object::Number(0))));
    assert!(c.get(&"other".to_string()).is_none());
}

#[test]
fn call_chain_continues_after_empty_arguments() {
    match parse("f()(1)").unwrap() {
        Expr::FunctionCall(inner, args) => {
            assert_eq!(args.len(), 1);
            assert!(matches!(*inner, Expr::FunctionCall(_, ref a) if a.is_empty()));
        }
        other => panic!("{:?}", other),
    }
    assert_eq!(number(run("(fn -> fn y -> y + 1)()(4)")), 5.0);
}

#[test]
fn parse_before_start_sees_no_token() {
    let tokens = tokenize("1").unwrap();
    let mut parser = Parser::new(&tokens);
    assert_eq!(parser.parse().unwrap_err(), ParseError::UnexpectedToken(None));
}

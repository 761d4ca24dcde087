use throttle::lexer::lex;
use throttle::{BooleanOp, LiteralValue, Node, ParseError, Span, VM, MAIN_FILE};

fn parse(src: &str) -> Result<VM, ParseError> {
    VM::build(lex(src.to_string()).unwrap())
}

fn is_int(n: &Node, v: i32) -> bool {
    matches!(n, Node::Literal(LiteralValue::Integer(x)) if *x == v)
}

fn is_name(n: &Node, s: &str) -> bool {
    matches!(n, Node::Literal(LiteralValue::Name(x)) if x == s)
}

#[test]
fn parse_var_assignment() {
    let vm = parse("var x = 5;").unwrap();
    assert_eq!(vm.program.len(), 1);
    match &vm.program[0] {
        Node::VariableAssignment { lhs, rhs } => {
            assert_eq!(lhs, "x");
            assert!(is_int(rhs, 5));
        }
        other => panic!("unexpected node {:?}", other),
    }
}

#[test]
fn parse_chain_left_to_right() {
    let vm = parse("1 + 2 * 3").unwrap();
    assert_eq!(vm.program.len(), 1);
    match &vm.program[0] {
        Node::Expression { start, body } => {
            assert!(is_int(start, 1));
            assert_eq!(body.len(), 2);
            assert_eq!(body[0].0, BooleanOp::Add);
            assert!(is_int(&body[0].1, 2));
            assert_eq!(body[1].0, BooleanOp::Mul);
            assert!(is_int(&body[1].1, 3));
        }
        other => panic!("unexpected node {:?}", other),
    }
}

#[test]
fn unterminated_proc_is_an_error() {
    let err = parse("proc f(a, b) begin var x = 1;").unwrap_err();
    // the tokens ran out inside the block: the error points at the last token, `;`
    assert_eq!(err, ParseError::UnexpectedEnd(Span::new(28, 29, MAIN_FILE)));
}

#[test]
fn parse_proc_declaration() {
    let vm = parse("proc add(a, b) begin return a + b; end").unwrap();
    assert_eq!(vm.program.len(), 1);
    match &vm.program[0] {
        Node::FunctionDeclaration { name, params, body } => {
            assert_eq!(name, "add");
            assert_eq!(params, &vec!["a".to_string(), "b".to_string()]);
            assert_eq!(body.len(), 1);
            match &body[0] {
                Node::ReturnStatement(e) => match &**e {
                    Node::Expression { start, body } => {
                        assert!(is_name(start, "a"));
                        assert_eq!(body.len(), 1);
                        assert_eq!(body[0].0, BooleanOp::Add);
                        assert!(is_name(&body[0].1, "b"));
                    }
                    other => panic!("unexpected node {:?}", other),
                },
                other => panic!("unexpected node {:?}", other),
            }
        }
        other => panic!("unexpected node {:?}", other),
    }
}

#[test]
fn parse_proc_without_params() {
    let vm = parse("proc main() begin end").unwrap();
    match &vm.program[0] {
        Node::FunctionDeclaration { name, params, body } => {
            assert_eq!(name, "main");
            assert!(params.is_empty());
            assert!(body.is_empty());
        }
        other => panic!("unexpected node {:?}", other),
    }
}

#[test]
fn parse_if_statement() {
    let vm = parse("if x = 1 begin var y = \"one\"; end").unwrap();
    assert_eq!(vm.program.len(), 1);
    match &vm.program[0] {
        Node::IfStatement { test, body } => {
            match &**test {
                Node::Expression { start, body } => {
                    assert!(is_name(start, "x"));
                    assert_eq!(body[0].0, BooleanOp::Eq);
                    assert!(is_int(&body[0].1, 1));
                }
                other => panic!("unexpected node {:?}", other),
            }
            assert_eq!(body.len(), 1);
            match &body[0] {
                Node::VariableAssignment { lhs, rhs } => {
                    assert_eq!(lhs, "y");
                    assert!(matches!(&**rhs, Node::Literal(LiteralValue::QuotedStr(s)) if s == "one"));
                }
                other => panic!("unexpected node {:?}", other),
            }
        }
        other => panic!("unexpected node {:?}", other),
    }
}

#[test]
fn parse_parenthesised_operand() {
    let vm = parse("(1 + 2) * 3;").unwrap();
    match &vm.program[0] {
        Node::Expression { start, body } => {
            match &**start {
                Node::Expression { start, body } => {
                    assert!(is_int(start, 1));
                    assert_eq!(body[0].0, BooleanOp::Add);
                }
                other => panic!("unexpected node {:?}", other),
            }
            assert_eq!(body.len(), 1);
            assert_eq!(body[0].0, BooleanOp::Mul);
            assert!(is_int(&body[0].1, 3));
        }
        other => panic!("unexpected node {:?}", other),
    }
}

#[test]
fn parse_several_statements() {
    let vm = parse("var a = 1; var b = a - 2; return b / 2;").unwrap();
    assert_eq!(vm.program.len(), 3);
    assert!(matches!(vm.program[2], Node::ReturnStatement(_)));
}

#[test]
fn parse_empty_program() {
    let vm = VM::build(Vec::new()).unwrap();
    assert!(vm.program.is_empty());
}

#[test]
fn missing_name_after_var() {
    assert_eq!(
        parse("var = 5;").unwrap_err(),
        ParseError::UnexpectedToken(Span::new(4, 5, MAIN_FILE))
    );
}

#[test]
fn missing_semicolon_after_return() {
    assert_eq!(
        parse("return 1").unwrap_err(),
        ParseError::UnexpectedEnd(Span::new(7, 8, MAIN_FILE))
    );
}

#[test]
fn unexpected_token_at_statement_start() {
    assert_eq!(
        parse(") x").unwrap_err(),
        ParseError::UnexpectedToken(Span::new(0, 1, MAIN_FILE))
    );
}

#[test]
fn unclosed_parenthesis() {
    assert_eq!(
        parse("(1 + 2;").unwrap_err(),
        ParseError::UnexpectedToken(Span::new(6, 7, MAIN_FILE))
    );
}

#[test]
fn bad_parameter_list() {
    assert_eq!(
        parse("proc f(a b) begin end").unwrap_err(),
        ParseError::UnexpectedToken(Span::new(9, 10, MAIN_FILE))
    );
}

#[test]
fn unterminated_if_block() {
    assert_eq!(
        parse("if x begin return 1;").unwrap_err(),
        ParseError::UnexpectedEnd(Span::new(19, 20, MAIN_FILE))
    );
}

#[test]
fn nested_blocks() {
    let vm = parse("proc f(n) begin if n begin return n; end return 0; end var r = f;").unwrap();
    assert_eq!(vm.program.len(), 2);
    match &vm.program[0] {
        Node::FunctionDeclaration { body, .. } => {
            assert_eq!(body.len(), 2);
            assert!(matches!(body[0], Node::IfStatement { .. }));
            assert!(matches!(body[1], Node::ReturnStatement(_)));
        }
        other => panic!("unexpected node {:?}", other),
    }
}

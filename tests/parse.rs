use inet::parser::transform::compileProgram;
use inet::parser::Semantic::{self, PrincipalType};
use inet::parser::grammar::{LangParser, ParseError};
use inet::parser::{ast, AstNode};

#[test]
pub fn test_ast() {
    let s = "
        INC(x) # S(y) = S() ~ S(y)
        INC(x) # O() = x
        INC(O) ~ S(O)".to_string();

    let an = ast(&s).unwrap();

    assert_eq!(an,
     AstNode::Program(
         vec![
            AstNode::Equation(
                Box::new(AstNode::Agent(
                            Box::new(AstNode::Id("INC".to_string())),
                            vec![AstNode::Var("x".to_string())])),
                Box::new(AstNode::Agent(
                            Box::new(AstNode::Id("S".to_string())),
                            vec![AstNode::Var("y".to_string())])),
                vec![
                    AstNode::Principal(
                        Box::new(AstNode::Agent(
                            Box::new(AstNode::Id("S".to_string())),
                            vec![])),
                        Box::new(AstNode::Agent(
                            Box::new(AstNode::Id("S".to_string())),
                            vec![AstNode::Var("y".to_string())])))]),

            AstNode::Equation(
                Box::new(AstNode::Agent(
                    Box::new(AstNode::Id("INC".to_string())),
                    vec![AstNode::Var("x".to_string())])),
                Box::new(AstNode::Agent(Box::new(AstNode::Id("O".to_string())), vec![])),
                vec![AstNode::Var("x".to_string())])
         ],
         Box::new(AstNode::Principal(
             Box::new(
                            AstNode::Agent(Box::new(AstNode::Id("INC".to_string())),
                                           vec![AstNode::Cons("O".to_string())])),
             Box::new(
                            AstNode::Agent(Box::new(AstNode::Id("S".to_string())),
                                           vec![AstNode::Cons("O".to_string())])))))
    );
}

#[test]
pub fn test_semantic() {
    let s = "
        INC(x) # S(y) = S() ~ S(y)
        INC(x) # O() = x
        INC(O) ~ S(O)".to_string();

    let an = ast(&s).unwrap();

    let pg = Semantic::Program::fromAst(an).unwrap();

    assert_eq!(pg.equations.len(), 2);
    assert_eq!(pg.equations[0].left.name, "INC".to_string());
    assert_eq!(pg.equations[0].right.name, "S".to_string());

    assert_eq!(pg.equations[0].left.ports.len(), 1);
    assert_eq!(pg.equations[0].right.ports.len(), 1);
    assert_eq!(pg.equations[1].principals.len(), 1);
    assert_eq!(pg.equations[1].principals[0].ptype, PrincipalType::Var);
}

#[test]
pub fn test_compilation() {
    let s = "
        INC(x) # S(y) = S() ~ S(y)
        INC(x) # O() = x
        INC(O) ~ S(O)".to_string();

    let an = ast(&s).unwrap();
    let pg = Semantic::Program::fromAst(an).unwrap();
    let tup = compileProgram(pg).unwrap();
    let mut vm = tup.0;
    let tm = tup.1;

    assert_eq!(tm.get("INC").unwrap(), 0);
    assert_eq!(tm.get("S").unwrap(), 1);
    assert_eq!(tm.get("O").unwrap(), 2);

    vm.reduce().unwrap();

    assert_eq!(vm.interaction_net.heap.len(), 4);
    assert_eq!(vm.rules.len(), 2);
}

#[test]
fn parse_addition_program_and_reduce() {
    let s = "
    ADD(x) # S(y) = ADD(S(x)) ~ y
    ADD(O) # O() = O
    ADD(x) # O() = x
    ADD(O) ~ S(O)".to_string();
    let pg = Semantic::Program::fromAst(ast(&s).unwrap()).unwrap();
    assert_eq!(pg.equations.len(), 3);
    let (mut vm, _) = compileProgram(pg).unwrap();
    assert_eq!(vm.reduce(), Ok(()));
    assert_eq!(vm.interaction_net.heap.len(), 2);
}

#[test]
fn parse_example_round_trip_program() {
    let s = "ADD(O) # O() = O\nADD(O) ~ S(O)".to_string();
    let pg = Semantic::Program::fromAst(ast(&s).unwrap()).unwrap();
    let (mut vm, _) = compileProgram(pg).unwrap();
    assert_eq!(vm.reduce(), Ok(()));
    assert!(vm.interaction_net.active_pairs.is_empty());
}

#[test]
fn parse_several_right_hand_items() {
    let an = LangParser::parse("A(x, y) # B() = x ~ y, C ~ D(), z A() ~ B()").unwrap();
    match an {
        AstNode::Program(eqs, _) => match &eqs[0] {
            AstNode::Equation(_, _, items) => assert_eq!(items.len(), 3),
            _ => panic!("not an equation"),
        },
        _ => panic!("not a program"),
    }
}

#[test]
fn parse_rejects_bad_text() {
    assert_eq!(LangParser::parse("A() # B() ="), Err(ParseError::Unexpected(11)));
    assert_eq!(LangParser::parse("A() ~ B() C"), Err(ParseError::Unexpected(10)));
    assert!(LangParser::parse("A(x) # B() = C()").is_err());
    assert!(LangParser::parse("").is_err());
}

use inet::interaction::vm::Instruction;
use inet::parser::transform::{compileEquation, compileProgram, CompileError, NameTable};
use inet::parser::Semantic::{self, AgentType, PrincipalType};
use inet::parser::{AstError, AstNode};

fn var(s: &str) -> AstNode {
    AstNode::Var(s.to_string())
}

fn cons(s: &str) -> AstNode {
    AstNode::Cons(s.to_string())
}

fn agent(s: &str, ports: Vec<AstNode>) -> AstNode {
    AstNode::Agent(Box::new(AstNode::Id(s.to_string())), ports)
}

fn pair(l: AstNode, r: AstNode) -> AstNode {
    AstNode::Principal(Box::new(l), Box::new(r))
}

fn equation(l: AstNode, r: AstNode, ps: Vec<AstNode>) -> AstNode {
    AstNode::Equation(Box::new(l), Box::new(r), ps)
}

// INC(x) # S(y) = S() ~ S(y); INC(x) # O() = x; INC(O) ~ S(O)
fn increment_program() -> AstNode {
    AstNode::Program(
        vec![
            equation(
                agent("INC", vec![var("x")]),
                agent("S", vec![var("y")]),
                vec![pair(agent("S", vec![]), agent("S", vec![var("y")]))],
            ),
            equation(agent("INC", vec![var("x")]), agent("O", vec![]), vec![var("x")]),
        ],
        Box::new(pair(agent("INC", vec![cons("O")]), agent("S", vec![cons("O")]))),
    )
}

// ADD(x) # S(y) = ADD(S(x)) ~ y; ADD(O) # O() = O; ADD(x) # O() = x; ADD(O) ~ S(O)
fn addition_program() -> AstNode {
    AstNode::Program(
        vec![
            equation(
                agent("ADD", vec![var("x")]),
                agent("S", vec![var("y")]),
                vec![pair(agent("ADD", vec![agent("S", vec![var("x")])]), var("y"))],
            ),
            equation(agent("ADD", vec![cons("O")]), agent("O", vec![]), vec![cons("O")]),
            equation(agent("ADD", vec![var("x")]), agent("O", vec![]), vec![var("x")]),
        ],
        Box::new(pair(agent("ADD", vec![cons("O")]), agent("S", vec![cons("O")]))),
    )
}

#[test]
fn semantic_of_increment_program() {
    let pg = Semantic::Program::fromAst(increment_program()).unwrap();
    assert_eq!(pg.equations.len(), 2);
    assert_eq!(pg.equations[0].left.name, "INC".to_string());
    assert_eq!(pg.equations[0].right.name, "S".to_string());
    assert_eq!(pg.equations[0].left.ports.len(), 1);
    assert_eq!(pg.equations[0].right.ports.len(), 1);
    assert_eq!(pg.equations[1].principals.len(), 1);
    assert_eq!(pg.equations[1].principals[0].ptype, PrincipalType::Var);
    assert_eq!(pg.term.ptype, PrincipalType::Pure);
    assert_eq!(pg.term.left.ports[0].atype, AgentType::Cons);
}

#[test]
fn from_ast_rejects_misplaced_nodes() {
    assert_eq!(Semantic::Program::fromAst(var("x")).err(), Some(AstError::IllFormed));
    let bad = AstNode::Program(vec![], Box::new(agent("A", vec![])));
    assert_eq!(Semantic::Program::fromAst(bad).err(), Some(AstError::IllFormed));
    let nested = AstNode::Program(
        vec![],
        Box::new(pair(agent("A", vec![AstNode::Id("B".to_string())]), agent("C", vec![]))),
    );
    assert_eq!(Semantic::Program::fromAst(nested).err(), Some(AstError::IllFormed));
}

#[test]
fn compile_increment_program() {
    let pg = Semantic::Program::fromAst(increment_program()).unwrap();
    let (mut vm, tm) = compileProgram(pg).unwrap();
    assert_eq!(tm.get("INC"), Some(0));
    assert_eq!(tm.get("S"), Some(1));
    assert_eq!(tm.get("O"), Some(2));
    assert_eq!(tm.get("ADD"), None);
    assert_eq!(vm.interaction_net.active_pairs.len(), 1);
    vm.reduce().unwrap();
    assert_eq!(vm.interaction_net.heap.len(), 4);
    assert_eq!(vm.rules.len(), 2);
}

#[test]
fn compile_addition_program() {
    let pg = Semantic::Program::fromAst(addition_program()).unwrap();
    let (mut vm, tm) = compileProgram(pg).unwrap();
    let s = tm.get("S").unwrap();
    let o = tm.get("O").unwrap();
    vm.reduce().unwrap();
    assert!(vm.interaction_net.active_pairs.is_empty());
    assert_eq!(vm.interaction_net.heap.len(), 2);
    let succ = vm.interaction_net.heap.values().find(|a| a.atype == s).unwrap().clone();
    let zero = vm.interaction_net.heap.values().find(|a| a.atype == o).unwrap().clone();
    assert_eq!(succ.ports, vec![0, zero.id]);
    assert_eq!(zero.ports, vec![0, succ.id]);
}

#[test]
fn small_addition_program_terminates() {
    let ast = AstNode::Program(
        vec![equation(agent("ADD", vec![cons("O")]), agent("O", vec![]), vec![cons("O")])],
        Box::new(pair(agent("ADD", vec![cons("O")]), agent("S", vec![cons("O")]))),
    );
    let pg = Semantic::Program::fromAst(ast).unwrap();
    let (mut vm, _) = compileProgram(pg).unwrap();
    assert_eq!(vm.reduce(), Ok(()));
    assert!(vm.interaction_net.active_pairs.is_empty());
}

#[test]
fn compile_equation_code() {
    let pg = Semantic::Program::fromAst(increment_program()).unwrap();
    let mut tm = NameTable::new();
    tm.add(&"INC".to_string());
    tm.add(&"S".to_string());
    tm.add(&"O".to_string());
    assert_eq!(tm.len(), 3);
    let code = compileEquation(&pg.equations[1], &tm).unwrap();
    assert_eq!(
        code,
        vec![
            Instruction::DUP,
            Instruction::CONST(1),
            Instruction::PORT,
            Instruction::POP(1),
            Instruction::POP(0),
            Instruction::PUSH(0),
            Instruction::DROP_AGENT,
            Instruction::DROP_AGENT,
            Instruction::PUSH(1),
        ]
    );
    let code = compileEquation(&pg.equations[0], &tm).unwrap();
    assert_eq!(code[4..8].to_vec(), vec![
        Instruction::POP(0),
        Instruction::DUP,
        Instruction::CONST(1),
        Instruction::PORT,
    ]);
    assert_eq!(code[12..16].to_vec(), vec![
        Instruction::GEN,
        Instruction::DUP,
        Instruction::CONST(1),
        Instruction::NEW_AGENT,
    ]);
}

#[test]
fn compile_equation_unknown_type() {
    let pg = Semantic::Program::fromAst(increment_program()).unwrap();
    let tm = NameTable::new();
    assert_eq!(compileEquation(&pg.equations[0], &tm), Err(CompileError::UnknownType));
}

#[test]
fn compile_equation_unbound_variable() {
    let ast = AstNode::Program(
        vec![equation(agent("A", vec![]), agent("B", vec![]), vec![var("z")])],
        Box::new(pair(agent("A", vec![]), agent("B", vec![]))),
    );
    let pg = Semantic::Program::fromAst(ast).unwrap();
    assert_eq!(compileProgram(pg).err(), Some(CompileError::UnboundVariable));
}

#[test]
fn compile_rejects_variable_in_term() {
    let ast = AstNode::Program(vec![], Box::new(pair(agent("A", vec![var("x")]), agent("B", vec![]))));
    let pg = Semantic::Program::fromAst(ast).unwrap();
    assert_eq!(compileProgram(pg).err(), Some(CompileError::VariableInTerm));
}

#[test]
fn compile_rejects_bare_term() {
    let ast = AstNode::Program(vec![], Box::new(cons("O")));
    let pg = Semantic::Program::fromAst(ast).unwrap();
    assert_eq!(compileProgram(pg).err(), Some(CompileError::TermNotPure));
}

#[test]
fn compile_rejects_too_many_variables() {
    let mut ports = vec![];
    for i in 0..256 {
        ports.push(var(&format!("v{}", i)));
    }
    let ast = AstNode::Program(
        vec![equation(agent("A", ports), agent("B", vec![]), vec![])],
        Box::new(pair(agent("A", vec![]), agent("B", vec![]))),
    );
    let pg = Semantic::Program::fromAst(ast).unwrap();
    assert_eq!(compileProgram(pg).err(), Some(CompileError::ScratchpadFull));
}

#[test]
fn name_table_numbers_in_order() {
    let mut tm = NameTable::new();
    tm.add(&"B".to_string());
    tm.add(&"A".to_string());
    tm.add(&"B".to_string());
    assert_eq!(tm.len(), 2);
    assert_eq!(tm.get("B"), Some(0));
    assert_eq!(tm.get("A"), Some(1));
    assert_eq!(tm.lookup(&"A".to_string()), Some(1));
}

#[test]
fn ports_of_live_agents_are_live_after_reduction() {
    for ast in [increment_program(), addition_program()] {
        let pg = Semantic::Program::fromAst(ast).unwrap();
        let (mut vm, _) = compileProgram(pg).unwrap();
        vm.reduce().unwrap();
        let heap = &vm.interaction_net.heap;
        for agent in heap.values() {
            for p in &agent.ports {
                assert!(*p == 0 || heap.contains_key(p));
            }
        }
    }
}

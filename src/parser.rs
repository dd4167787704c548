//! The abstract syntax of the rule language and its reading as a program.
#[allow(non_snake_case)]
pub mod Semantic;
pub mod grammar;
pub mod transform;

use crate::parser::grammar::{names_ok, render, shape_ok, strip, ParseError};
use crate::parser::Semantic::{AgentType, PrincipalType};
pub use crate::parser::grammar::LangParser;
use vstd::prelude::*;

verus! {

broadcast use vstd::std_specs::vec::group_vec_axioms;

/// A node of the syntax tree of a rule program.
#[derive(Debug, PartialEq)]
pub enum AstNode {
    Id(String),
    Var(String),
    Cons(String),
    Agent(Box<AstNode>, Vec<AstNode>),
    Principal(Box<AstNode>, Box<AstNode>),
    Equation(Box<AstNode>, Box<AstNode>, Vec<AstNode>),
    Program(Vec<AstNode>, Box<AstNode>),
}

/// The tree does not have the shape of a program.
#[derive(Debug, Clone, Copy, PartialEq, Eq, Structural)]
pub enum AstError {
    IllFormed,
}

/// The name an agent's head node gives it: an identifier's text, else empty.
pub open spec fn head_name(id: AstNode) -> Seq<char> {
    match id {
        AstNode::Id(s) => s@,
        _ => Seq::empty(),
    }
}

/// Whether `ast` reads as an agent term: variables, constructors and agents
/// all the way down.
pub open spec fn agent_ok(ast: AstNode) -> bool
    decreases ast, 1nat, 0nat,
{
    match ast {
        AstNode::Var(_) => true,
        AstNode::Cons(_) => true,
        AstNode::Agent(_, ports) => ports_ok(ast, ports.len() as nat),
        _ => false,
    }
}

/// Whether the first `n` port terms of the agent node `ast` read as agent
/// terms.
pub open spec fn ports_ok(ast: AstNode, n: nat) -> bool
    decreases ast, 0nat, n,
{
    if !(ast is Agent) || n > ast->Agent_1.len() {
        false
    } else if n == 0 {
        true
    } else {
        ports_ok(ast, (n - 1) as nat) && agent_ok(ast->Agent_1[n - 1])
    }
}

/// Whether `ag` is the agent term that `ast` reads as.
pub open spec fn agent_of(ast: AstNode, ag: Semantic::Agent) -> bool
    decreases ast, 1nat, 0nat,
{
    match ast {
        AstNode::Var(s) => ag.name@ == s@ && ag.atype == AgentType::Var && ag.ports@.len() == 0,
        AstNode::Cons(s) => ag.name@ == s@ && ag.atype == AgentType::Cons && ag.ports@.len() == 0,
        AstNode::Agent(id, ports) => ag.name@ == head_name(*id) && ag.atype == AgentType::Agent
            && ag.ports@.len() == ports.len() && ports_of(ast, ag.ports@, ports.len() as nat),
        _ => false,
    }
}

/// Whether the first `n` terms of `pv` are what the first `n` port terms of
/// the agent node `ast` read as.
pub open spec fn ports_of(ast: AstNode, pv: Seq<Semantic::Agent>, n: nat) -> bool
    decreases ast, 0nat, n,
{
    if !(ast is Agent) || n > ast->Agent_1.len() || n > pv.len() {
        false
    } else if n == 0 {
        true
    } else {
        ports_of(ast, pv, (n - 1) as nat) && agent_of(ast->Agent_1[n - 1], pv[n - 1])
    }
}

/// An agent node whose first `m` port terms read as agent terms has that of
/// each shorter prefix.
pub proof fn lemma_ports_ok_prefix(ast: AstNode, n: nat, m: nat)
    requires
        n <= m,
        ports_ok(ast, m),
    ensures
        ports_ok(ast, n),
    decreases m - n,
{
    if n < m {
        lemma_ports_ok_prefix(ast, n, (m - 1) as nat);
    }
}

/// Terms added after the first `n` leave `ports_of` on them as it was.
pub proof fn lemma_ports_of_push(ast: AstNode, pv: Seq<Semantic::Agent>, a: Semantic::Agent, n: nat)
    requires
        ports_of(ast, pv, n),
    ensures
        ports_of(ast, pv.push(a), n),
    decreases n,
{
    if n > 0 {
        lemma_ports_of_push(ast, pv, a, (n - 1) as nat);
    }
}

/// The right-hand side that a bare principal entry carries: unnamed, empty.
pub open spec fn blank(ag: Semantic::Agent) -> bool {
    ag.name@ == Seq::<char>::empty() && ag.atype == AgentType::Agent && ag.ports@.len() == 0
}

/// Whether `ast` reads as a principal entry.
pub open spec fn principal_ok(ast: AstNode) -> bool {
    match ast {
        AstNode::Principal(l, r) => agent_ok(*l) && agent_ok(*r),
        AstNode::Var(_) => true,
        AstNode::Cons(_) => true,
        _ => false,
    }
}

/// Whether `p` is the principal entry that `ast` reads as.
pub open spec fn principal_of(ast: AstNode, p: Semantic::Principal) -> bool {
    match ast {
        AstNode::Principal(l, r) => p.ptype == PrincipalType::Pure && agent_of(*l, p.left)
            && agent_of(*r, p.right),
        AstNode::Var(s) => p.ptype == PrincipalType::Var && agent_of(AstNode::Var(s), p.left)
            && blank(p.right),
        AstNode::Cons(s) => p.ptype == PrincipalType::Cons && agent_of(AstNode::Cons(s), p.left)
            && blank(p.right),
        _ => false,
    }
}

/// Whether `ast` reads as an equation.
pub open spec fn equation_ok(ast: AstNode) -> bool {
    match ast {
        AstNode::Equation(l, r, ps) => agent_ok(*l) && agent_ok(*r) && forall|i: int|
            0 <= i < ps.len() ==> #[trigger] principal_ok(ps@[i]),
        _ => false,
    }
}

/// Whether `e` is the equation that `ast` reads as.
pub open spec fn equation_of(ast: AstNode, e: Semantic::Equation) -> bool {
    match ast {
        AstNode::Equation(l, r, ps) => agent_of(*l, e.left) && agent_of(*r, e.right)
            && e.principals@.len() == ps.len() && forall|i: int|
            0 <= i < ps.len() ==> #[trigger] principal_of(ps@[i], e.principals@[i]),
        _ => false,
    }
}

/// Whether `ast` reads as a program.
pub open spec fn program_ok(ast: AstNode) -> bool {
    match ast {
        AstNode::Program(eqs, t) => principal_ok(*t) && forall|i: int|
            0 <= i < eqs.len() ==> #[trigger] equation_ok(eqs@[i]),
        _ => false,
    }
}

/// Whether `p` is the program that `ast` reads as.
pub open spec fn program_of(ast: AstNode, p: Semantic::Program) -> bool {
    match ast {
        AstNode::Program(eqs, t) => principal_of(*t, p.term) && p.equations@.len() == eqs.len()
            && forall|i: int| 0 <= i < eqs.len() ==> #[trigger] equation_of(eqs@[i], p.equations@[i]),
        _ => false,
    }
}

/// Parses the text of a program into its syntax tree.
pub fn ast(text: &String) -> (r: Result<AstNode, ParseError>)
    ensures
        r matches Ok(a) ==> program_ok(a) && names_ok(a) && shape_ok(a) && render(a) == strip(text@),
{
    LangParser::parse(text.as_str())
}

/// A term with no ports.
fn bare(name: &String, atype: AgentType) -> (r: Semantic::Agent)
    ensures
        r.name@ == name@,
        r.atype == atype,
        r.ports@.len() == 0,
{
    Semantic::Agent { name: name.clone(), atype: atype, ports: Vec::new() }
}

/// Reads an agent term.
fn scan_agent(ast: &AstNode) -> (r: Result<Semantic::Agent, AstError>)
    ensures
        r is Ok <==> agent_ok(*ast),
        r matches Ok(ag) ==> agent_of(*ast, ag),
    decreases ast,
{
    match ast {
        AstNode::Var(s) => Ok(bare(s, AgentType::Var)),
        AstNode::Cons(s) => Ok(bare(s, AgentType::Cons)),
        AstNode::Agent(id, ports) => {
            let name = match &**id {
                AstNode::Id(s) => s.clone(),
                _ => String::new(),
            };
            let mut pv: Vec<Semantic::Agent> = Vec::new();
            let mut i: usize = 0;
            while i < ports.len()
                invariant
                    *ast == AstNode::Agent(*id, *ports),
                    0 <= i <= ports.len(),
                    pv@.len() == i,
                    ports_ok(*ast, i as nat),
                    ports_of(*ast, pv@, i as nat),
                decreases ports.len() - i,
            {
                proof {
                    assert(ast->Agent_1 == *ports);
                    assert(decreases_to!(*ast => ast->Agent_1));
                    assert(decreases_to!(*ports => ports[i as int]));
                }
                let p = scan_agent(&ports[i]);
                match p {
                    Ok(a) => {
                        proof {
                            lemma_ports_of_push(*ast, pv@, a, i as nat);
                            assert(ast->Agent_1 == *ports);
                        }
                        pv.push(a);
                    },
                    Err(e) => {
                        proof {
                            assert(ast->Agent_1 == *ports);
                            if agent_ok(*ast) {
                                lemma_ports_ok_prefix(*ast, (i + 1) as nat, ports@.len());
                            }
                        }
                        return Err(e);
                    },
                }
                i = i + 1;
            }
            let r = Semantic::Agent { name: name, atype: AgentType::Agent, ports: pv };
            assert(ast->Agent_1 == *ports);
            assert(ast->Agent_0 == *id);
            assert(agent_ok(*ast));
            assert(agent_of(*ast, r));
            Ok(r)
        },
        _ => Err(AstError::IllFormed),
    }
}

/// Reads a right-hand-side entry: a pair, a variable or a constructor.
fn scan_principal(ast: &AstNode) -> (r: Result<Semantic::Principal, AstError>)
    ensures
        r is Ok <==> principal_ok(*ast),
        r matches Ok(p) ==> principal_of(*ast, p),
{
    let empty = String::new();
    match ast {
        AstNode::Principal(left, right) => {
            let l = scan_agent(&**left)?;
            let r = scan_agent(&**right)?;
            Ok(Semantic::Principal { ptype: PrincipalType::Pure, left: l, right: r })
        },
        AstNode::Var(s) => Ok(
            Semantic::Principal {
                ptype: PrincipalType::Var,
                left: bare(s, AgentType::Var),
                right: bare(&empty, AgentType::Agent),
            },
        ),
        AstNode::Cons(s) => Ok(
            Semantic::Principal {
                ptype: PrincipalType::Cons,
                left: bare(s, AgentType::Cons),
                right: bare(&empty, AgentType::Agent),
            },
        ),
        _ => Err(AstError::IllFormed),
    }
}

/// Reads an equation.
fn scan_equation(ast: &AstNode) -> (r: Result<Semantic::Equation, AstError>)
    ensures
        r is Ok <==> equation_ok(*ast),
        r matches Ok(e) ==> equation_of(*ast, e),
{
    match ast {
        AstNode::Equation(left, right, principals) => {
            let mut pv: Vec<Semantic::Principal> = Vec::new();
            let mut i: usize = 0;
            while i < principals.len()
                invariant
                    *ast == AstNode::Equation(*left, *right, *principals),
                    0 <= i <= principals.len(),
                    pv@.len() == i,
                    forall|j: int| 0 <= j < i ==> #[trigger] principal_ok(principals@[j]),
                    forall|j: int| 0 <= j < i ==> #[trigger] principal_of(principals@[j], pv@[j]),
                decreases principals.len() - i,
            {
                let p = scan_principal(&principals[i]);
                match p {
                    Ok(a) => pv.push(a),
                    Err(e) => {
                        assert(ast->Equation_2 == *principals);
                        assert(equation_ok(*ast) ==> principal_ok(principals@[i as int]));
                        return Err(e);
                    },
                }
                i = i + 1;
            }
            let l = scan_agent(&**left)?;
            let r = scan_agent(&**right)?;
            Ok(Semantic::Equation { left: l, right: r, principals: pv })
        },
        _ => Err(AstError::IllFormed),
    }
}

impl Semantic::Program {
    /// Reads a syntax tree as a program; fails exactly when some node stands
    /// where the program's shape does not allow it.
    #[allow(non_snake_case)]
    pub fn fromAst(ast: AstNode) -> (r: Result<Self, AstError>)
        ensures
            r is Ok <==> program_ok(ast),
            r matches Ok(p) ==> program_of(ast, p),
    {
        match &ast {
            AstNode::Program(equations, term) => {
                let mut ev: Vec<Semantic::Equation> = Vec::new();
                let mut i: usize = 0;
                while i < equations.len()
                    invariant
                        ast == AstNode::Program(*equations, *term),
                        0 <= i <= equations.len(),
                        ev@.len() == i,
                        forall|j: int| 0 <= j < i ==> #[trigger] equation_ok(equations@[j]),
                        forall|j: int| 0 <= j < i ==> #[trigger] equation_of(equations@[j], ev@[j]),
                    decreases equations.len() - i,
                {
                    let e = scan_equation(&equations[i]);
                    match e {
                        Ok(a) => ev.push(a),
                        Err(e) => {
                            assert(ast->Program_0 == *equations);
                            assert(program_ok(ast) ==> equation_ok(equations@[i as int]));
                            return Err(e);
                        },
                    }
                    i = i + 1;
                }
                let t = scan_principal(&**term)?;
                Ok(Semantic::Program { equations: ev, term: t })
            },
            _ => Err(AstError::IllFormed),
        }
    }
}

} // verus!

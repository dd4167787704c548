//! The rule compiler: numbers the agent names, lowers each equation to the
//! bytecode of its rewrite, and builds the initial term.
use crate::interaction::vm::{fresh_machine, rule_key, run_from, Instruction, MachineView, VmError, VM};
use crate::interaction::NetView;
use crate::parser::Semantic::{self, AgentType, PrincipalType};
use vstd::prelude::*;

verus! {

/// Why a program cannot be compiled.
#[derive(Debug, Clone, Copy, PartialEq, Eq, Structural)]
pub enum CompileError {
    /// A name that the type table does not hold.
    UnknownType,
    /// A variable on a right-hand side that its equation's left-hand side
    /// does not bind.
    UnboundVariable,
    /// A variable in the term to reduce.
    VariableInTerm,
    /// The term to reduce is not a pair of agents joined at their principals.
    TermNotPure,
    /// An equation binds more variables than the scratchpad has addresses.
    ScratchpadFull,
    /// Building the term to reduce faulted.
    Machine(VmError),
}

/// Names numbered from 0 in the order in which they were first added.
#[derive(Debug)]
pub struct NameTable {
    pub names: Vec<String>,
}

/// The number of the first `x` in `s`, or -1 when there is none.
pub open spec fn find(s: Seq<Seq<char>>, x: Seq<char>) -> int
    decreases s.len(),
{
    if s.len() == 0 {
        -1
    } else {
        let k = find(s.drop_last(), x);
        if k >= 0 {
            k
        } else if s.last() == x {
            s.len() - 1
        } else {
            -1
        }
    }
}

/// `s` with `x` added unless it is there already.
pub open spec fn add_name(s: Seq<Seq<char>>, x: Seq<char>) -> Seq<Seq<char>> {
    if find(s, x) >= 0 {
        s
    } else {
        s.push(x)
    }
}

pub proof fn lemma_find_bounds(s: Seq<Seq<char>>, x: Seq<char>)
    ensures
        -1 <= find(s, x) < s.len(),
        find(s, x) >= 0 ==> s[find(s, x)] == x,
    decreases s.len(),
{
    if s.len() > 0 {
        lemma_find_bounds(s.drop_last(), x);
    }
}

/// `find` finds `x` exactly when `s` holds it.
pub proof fn lemma_find_contains(s: Seq<Seq<char>>, x: Seq<char>)
    ensures
        find(s, x) >= 0 <==> s.contains(x),
    decreases s.len(),
{
    if s.len() > 0 {
        lemma_find_contains(s.drop_last(), x);
        lemma_find_bounds(s, x);
        if s.drop_last().contains(x) {
            let i = choose|i: int| 0 <= i < s.drop_last().len() && s.drop_last()[i] == x;
            assert(s[i] == x);
        }
        if s.contains(x) && !s.drop_last().contains(x) {
            let i = choose|i: int| 0 <= i < s.len() && s[i] == x;
            if i < s.len() - 1 {
                assert(s.drop_last()[i] == x);
            }
        }
    }
}

proof fn lemma_find_prefix(s: Seq<Seq<char>>, x: Seq<char>, k: int)
    requires
        0 <= k <= s.len(),
        find(s.take(k), x) >= 0,
    ensures
        find(s, x) == find(s.take(k), x),
    decreases s.len(),
{
    if k == s.len() {
        assert(s.take(k) =~= s);
    } else {
        assert(s.drop_last().take(k) =~= s.take(k));
        lemma_find_prefix(s.drop_last(), x, k);
    }
}

/// The names that a walk of `ag` adds to `names`: its own name unless it is
/// a variable, then those of its port terms in order.
pub open spec fn collect_agent(names: Seq<Seq<char>>, ag: Semantic::Agent) -> Seq<Seq<char>>
    decreases ag, 1nat, 0nat,
{
    let own = if ag.atype != AgentType::Var {
        add_name(names, ag.name@)
    } else {
        names
    };
    collect_ports(own, ag, ag.ports@.len())
}

/// `names` after the walk of the first `k` port terms of `ag`.
pub open spec fn collect_ports(names: Seq<Seq<char>>, ag: Semantic::Agent, k: nat) -> Seq<Seq<char>>
    decreases ag, 0nat, k,
{
    if k == 0 || k > ag.ports@.len() {
        names
    } else {
        collect_agent(collect_ports(names, ag, (k - 1) as nat), ag.ports@[k - 1])
    }
}

/// `names` after the walk of both sides of the first `k` entries of `ps`.
pub open spec fn collect_principals(names: Seq<Seq<char>>, ps: Seq<Semantic::Principal>, k: nat) -> Seq<Seq<char>>
    decreases k,
{
    if k == 0 || k > ps.len() {
        names
    } else {
        let n = collect_principals(names, ps, (k - 1) as nat);
        collect_agent(collect_agent(n, ps[k - 1].left), ps[k - 1].right)
    }
}

/// `names` after the walk of both sides of an equation and of its
/// right-hand side.
pub open spec fn collect_equation(names: Seq<Seq<char>>, eq: Semantic::Equation) -> Seq<Seq<char>> {
    let n = collect_agent(collect_agent(names, eq.left), eq.right);
    collect_principals(n, eq.principals@, eq.principals@.len())
}

/// `names` after the walk of the first `k` equations.
pub open spec fn collect_equations(names: Seq<Seq<char>>, eqs: Seq<Semantic::Equation>, k: nat) -> Seq<Seq<char>>
    decreases k,
{
    if k == 0 || k > eqs.len() {
        names
    } else {
        collect_equation(collect_equations(names, eqs, (k - 1) as nat), eqs[k - 1])
    }
}

/// The type table of a program: each name that is not a variable, numbered
/// in the order of a walk of the equations and then of the term.
pub open spec fn program_types(p: Semantic::Program) -> Seq<Seq<char>> {
    let n = collect_equations(Seq::empty(), p.equations@, p.equations@.len());
    collect_agent(collect_agent(n, p.term.left), p.term.right)
}

/// Creates an agent of type `t` and leaves its id on the stack.
pub open spec fn make_code(t: u64) -> Seq<Instruction> {
    seq![Instruction::GEN, Instruction::DUP, Instruction::CONST(t), Instruction::NEW_AGENT]
}

/// Binds the two ids under the top two words at auxiliary ports.
pub open spec fn link_code() -> Seq<Instruction> {
    seq![Instruction::CONST(0), Instruction::CONST(0), Instruction::BIND]
}

/// Binds the two ids under the top two words at their principal ports.
pub open spec fn pair_code() -> Seq<Instruction> {
    seq![Instruction::CONST(1), Instruction::CONST(1), Instruction::BIND]
}

/// The code that builds the term `ag` and leaves its root id on the stack.
/// A variable pushes the id captured at its scratchpad address, which is one
/// past its number in `vars`; in the term to reduce (`term`) none may occur.
pub open spec fn build_code(types: Seq<Seq<char>>, vars: Seq<Seq<char>>, term: bool, ag: Semantic::Agent) -> Result<Seq<Instruction>, CompileError>
    decreases ag, 1nat, 0nat,
{
    let t = find(types, ag.name@);
    match ag.atype {
        AgentType::Var => if term {
            Err(CompileError::VariableInTerm)
        } else if find(vars, ag.name@) < 0 {
            Err(CompileError::UnboundVariable)
        } else {
            Ok(seq![Instruction::PUSH((find(vars, ag.name@) + 1) as u64)])
        },
        AgentType::Cons => if t < 0 {
            Err(CompileError::UnknownType)
        } else {
            Ok(make_code(t as u64))
        },
        AgentType::Agent => if t < 0 {
            Err(CompileError::UnknownType)
        } else {
            match build_ports(types, vars, term, ag, ag.ports@.len()) {
                Ok(c) => Ok(make_code(t as u64) + c),
                Err(e) => Err(e),
            }
        },
    }
}

/// The code that builds the first `k` port terms of `ag`, each bound to the
/// id on top of the stack at an auxiliary port.
pub open spec fn build_ports(types: Seq<Seq<char>>, vars: Seq<Seq<char>>, term: bool, ag: Semantic::Agent, k: nat) -> Result<Seq<Instruction>, CompileError>
    decreases ag, 0nat, k,
{
    if k == 0 || k > ag.ports@.len() {
        Ok(Seq::empty())
    } else {
        match build_ports(types, vars, term, ag, (k - 1) as nat) {
            Err(e) => Err(e),
            Ok(c) => match build_code(types, vars, term, ag.ports@[k - 1]) {
                Err(e) => Err(e),
                Ok(d) => Ok(c + seq![Instruction::DUP] + d + link_code()),
            },
        }
    }
}

/// The variables bound by the first `k` ports and the code that saves what
/// each new one is connected to, starting from `vars`.
pub open spec fn capture(vars: Seq<Seq<char>>, ports: Seq<Semantic::Agent>, k: nat) -> Result<(Seq<Seq<char>>, Seq<Instruction>), CompileError>
    decreases k,
{
    if k == 0 || k > ports.len() {
        Ok((vars, Seq::empty()))
    } else {
        match capture(vars, ports, (k - 1) as nat) {
            Err(e) => Err(e),
            Ok((v, c)) => {
                let p = ports[k - 1];
                if p.atype == AgentType::Var && find(v, p.name@) < 0 {
                    if v.len() + 1 >= 256 {
                        Err(CompileError::ScratchpadFull)
                    } else {
                        Ok(
                            (
                                v.push(p.name@),
                                c + seq![
                                    Instruction::DUP,
                                    Instruction::CONST(k as u64),
                                    Instruction::PORT,
                                    Instruction::POP((v.len() + 1) as u64),
                                ],
                            ),
                        )
                    }
                } else {
                    Ok((v, c))
                }
            },
        }
    }
}

/// The code for one right-hand-side entry: both terms and a principal bond
/// for a pair, the left term alone otherwise.
pub open spec fn principal_code(types: Seq<Seq<char>>, vars: Seq<Seq<char>>, term: bool, p: Semantic::Principal) -> Result<Seq<Instruction>, CompileError> {
    match build_code(types, vars, term, p.left) {
        Err(e) => Err(e),
        Ok(l) => if p.ptype == PrincipalType::Pure {
            match build_code(types, vars, term, p.right) {
                Err(e) => Err(e),
                Ok(r) => Ok(l + r + pair_code()),
            }
        } else {
            Ok(l)
        },
    }
}

/// The code for the first `k` right-hand-side entries.
pub open spec fn rhs_code(types: Seq<Seq<char>>, vars: Seq<Seq<char>>, ps: Seq<Semantic::Principal>, k: nat) -> Result<Seq<Instruction>, CompileError>
    decreases k,
{
    if k == 0 || k > ps.len() {
        Ok(Seq::empty())
    } else {
        match rhs_code(types, vars, ps, (k - 1) as nat) {
            Err(e) => Err(e),
            Ok(c) => match principal_code(types, vars, false, ps[k - 1]) {
                Err(e) => Err(e),
                Ok(d) => Ok(c + d),
            },
        }
    }
}

/// The rewrite code of an equation: capture the variables of the left and
/// then the right agent, drop both agents, build the right-hand side.
pub open spec fn equation_code(types: Seq<Seq<char>>, eq: Semantic::Equation) -> Result<Seq<Instruction>, CompileError> {
    match capture(Seq::empty(), eq.left.ports@, eq.left.ports@.len()) {
        Err(e) => Err(e),
        Ok((v1, c1)) => match capture(v1, eq.right.ports@, eq.right.ports@.len()) {
            Err(e) => Err(e),
            Ok((v2, c2)) => match rhs_code(types, v2, eq.principals@, eq.principals@.len()) {
                Err(e) => Err(e),
                Ok(c3) => Ok(
                    c1 + seq![Instruction::POP(0)] + c2 + seq![
                        Instruction::PUSH(0),
                        Instruction::DROP_AGENT,
                        Instruction::DROP_AGENT,
                    ] + c3,
                ),
            },
        },
    }
}

proof fn lemma_build_ports_err(types: Seq<Seq<char>>, vars: Seq<Seq<char>>, term: bool, ag: Semantic::Agent, k: nat, m: nat)
    requires
        k <= m <= ag.ports@.len(),
        build_ports(types, vars, term, ag, k) is Err,
    ensures
        build_ports(types, vars, term, ag, m) == build_ports(types, vars, term, ag, k),
    decreases m,
{
    if k < m {
        lemma_build_ports_err(types, vars, term, ag, k, (m - 1) as nat);
    }
}

proof fn lemma_capture_err(vars: Seq<Seq<char>>, ports: Seq<Semantic::Agent>, k: nat, m: nat)
    requires
        k <= m <= ports.len(),
        capture(vars, ports, k) is Err,
    ensures
        capture(vars, ports, m) == capture(vars, ports, k),
    decreases m,
{
    if k < m {
        lemma_capture_err(vars, ports, k, (m - 1) as nat);
    }
}

proof fn lemma_capture_small(vars: Seq<Seq<char>>, ports: Seq<Semantic::Agent>, k: nat)
    requires
        vars.len() < 256,
    ensures
        capture(vars, ports, k) matches Ok((v, _)) ==> v.len() < 256,
    decreases k,
{
    if k > 0 {
        lemma_capture_small(vars, ports, (k - 1) as nat);
    }
}

proof fn lemma_rhs_err(types: Seq<Seq<char>>, vars: Seq<Seq<char>>, ps: Seq<Semantic::Principal>, k: nat, m: nat)
    requires
        k <= m <= ps.len(),
        rhs_code(types, vars, ps, k) is Err,
    ensures
        rhs_code(types, vars, ps, m) == rhs_code(types, vars, ps, k),
    decreases m,
{
    if k < m {
        lemma_rhs_err(types, vars, ps, k, (m - 1) as nat);
    }
}

/// Adds to `types` the names met in a walk of `agent`.
fn traverse_types(agent: &Semantic::Agent, types: &mut NameTable)
    ensures
        final(types)@ == collect_agent(old(types)@, *agent),
        old(types).distinct() ==> final(types).distinct(),
    decreases agent,
{
    if agent.atype != AgentType::Var {
        types.add(&agent.name);
    }
    let ghost own = types@;
    let mut i: usize = 0;
    while i < agent.ports.len()
        invariant
            0 <= i <= agent.ports@.len(),
            own == (if agent.atype != AgentType::Var {
                add_name(old(types)@, agent.name@)
            } else {
                old(types)@
            }),
            types@ == collect_ports(own, *agent, i as nat),
            old(types).distinct() ==> types.distinct(),
        decreases agent.ports@.len() - i,
    {
        proof {
            assert(decreases_to!(*agent => agent.ports));
        }
        traverse_types(&agent.ports[i], types);
        i = i + 1;
    }
}

/// Appends `more` to `code`.
fn extend(code: &mut Vec<Instruction>, more: Vec<Instruction>)
    ensures
        final(code)@ == old(code)@ + more@,
{
    let mut more = more;
    code.append(&mut more);
}

/// Emits the code that builds `agent`, leaving its root id on the stack.
fn build_agent(types: &NameTable, vars: &NameTable, term: bool, agent: &Semantic::Agent) -> (r: Result<Vec<Instruction>, CompileError>)
    requires
        vars@.len() < 256,
    ensures
        match build_code(types@, vars@, term, *agent) {
            Ok(c) => r matches Ok(v) && v@ == c,
            Err(e) => r == Err::<Vec<Instruction>, CompileError>(e),
        },
    decreases agent,
{
    let _types_len = types.len();
    let _vars_len = vars.len();
    proof {
        lemma_find_bounds(types@, agent.name@);
        lemma_find_bounds(vars@, agent.name@);
    }
    let mut code: Vec<Instruction> = Vec::new();
    match agent.atype {
        AgentType::Var => {
            if term {
                return Err(CompileError::VariableInTerm);
            }
            match vars.lookup(&agent.name) {
                Some(i) => {
                    code.push(Instruction::PUSH(i as u64 + 1));
                },
                None => {
                    return Err(CompileError::UnboundVariable);
                },
            }
            assert(code@ =~= seq![Instruction::PUSH((find(vars@, agent.name@) + 1) as u64)]);
            Ok(code)
        },
        _ => {
            let t = match types.lookup(&agent.name) {
                Some(t) => t as u64,
                None => {
                    return Err(CompileError::UnknownType);
                },
            };
            code.push(Instruction::GEN);
            code.push(Instruction::DUP);
            code.push(Instruction::CONST(t));
            code.push(Instruction::NEW_AGENT);
            assert(code@ =~= make_code(t));
            assert(code@ =~= make_code(t) + Seq::<Instruction>::empty());
            if agent.atype == AgentType::Cons {
                return Ok(code);
            }
            let mut i: usize = 0;
            while i < agent.ports.len()
                invariant
                    0 <= i <= agent.ports@.len(),
                    agent.atype == AgentType::Agent,
                    build_ports(types@, vars@, term, *agent, i as nat) matches Ok(c) && code@ == make_code(t) + c,
                    t as int == find(types@, agent.name@),
                    vars@.len() < 256,
                decreases agent.ports@.len() - i,
            {
                proof {
                    assert(decreases_to!(*agent => agent.ports));
                }
                let ghost before = code@;
                code.push(Instruction::DUP);
                let sub = build_agent(types, vars, term, &agent.ports[i]);
                match sub {
                    Ok(v) => {
                        extend(&mut code, v);
                    },
                    Err(e) => {
                        proof {
                            lemma_build_ports_err(types@, vars@, term, *agent, (i + 1) as nat, agent.ports@.len());
                        }
                        return Err(e);
                    },
                }
                code.push(Instruction::CONST(0));
                code.push(Instruction::CONST(0));
                code.push(Instruction::BIND);
                proof {
                    let c = build_ports(types@, vars@, term, *agent, i as nat)->Ok_0;
                    let d = build_code(types@, vars@, term, agent.ports@[i as int])->Ok_0;
                    assert(code@ =~= make_code(t) + (c + seq![Instruction::DUP] + d + link_code()));
                }
                i = i + 1;
            }
            Ok(code)
        },
    }
}

/// Emits the capture of the variables among `ports`, numbering new ones in
/// `vars`.
fn capture_vars(vars: &mut NameTable, ports: &Vec<Semantic::Agent>) -> (r: Result<Vec<Instruction>, CompileError>)
    requires
        old(vars)@.len() < 256,
    ensures
        match capture(old(vars)@, ports@, ports@.len()) {
            Ok((v, c)) => r matches Ok(code) && code@ == c && final(vars)@ == v && v.len() < 256,
            Err(e) => r == Err::<Vec<Instruction>, CompileError>(e),
        },
{
    let mut code: Vec<Instruction> = Vec::new();
    let mut i: usize = 0;
    while i < ports.len()
        invariant
            0 <= i <= ports@.len(),
            capture(old(vars)@, ports@, i as nat) == Ok::<(Seq<Seq<char>>, Seq<Instruction>), CompileError>((vars@, code@)),
            vars@.len() < 256,
        decreases ports@.len() - i,
    {
        let ghost v0 = vars@;
        let ghost c0 = code@;
        if ports[i].atype == AgentType::Var && vars.lookup(&ports[i].name).is_none() {
            if vars.len() + 1 >= 256 {
                proof {
                    lemma_capture_err(old(vars)@, ports@, (i + 1) as nat, ports@.len());
                }
                return Err(CompileError::ScratchpadFull);
            }
            let heap_pos = vars.len() as u64 + 1;
            vars.add(&ports[i].name);
            code.push(Instruction::DUP);
            code.push(Instruction::CONST(i as u64 + 1));
            code.push(Instruction::PORT);
            code.push(Instruction::POP(heap_pos));
            assert(code@ =~= c0 + seq![
                Instruction::DUP,
                Instruction::CONST((i + 1) as u64),
                Instruction::PORT,
                Instruction::POP((v0.len() + 1) as u64),
            ]);
        }
        i = i + 1;
    }
    Ok(code)
}

/// Compiles one equation to the code of its rewrite. That code runs with
/// the right agent's id under the left agent's id on the stack.
#[allow(non_snake_case)]
pub fn compileEquation(equation: &Semantic::Equation, type_mapping: &NameTable) -> (r: Result<Vec<Instruction>, CompileError>)
    ensures
        match equation_code(type_mapping@, *equation) {
            Ok(c) => r matches Ok(v) && v@ == c,
            Err(e) => r == Err::<Vec<Instruction>, CompileError>(e),
        },
{
    let mut vars = NameTable::new();
    proof {
        lemma_capture_small(Seq::empty(), equation.left.ports@, equation.left.ports@.len());
    }
    let mut code = match capture_vars(&mut vars, &equation.left.ports) {
        Ok(c) => c,
        Err(e) => {
            return Err(e);
        },
    };
    code.push(Instruction::POP(0));
    let ghost v1 = vars@;
    proof {
        lemma_capture_small(v1, equation.right.ports@, equation.right.ports@.len());
    }
    match capture_vars(&mut vars, &equation.right.ports) {
        Ok(c) => extend(&mut code, c),
        Err(e) => {
            return Err(e);
        },
    }
    code.push(Instruction::PUSH(0));
    code.push(Instruction::DROP_AGENT);
    code.push(Instruction::DROP_AGENT);
    let ghost head = code@;
    proof {
        let c1 = capture(Seq::empty(), equation.left.ports@, equation.left.ports@.len())->Ok_0.1;
        let c2 = capture(v1, equation.right.ports@, equation.right.ports@.len())->Ok_0.1;
        assert(head =~= c1 + seq![Instruction::POP(0)] + c2 + seq![
            Instruction::PUSH(0),
            Instruction::DROP_AGENT,
            Instruction::DROP_AGENT,
        ]);
    }
    let mut i: usize = 0;
    let ps = &equation.principals;
    assert(head =~= head + Seq::<Instruction>::empty());
    while i < ps.len()
        invariant
            0 <= i <= ps@.len(),
            vars@.len() < 256,
            rhs_code(type_mapping@, vars@, ps@, i as nat) matches Ok(c) && code@ == head + c,
            equation_code(type_mapping@, *equation) == (match rhs_code(type_mapping@, vars@, ps@, ps@.len()) {
                Err(e) => Err(e),
                Ok(c3) => Ok(head + c3),
            }),
        decreases ps@.len() - i,
    {
        let ghost c0 = code@;
        match build_agent(type_mapping, &vars, false, &ps[i].left) {
            Ok(c) => extend(&mut code, c),
            Err(e) => {
                proof {
                    assert(principal_code(type_mapping@, vars@, false, ps@[i as int]) == Err::<Seq<Instruction>, CompileError>(e));
                    assert(rhs_code(type_mapping@, vars@, ps@, (i + 1) as nat) == Err::<Seq<Instruction>, CompileError>(e));
                    lemma_rhs_err(type_mapping@, vars@, ps@, (i + 1) as nat, ps@.len());
                }
                return Err(e);
            },
        }
        if ps[i].ptype == PrincipalType::Pure {
            match build_agent(type_mapping, &vars, false, &ps[i].right) {
                Ok(c) => extend(&mut code, c),
                Err(e) => {
                    proof {
                        assert(principal_code(type_mapping@, vars@, false, ps@[i as int]) == Err::<Seq<Instruction>, CompileError>(e));
                        assert(rhs_code(type_mapping@, vars@, ps@, (i + 1) as nat) == Err::<Seq<Instruction>, CompileError>(e));
                        lemma_rhs_err(type_mapping@, vars@, ps@, (i + 1) as nat, ps@.len());
                    }
                    return Err(e);
                },
            }
            code.push(Instruction::CONST(1));
            code.push(Instruction::CONST(1));
            code.push(Instruction::BIND);
        }
        proof {
            let c = rhs_code(type_mapping@, vars@, ps@, i as nat)->Ok_0;
            let d = principal_code(type_mapping@, vars@, false, ps@[i as int])->Ok_0;
            assert(code@ =~= head + (c + d));
        }
        i = i + 1;
    }
    assert(code@ =~= head + rhs_code(type_mapping@, vars@, ps@, ps@.len())->Ok_0);
    Ok(code)
}

/// The rules of the first `k` equations: the code of each under the key of
/// its two agents' types, a later equation replacing an earlier one.
pub open spec fn rules_of(types: Seq<Seq<char>>, eqs: Seq<Semantic::Equation>, k: nat) -> Result<Map<u128, Seq<Instruction>>, CompileError>
    decreases k,
{
    if k == 0 || k > eqs.len() {
        Ok(Map::empty())
    } else {
        match rules_of(types, eqs, (k - 1) as nat) {
            Err(e) => Err(e),
            Ok(m) => {
                let eq = eqs[k - 1];
                let a = find(types, eq.left.name@);
                let b = find(types, eq.right.name@);
                if a < 0 || b < 0 {
                    Err(CompileError::UnknownType)
                } else {
                    match equation_code(types, eq) {
                        Err(e) => Err(e),
                        Ok(c) => Ok(m.insert(rule_key(a as u64, b as u64), c)),
                    }
                }
            },
        }
    }
}

/// The code that builds the term to reduce, which must be a pair.
pub open spec fn term_code(types: Seq<Seq<char>>, p: Semantic::Principal) -> Result<Seq<Instruction>, CompileError> {
    if p.ptype != PrincipalType::Pure {
        Err(CompileError::TermNotPure)
    } else {
        principal_code(types, Seq::empty(), true, p)
    }
}

/// The machine a program compiles to: its rules installed, and the code of
/// its term run on a fresh machine.
pub open spec fn compiled(p: Semantic::Program) -> Result<MachineView, CompileError> {
    let types = program_types(p);
    match rules_of(types, p.equations@, p.equations@.len()) {
        Err(e) => Err(e),
        Ok(rules) => match term_code(types, p.term) {
            Err(e) => Err(e),
            Ok(code) => {
                let (m, r) = run_from(MachineView { code: code, rules: rules, ..fresh_machine() });
                match r {
                    Ok(_) => Ok(m),
                    Err(e) => Err(CompileError::Machine(e)),
                }
            },
        },
    }
}

proof fn lemma_rules_err(types: Seq<Seq<char>>, eqs: Seq<Semantic::Equation>, k: nat, m: nat)
    requires
        k <= m <= eqs.len(),
        rules_of(types, eqs, k) is Err,
    ensures
        rules_of(types, eqs, m) == rules_of(types, eqs, k),
    decreases m,
{
    if k < m {
        lemma_rules_err(types, eqs, k, (m - 1) as nat);
    }
}

/// The type table of a program.
fn program_type_table(program: &Semantic::Program) -> (r: NameTable)
    ensures
        r@ == program_types(*program),
        r.distinct(),
{
    let mut types = NameTable::new();
    let eqs = &program.equations;
    let mut i: usize = 0;
    while i < eqs.len()
        invariant
            0 <= i <= eqs@.len(),
            types@ == collect_equations(Seq::empty(), eqs@, i as nat),
            types.distinct(),
        decreases eqs@.len() - i,
    {
        let eq = &eqs[i];
        traverse_types(&eq.left, &mut types);
        traverse_types(&eq.right, &mut types);
        let ghost n0 = types@;
        let mut j: usize = 0;
        while j < eq.principals.len()
            invariant
                0 <= j <= eq.principals@.len(),
                types@ == collect_principals(n0, eq.principals@, j as nat),
                types.distinct(),
            decreases eq.principals@.len() - j,
        {
            traverse_types(&eq.principals[j].left, &mut types);
            traverse_types(&eq.principals[j].right, &mut types);
            j = j + 1;
        }
        i = i + 1;
    }
    traverse_types(&program.term.left, &mut types);
    traverse_types(&program.term.right, &mut types);
    types
}

/// Compiles a program: numbers its agent types, installs the rewrite of
/// each equation, and runs the code of its term so that the term's active
/// pair waits on the work list. Returns the machine and the type table.
#[allow(non_snake_case)]
pub fn compileProgram(program: Semantic::Program) -> (r: Result<(VM, NameTable), CompileError>)
    ensures
        match compiled(program) {
            Ok(m) => r matches Ok((vm, t)) && vm.wf() && vm@ == m && t@ == program_types(program)
                && t.distinct(),
            Err(e) => r == Err::<(VM, NameTable), CompileError>(e),
        },
{
    let types = program_type_table(&program);
    let mut vm = VM::new();
    let eqs = &program.equations;
    let mut i: usize = 0;
    while i < eqs.len()
        invariant
            0 <= i <= eqs@.len(),
            eqs@ == program.equations@,
            types@ == program_types(program),
            types.distinct(),
            vm.wf(),
            rules_of(types@, eqs@, i as nat) matches Ok(m) && vm@ == (MachineView { rules: m, ..fresh_machine() }),
        decreases eqs@.len() - i,
    {
        let eq = &eqs[i];
        let _types_len = types.len();
        proof {
            lemma_find_bounds(types@, eq.left.name@);
            lemma_find_bounds(types@, eq.right.name@);
        }
        let a = match types.lookup(&eq.left.name) {
            Some(a) => a as u64,
            None => {
                proof {
                    assert(rules_of(types@, eqs@, (i + 1) as nat) == Err::<Map<u128, Seq<Instruction>>, CompileError>(CompileError::UnknownType));
                    lemma_rules_err(types@, eqs@, (i + 1) as nat, eqs@.len());
                }
                return Err(CompileError::UnknownType);
            },
        };
        let b = match types.lookup(&eq.right.name) {
            Some(b) => b as u64,
            None => {
                proof {
                    assert(rules_of(types@, eqs@, (i + 1) as nat) == Err::<Map<u128, Seq<Instruction>>, CompileError>(CompileError::UnknownType));
                    lemma_rules_err(types@, eqs@, (i + 1) as nat, eqs@.len());
                }
                return Err(CompileError::UnknownType);
            },
        };
        match compileEquation(eq, &types) {
            Ok(code) => {
                vm.new_rewrite((a, b), code);
                proof {
                    let m = rules_of(types@, eqs@, i as nat)->Ok_0;
                    assert(vm@.rules == m.insert(rule_key(a, b), equation_code(types@, eqs@[i as int])->Ok_0));
                    assert(vm@ == (MachineView { rules: rules_of(types@, eqs@, (i + 1) as nat)->Ok_0, ..fresh_machine() }));
                }
            },
            Err(e) => {
                proof {
                    assert(rules_of(types@, eqs@, (i + 1) as nat) == Err::<Map<u128, Seq<Instruction>>, CompileError>(e));
                    lemma_rules_err(types@, eqs@, (i + 1) as nat, eqs@.len());
                }
                return Err(e);
            },
        }
        i = i + 1;
    }
    if program.term.ptype != PrincipalType::Pure {
        return Err(CompileError::TermNotPure);
    }
    let no_vars = NameTable::new();
    let mut code = match build_agent(&types, &no_vars, true, &program.term.left) {
        Ok(c) => c,
        Err(e) => {
            return Err(e);
        },
    };
    match build_agent(&types, &no_vars, true, &program.term.right) {
        Ok(c) => extend(&mut code, c),
        Err(e) => {
            return Err(e);
        },
    }
    code.push(Instruction::CONST(1));
    code.push(Instruction::CONST(1));
    code.push(Instruction::BIND);
    proof {
        let l = build_code(types@, Seq::empty(), true, program.term.left)->Ok_0;
        let r = build_code(types@, Seq::empty(), true, program.term.right)->Ok_0;
        assert(code@ =~= l + r + pair_code());
    }
    vm.code = code;
    match vm.run() {
        Ok(_) => Ok((vm, types)),
        Err(e) => Err(CompileError::Machine(e)),
    }
}

impl View for NameTable {
    type V = Seq<Seq<char>>;

    open spec fn view(&self) -> Seq<Seq<char>> {
        self.names@.map_values(|s: String| s@)
    }
}

impl NameTable {
    /// No name is held twice.
    pub open spec fn distinct(&self) -> bool {
        self@.no_duplicates()
    }

    /// An empty table.
    pub fn new() -> (r: Self)
        ensures
            r@ == Seq::<Seq<char>>::empty(),
            r.distinct(),
    {
        let r = NameTable { names: Vec::new() };
        assert(r@ =~= Seq::<Seq<char>>::empty());
        r
    }

    /// How many names the table holds.
    pub fn len(&self) -> (r: usize)
        ensures
            r == self@.len(),
    {
        self.names.len()
    }

    /// The number of `name`, if the table holds it.
    pub fn lookup(&self, name: &String) -> (r: Option<usize>)
        ensures
            r == (if find(self@, name@) >= 0 {
                Some(find(self@, name@) as usize)
            } else {
                None::<usize>
            }),
    {
        let ghost s = self@;
        let mut i: usize = 0;
        while i < self.names.len()
            invariant
                0 <= i <= s.len(),
                s == self@,
                find(s.take(i as int), name@) == -1,
            decreases s.len() - i,
        {
            assert(s.take(i as int + 1).drop_last() =~= s.take(i as int));
            if self.names[i] == *name {
                proof {
                    lemma_find_prefix(s, name@, i as int + 1);
                }
                return Some(i);
            }
            i = i + 1;
        }
        assert(s.take(i as int) =~= s);
        None
    }

    /// The number of `name` as an agent type, if the table holds it.
    pub fn get(&self, name: &str) -> (r: Option<u64>)
        ensures
            r == (if find(self@, name@) >= 0 {
                Some(find(self@, name@) as u64)
            } else {
                None::<u64>
            }),
    {
        let key = name.to_owned();
        let _len = self.names.len();
        proof {
            lemma_find_bounds(self@, name@);
        }
        match self.lookup(&key) {
            Some(i) => Some(i as u64),
            None => None,
        }
    }

    /// Adds `name` unless the table holds it already.
    pub fn add(&mut self, name: &String)
        ensures
            final(self)@ == add_name(old(self)@, name@),
            old(self).distinct() ==> final(self).distinct(),
    {
        proof {
            lemma_find_contains(self@, name@);
        }
        if self.lookup(name).is_none() {
            self.names.push(name.clone());
            assert(self@ =~= old(self)@.push(name@));
        }
    }
}

} // verus!

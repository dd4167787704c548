//! The rule program as the compiler reads it.
use vstd::prelude::*;

verus! {

/// What kind of term an agent term is.
#[derive(Debug, Clone, Copy, PartialEq, Eq, Structural)]
pub enum AgentType {
    /// A variable: a binding site, no ports.
    Var,
    /// A nullary constructor, no ports.
    Cons,
    /// A named agent with its port terms.
    Agent,
}

/// What a principal entry of an equation's right-hand side holds.
#[derive(Debug, Clone, Copy, PartialEq, Eq, Structural)]
pub enum PrincipalType {
    /// Two agent terms connected at their principal ports.
    Pure,
    /// A bare variable, held in `left`.
    Var,
    /// A bare constructor, held in `left`.
    Cons,
}

/// An agent term.
#[derive(Debug)]
pub struct Agent {
    pub name: String,
    pub atype: AgentType,
    pub ports: Vec<Agent>,
}

/// Two agent terms joined at their principal ports, or a bare term in `left`.
#[derive(Debug)]
pub struct Principal {
    pub ptype: PrincipalType,
    pub left: Agent,
    pub right: Agent,
}

/// A rewrite rule: the active pair `left # right` and the graph it becomes.
#[derive(Debug)]
pub struct Equation {
    pub left: Agent,
    pub right: Agent,
    pub principals: Vec<Principal>,
}

/// Rules and the term to reduce.
#[derive(Debug)]
pub struct Program {
    pub equations: Vec<Equation>,
    pub term: Principal,
}

} // verus!

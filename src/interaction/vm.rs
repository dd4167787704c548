//! The bytecode machine: a stack, a scratchpad, the net, and the rewrite
//! rules that `reduce` dispatches on active pairs.
use crate::interaction::{
    bind_view, drop_view, live, unbind_view, Agent, InteractionNet, NetView,
};
use std::collections::HashMap;
use vstd::prelude::*;

verus! {

broadcast use vstd::std_specs::hash::group_hash_axioms;

/// The number of words in the scratchpad.
pub const SCRATCHPAD_SIZE: usize = 256;

/// One instruction; operands are carried by the variant.
#[allow(non_camel_case_types)]
#[derive(Debug, Clone, Copy, PartialEq, Eq, Structural)]
pub enum Instruction {
    NOP,
    GEN,
    CONST(u64),
    DUP,
    PUSH(u64),
    POP(u64),
    NEW_AGENT,
    DROP_AGENT,
    BIND,
    UNBIND,
    PORT,
}

/// Why an instruction could not run.
#[derive(Debug, Clone, Copy, PartialEq, Eq, Structural)]
pub enum VmError {
    /// The stack held fewer words than the instruction takes.
    StackUnderflow,
    /// A scratchpad address outside the scratchpad.
    BadAddress,
    /// An id that names no agent, or an agent with a neighbour that is gone.
    UnknownAgent,
    /// A port index past the agent's ports.
    BadPort,
    /// An agent was to be created under id 0.
    ZeroId,
    /// The id counter has no fresh id left.
    IdsExhausted,
    /// `reduce` used up its step budget with active pairs left.
    StepLimit,
}

/// The machine's state as a mathematical value.
pub struct MachineView {
    pub pc: int,
    pub code: Seq<Instruction>,
    pub stack: Seq<u64>,
    pub scratchpad: Seq<u64>,
    pub net: NetView,
    pub rules: Map<u128, Seq<Instruction>>,
}

/// A machine with no code, an empty stack, a zeroed scratchpad, an empty net
/// whose counter is 1, and no rules.
pub open spec fn fresh_machine() -> MachineView {
    MachineView {
        pc: 0,
        code: Seq::empty(),
        stack: Seq::empty(),
        scratchpad: Seq::new(256, |i: int| 0u64),
        net: NetView { counter: 1, agents: Map::empty(), redexes: Seq::empty() },
        rules: Map::empty(),
    }
}

/// The key under which the rule for a pair of agent types is stored.
pub open spec fn rule_key(a: u64, b: u64) -> u128 {
    (a as int * 0x1_0000_0000_0000_0000 + b as int) as u128
}

/// `a` and `b` may be bound or unbound: each is 0 or both are live.
pub open spec fn linkable(n: NetView, a: u64, b: u64) -> bool {
    a == 0 || b == 0 || (live(n, a) && live(n, b))
}

/// `id` is live and each non-zero id in its ports is live.
pub open spec fn droppable(n: NetView, id: u64) -> bool {
    live(n, id) && forall|i: int|
        0 <= i < n.agents[id].1.len() ==> #[trigger] n.agents[id].1[i] == 0 || live(
            n,
            n.agents[id].1[i],
        )
}

/// The stack without its top `k` words.
pub open spec fn popped(s: Seq<u64>, k: int) -> Seq<u64> {
    s.take(s.len() - k)
}

/// The effect of one instruction, the program counter aside.
pub open spec fn execute(m: MachineView, ins: Instruction) -> Result<MachineView, VmError> {
    let s = m.stack;
    let n = s.len();
    match ins {
        Instruction::NOP => Ok(m),
        Instruction::GEN => if m.net.counter == u64::MAX {
            Err(VmError::IdsExhausted)
        } else {
            let id = (m.net.counter + 1) as u64;
            Ok(MachineView { stack: s.push(id), net: NetView { counter: id, ..m.net }, ..m })
        },
        Instruction::CONST(c) => Ok(MachineView { stack: s.push(c), ..m }),
        Instruction::DUP => if n < 1 {
            Err(VmError::StackUnderflow)
        } else {
            Ok(MachineView { stack: s.push(s[n - 1]), ..m })
        },
        Instruction::PUSH(addr) => if addr >= 256 {
            Err(VmError::BadAddress)
        } else {
            Ok(MachineView { stack: s.push(m.scratchpad[addr as int]), ..m })
        },
        Instruction::POP(addr) => if n < 1 {
            Err(VmError::StackUnderflow)
        } else if addr >= 256 {
            Err(VmError::BadAddress)
        } else {
            Ok(
                MachineView {
                    stack: popped(s, 1),
                    scratchpad: m.scratchpad.update(addr as int, s[n - 1]),
                    ..m
                },
            )
        },
        Instruction::NEW_AGENT => if n < 2 {
            Err(VmError::StackUnderflow)
        } else if s[n - 2] == 0 {
            Err(VmError::ZeroId)
        } else {
            Ok(
                MachineView {
                    stack: popped(s, 2),
                    net: NetView {
                        agents: m.net.agents.insert(s[n - 2], (s[n - 1], seq![0u64])),
                        ..m.net
                    },
                    ..m
                },
            )
        },
        Instruction::DROP_AGENT => if n < 1 {
            Err(VmError::StackUnderflow)
        } else if !droppable(m.net, s[n - 1]) {
            Err(VmError::UnknownAgent)
        } else {
            Ok(MachineView { stack: popped(s, 1), net: drop_view(m.net, s[n - 1]), ..m })
        },
        Instruction::BIND => if n < 4 {
            Err(VmError::StackUnderflow)
        } else if !linkable(m.net, s[n - 4], s[n - 3]) {
            Err(VmError::UnknownAgent)
        } else {
            Ok(
                MachineView {
                    stack: popped(s, 4),
                    net: bind_view(m.net, s[n - 2] > 0, s[n - 1] > 0, s[n - 4], s[n - 3]),
                    ..m
                },
            )
        },
        Instruction::UNBIND => if n < 2 {
            Err(VmError::StackUnderflow)
        } else if !linkable(m.net, s[n - 2], s[n - 1]) {
            Err(VmError::UnknownAgent)
        } else {
            Ok(
                MachineView {
                    stack: popped(s, 2),
                    net: unbind_view(m.net, s[n - 2], s[n - 1]),
                    ..m
                },
            )
        },
        Instruction::PORT => if n < 2 {
            Err(VmError::StackUnderflow)
        } else if !live(m.net, s[n - 2]) {
            Err(VmError::UnknownAgent)
        } else if s[n - 1] >= m.net.agents[s[n - 2]].1.len() {
            Err(VmError::BadPort)
        } else {
            Ok(
                MachineView {
                    stack: popped(s, 2).push(m.net.agents[s[n - 2]].1[s[n - 1] as int]),
                    ..m
                },
            )
        },
    }
}

/// Runs the code from the program counter to its end or to the first fault:
/// the state where it stopped, and the fault if there was one.
pub open spec fn run_from(m: MachineView) -> (MachineView, Result<(), VmError>)
    decreases m.code.len() - m.pc,
{
    if m.pc < 0 || m.pc >= m.code.len() {
        (m, Ok(()))
    } else {
        match execute(m, m.code[m.pc]) {
            Ok(m2) => run_from(MachineView { pc: m.pc + 1, code: m.code, ..m2 }),
            Err(e) => (m, Err(e)),
        }
    }
}

/// One rewrite: the last active pair is taken off the work list, its second
/// and then its first id are pushed, and the rule for the two agents' types,
/// if there is one, runs from its start.
pub open spec fn rewrite_once(m: MachineView) -> (MachineView, Result<(), VmError>) {
    let (a, b) = m.net.redexes.last();
    let m1 = MachineView {
        stack: m.stack.push(b).push(a),
        net: NetView { redexes: m.net.redexes.drop_last(), ..m.net },
        ..m
    };
    if !live(m.net, a) || !live(m.net, b) {
        (m1, Err(VmError::UnknownAgent))
    } else {
        let k = rule_key(m.net.agents[a].0, m.net.agents[b].0);
        if m.rules.contains_key(k) {
            run_from(MachineView { pc: 0, code: m.rules[k], ..m1 })
        } else {
            (m1, Ok(()))
        }
    }
}

/// Rewrites until no active pair is left, a rewrite faults, or `fuel`
/// rewrites have been made.
pub open spec fn reduce_from(m: MachineView, fuel: nat) -> (MachineView, Result<(), VmError>)
    decreases fuel,
{
    if m.net.redexes.len() == 0 {
        (m, Ok(()))
    } else if fuel == 0 {
        (m, Err(VmError::StepLimit))
    } else {
        let (m2, r) = rewrite_once(m);
        match r {
            Ok(_) => reduce_from(m2, (fuel - 1) as nat),
            Err(e) => (m2, Err(e)),
        }
    }
}

/// The rewrites that `reduce` makes at most.
pub const REDUCE_BUDGET: u64 = 0xffff_ffff_ffff_ffff;

/// The bytecode machine and the net it rewrites.
#[derive(Debug)]
pub struct VM {
    pub pc: usize,
    pub code: Vec<Instruction>,
    pub stack: Vec<u64>,
    pub scratchpad: [u64; SCRATCHPAD_SIZE],
    pub interaction_net: InteractionNet,
    pub rules: HashMap<u128, Vec<Instruction>>,
}

impl View for VM {
    type V = MachineView;

    open spec fn view(&self) -> MachineView {
        MachineView {
            pc: self.pc as int,
            code: self.code@,
            stack: self.stack@,
            scratchpad: self.scratchpad@,
            net: self.interaction_net@,
            rules: self.rules@.map_values(|c: Vec<Instruction>| c@),
        }
    }
}

impl VM {
    /// The net is well-formed.
    pub open spec fn wf(&self) -> bool {
        self.interaction_net.wf()
    }

    /// A machine with no code, no rules and an empty net.
    pub fn new() -> (r: Self)
        ensures
            r.wf(),
            r@ == fresh_machine(),
    {
        let r = VM {
            pc: 0,
            code: Vec::new(),
            stack: Vec::new(),
            scratchpad: [0u64; SCRATCHPAD_SIZE],
            interaction_net: InteractionNet::new(),
            rules: HashMap::new(),
        };
        assert(r@.scratchpad =~= fresh_machine().scratchpad);
        assert(r@.rules =~= Map::<u128, Seq<Instruction>>::empty());
        r
    }

    /// Runs the code from the program counter to its end, stopping at the
    /// first fault.
    pub fn run(&mut self) -> (r: Result<(), VmError>)
        requires
            old(self).wf(),
        ensures
            final(self).wf(),
            (final(self)@, r) == run_from(old(self)@),
    {
        while self.pc < self.code.len()
            invariant
                self.wf(),
                run_from(self@) == run_from(old(self)@),
            decreases self.code@.len() - self.pc,
        {
            let r = self.step();
            if r.is_err() {
                return r;
            }
        }
        Ok(())
    }

    /// Adds the rule for the pair of agent types `atypes`, replacing any
    /// rule it had.
    pub fn new_rewrite(&mut self, atypes: (u64, u64), instructions: Vec<Instruction>)
        requires
            old(self).wf(),
        ensures
            final(self).wf(),
            final(self)@ == (MachineView {
                rules: old(self)@.rules.insert(rule_key(atypes.0, atypes.1), instructions@),
                ..old(self)@
            }),
    {
        let k = (atypes.0 as u128) * 0x1_0000_0000_0000_0000u128 + atypes.1 as u128;
        let ghost c = instructions@;
        self.rules.insert(k, instructions);
        assert(self@.rules =~= old(self)@.rules.insert(rule_key(atypes.0, atypes.1), c));
    }

    /// Removes the rule for the pair of agent types `atypes`.
    pub fn drop_rewrite(&mut self, atypes: (u64, u64))
        requires
            old(self).wf(),
        ensures
            final(self).wf(),
            final(self)@ == (MachineView {
                rules: old(self)@.rules.remove(rule_key(atypes.0, atypes.1)),
                ..old(self)@
            }),
    {
        let k = (atypes.0 as u128) * 0x1_0000_0000_0000_0000u128 + atypes.1 as u128;
        self.rules.remove(&k);
        assert(self@.rules =~= old(self)@.rules.remove(rule_key(atypes.0, atypes.1)));
    }

    /// Rewrites active pairs, last added first, until none is left. A pair
    /// whose types have no rule is dropped. Stops at the first fault of a
    /// rule, or when the step budget is spent.
    pub fn reduce(&mut self) -> (r: Result<(), VmError>)
        requires
            old(self).wf(),
        ensures
            final(self).wf(),
            (final(self)@, r) == reduce_from(old(self)@, REDUCE_BUDGET as nat),
            r is Ok ==> final(self)@.net.redexes.len() == 0,
    {
        let mut fuel: u64 = REDUCE_BUDGET;
        while self.interaction_net.active_pairs.len() > 0
            invariant
                self.wf(),
                reduce_from(self@, fuel as nat) == reduce_from(old(self)@, REDUCE_BUDGET as nat),
            decreases fuel,
        {
            if fuel == 0 {
                return Err(VmError::StepLimit);
            }
            let ghost m = self@;
            let pair = self.interaction_net.active_pairs.pop().unwrap();
            self.stack.push(pair.1);
            self.stack.push(pair.0);
            if !self.interaction_net.heap.contains_key(&pair.0)
                || !self.interaction_net.heap.contains_key(&pair.1) {
                assert(self@ == rewrite_once(m).0);
                return Err(VmError::UnknownAgent);
            }
            let ta = self.interaction_net.atype(pair.0);
            let tb = self.interaction_net.atype(pair.1);
            let k = (ta as u128) * 0x1_0000_0000_0000_0000u128 + tb as u128;
            let program = self.rules.get(&k);
            if program.is_some() {
                self.code = program.unwrap().clone();
                self.pc = 0;
                let r = self.run();
                if r.is_err() {
                    return r;
                }
            }
            assert(self@ == rewrite_once(m).0);
            fuel = fuel - 1;
        }
        Ok(())
    }

    /// Whether `id` is 0 or names an agent.
    fn known(&self, id: u64) -> (r: bool)
        requires
            self.wf(),
        ensures
            r == (id == 0 || live(self@.net, id)),
    {
        id == 0 || self.interaction_net.heap.contains_key(&id)
    }

    /// Whether `id` names an agent whose neighbours are all live.
    fn can_drop(&self, id: u64) -> (r: bool)
        requires
            self.wf(),
        ensures
            r == droppable(self@.net, id),
    {
        if !self.interaction_net.heap.contains_key(&id) {
            return false;
        }
        let agent = self.interaction_net.query_agent(id);
        let mut i: usize = 0;
        while i < agent.ports.len()
            invariant
                0 <= i <= agent.ports@.len(),
                self.wf(),
                agent.ports@ == self@.net.agents[id].1,
                live(self@.net, id),
                forall|j: int| 0 <= j < i ==> #[trigger] agent.ports@[j] == 0 || live(self@.net, agent.ports@[j]),
            decreases agent.ports@.len() - i,
        {
            if !self.known(agent.ports[i]) {
                return false;
            }
            i = i + 1;
        }
        true
    }

    /// Executes the instruction at the program counter and advances it. On
    /// a fault nothing changes and the fault is returned.
    pub fn step(&mut self) -> (r: Result<(), VmError>)
        requires
            old(self).wf(),
            old(self).pc < old(self).code.len(),
        ensures
            final(self).wf(),
            match execute(old(self)@, old(self)@.code[old(self).pc as int]) {
                Ok(m) => r is Ok && final(self)@ == (MachineView { pc: old(self).pc + 1, ..m }),
                Err(e) => r == Err::<(), VmError>(e) && final(self)@ == old(self)@,
            },
    {
        let ghost m = self@;
        let ghost s = self.stack@;
        let n = self.stack.len();
        match self.code[self.pc] {
            Instruction::NOP => {},
            Instruction::GEN => {
                if self.interaction_net.cnt == u64::MAX {
                    return Err(VmError::IdsExhausted);
                }
                let id = self.interaction_net.gen_id();
                self.stack.push(id);
            },
            Instruction::CONST(c) => {
                self.stack.push(c);
            },
            Instruction::DUP => {
                if n < 1 {
                    return Err(VmError::StackUnderflow);
                }
                let top = self.stack[n - 1];
                self.stack.push(top);
            },
            Instruction::PUSH(addr) => {
                if addr >= SCRATCHPAD_SIZE as u64 {
                    return Err(VmError::BadAddress);
                }
                let w = self.scratchpad[addr as usize];
                self.stack.push(w);
            },
            Instruction::POP(addr) => {
                if n < 1 {
                    return Err(VmError::StackUnderflow);
                }
                if addr >= SCRATCHPAD_SIZE as u64 {
                    return Err(VmError::BadAddress);
                }
                let w = self.stack.pop().unwrap();
                self.scratchpad[addr as usize] = w;
            },
            Instruction::NEW_AGENT => {
                if n < 2 {
                    return Err(VmError::StackUnderflow);
                }
                if self.stack[n - 2] == 0 {
                    return Err(VmError::ZeroId);
                }
                let atype = self.stack.pop().unwrap();
                let id = self.stack.pop().unwrap();
                self.interaction_net.new_agent(id, atype);
            },
            Instruction::DROP_AGENT => {
                if n < 1 {
                    return Err(VmError::StackUnderflow);
                }
                if !self.can_drop(self.stack[n - 1]) {
                    return Err(VmError::UnknownAgent);
                }
                let id = self.stack.pop().unwrap();
                self.interaction_net.drop_agent(id);
            },
            Instruction::BIND => {
                if n < 4 {
                    return Err(VmError::StackUnderflow);
                }
                if !(self.known(self.stack[n - 4]) && self.known(self.stack[n - 3]))
                    && self.stack[n - 4] != 0 && self.stack[n - 3] != 0 {
                    return Err(VmError::UnknownAgent);
                }
                let prin1 = self.stack.pop().unwrap();
                let prin0 = self.stack.pop().unwrap();
                let aid1 = self.stack.pop().unwrap();
                let aid0 = self.stack.pop().unwrap();
                self.interaction_net.bind_agents((prin0 > 0, prin1 > 0), aid0, aid1);
            },
            Instruction::UNBIND => {
                if n < 2 {
                    return Err(VmError::StackUnderflow);
                }
                if !(self.known(self.stack[n - 2]) && self.known(self.stack[n - 1]))
                    && self.stack[n - 2] != 0 && self.stack[n - 1] != 0 {
                    return Err(VmError::UnknownAgent);
                }
                let aid1 = self.stack.pop().unwrap();
                let aid0 = self.stack.pop().unwrap();
                self.interaction_net.unbind_agents(aid0, aid1);
            },
            Instruction::PORT => {
                if n < 2 {
                    return Err(VmError::StackUnderflow);
                }
                let aid = self.stack[n - 2];
                let pid = self.stack[n - 1];
                if !self.interaction_net.heap.contains_key(&aid) {
                    return Err(VmError::UnknownAgent);
                }
                let agent = self.interaction_net.query_agent(aid);
                if pid >= agent.ports.len() as u64 {
                    return Err(VmError::BadPort);
                }
                self.stack.pop();
                self.stack.pop();
                self.stack.push(agent.ports[pid as usize]);
            },
        }
        assert(self.stack@ =~= execute(m, m.code[m.pc]).unwrap().stack);
        assert(self.scratchpad@ =~= execute(m, m.code[m.pc]).unwrap().scratchpad);
        self.pc = self.pc + 1;
        Ok(())
    }
}

} // verus!

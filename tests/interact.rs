use inet::interaction::vm::{Instruction, VmError, VM};
use inet::interaction::{Agent, InteractionNet};

#[test]
pub fn test_innet() {
    let mut innet = InteractionNet::new();
    innet.new_agent(1, 0);
    innet.new_agent(2, 0);
    innet.new_agent(3, 0);

    innet.bind_agents((false, false), 1, 2);
    innet.bind_agents((true, true), 1, 3);

    innet.bind_agents((false, false), 2, 3);

    innet.drop_agent(1);

    assert_eq!(innet.query_agent(2).ports.len(), 2);
    assert_eq!(innet.query_agent(3).ports.len(), 2);
}

#[test]
pub fn test_net() {
    let mut innet = InteractionNet::new();
    innet.new_agent(1, 1);
    innet.new_agent(2, 1);

    innet.bind_agents((true, false), 1, 2);

    assert_eq!(innet.query_agent(1).id, 1);
    assert_eq!(innet.query_agent(1).atype, 1);

    assert_eq!(innet.query_agent(1), Agent { id: 1, atype: 1, ports: vec![2] });
    assert_eq!(innet.query_agent(2), Agent { id: 2, atype: 1, ports: vec![0, 1] });

    innet.unbind_agents(1, 2);

    assert_eq!(innet.query_agent(1), Agent { id: 1, atype: 1, ports: vec![0] });
    assert_eq!(innet.query_agent(2), Agent { id: 2, atype: 1, ports: vec![0] });
}

#[test]
pub fn test_vm_code_step() {
    let mut vm = VM::new();
    vm.code = vec![Instruction::NOP];
    vm.run().unwrap();
    assert_eq!(vm.pc, 1);
}

#[test]
pub fn test_vm_reduce() {
    let mut vm = VM::new();
    vm.new_rewrite((1, 1), vec![Instruction::POP(1), Instruction::POP(2)]);
    vm.interaction_net.new_agent(2, 1);
    vm.interaction_net.new_agent(3, 1);
    vm.interaction_net.bind_agents((true, true), 2, 3);
    vm.reduce().unwrap();
    assert_eq!(vm.scratchpad[1], 2);
    assert_eq!(vm.scratchpad[2], 3);
}

#[test]
pub fn test_vm_instructions() {
    let mut vm = VM::new();
    vm.code = vec![
        Instruction::GEN,
        Instruction::DUP,
        Instruction::CONST(1),
        Instruction::NEW_AGENT,
        Instruction::GEN,
        Instruction::DUP,
        Instruction::CONST(1),
        Instruction::NEW_AGENT,
        Instruction::POP(0),
        Instruction::POP(1),
        Instruction::PUSH(0),
        Instruction::PUSH(1),
        Instruction::CONST(0),
        Instruction::CONST(0),
        Instruction::BIND,
        Instruction::PUSH(0),
        Instruction::PUSH(1),
        Instruction::UNBIND,
    ];
    vm.run().unwrap();

    assert_eq!(vm.interaction_net.heap.len(), 2);
    assert_eq!(vm.interaction_net.heap.get(&2).unwrap().ports.len(), 1);
    assert_eq!(vm.interaction_net.heap.get(&3).unwrap().ports.len(), 1);
    assert_eq!(vm.scratchpad[0], 3);
    assert_eq!(vm.scratchpad[1], 2);
}

#[test]
fn gen_id_starts_at_two_and_increases() {
    let mut net = InteractionNet::new();
    let a = net.gen_id();
    let b = net.gen_id();
    assert_eq!(a, 2);
    assert_eq!(b, 3);
    assert_eq!(net.cnt, 3);
}

#[test]
fn principal_bind_records_pair_once() {
    let mut net = InteractionNet::new();
    net.new_agent(4, 0);
    net.new_agent(5, 0);
    net.bind_agents((true, true), 4, 5);
    assert_eq!(net.active_pairs, vec![(4, 5)]);
    assert_eq!(net.query_agent(4).ports, vec![5]);
    assert_eq!(net.query_agent(5).ports, vec![4]);
    net.bind_agents((false, false), 4, 5);
    assert_eq!(net.active_pairs, vec![(4, 5)]);
}

#[test]
fn unbind_principal_pair_clears_both() {
    let mut net = InteractionNet::new();
    net.new_agent(4, 0);
    net.new_agent(5, 0);
    net.bind_agents((true, true), 4, 5);
    net.unbind_agents(4, 5);
    assert_eq!(net.query_agent(4).ports, vec![0]);
    assert_eq!(net.query_agent(5).ports, vec![0]);
}

#[test]
fn drop_agent_clears_neighbours() {
    let mut net = InteractionNet::new();
    net.new_agent(1, 0);
    net.new_agent(2, 0);
    net.new_agent(3, 0);
    net.bind_agents((true, true), 1, 2);
    net.bind_agents((false, true), 1, 3);
    net.drop_agent(1);
    assert!(!net.heap.contains_key(&1));
    assert_eq!(net.query_agent(2).ports, vec![0]);
    assert_eq!(net.query_agent(3).ports, vec![0]);
}

#[test]
fn bind_with_zero_is_a_no_op() {
    let mut net = InteractionNet::new();
    net.new_agent(1, 0);
    net.bind_agents((true, true), 1, 0);
    net.bind_agents((false, false), 0, 1);
    assert_eq!(net.query_agent(1).ports, vec![0]);
    assert!(net.active_pairs.is_empty());
}

#[test]
fn unbind_removes_only_matching_slots() {
    let mut net = InteractionNet::new();
    net.new_agent(1, 0);
    net.new_agent(2, 0);
    net.new_agent(3, 0);
    net.bind_agents((true, false), 1, 3);
    net.bind_agents((false, false), 1, 2);
    net.bind_agents((false, false), 1, 2);
    net.bind_agents((false, false), 1, 3);
    net.unbind_agents(1, 2);
    assert_eq!(net.query_agent(1).ports, vec![3, 3]);
    assert_eq!(net.query_agent(2).ports, vec![0]);
    net.unbind_agents(1, 3);
    assert_eq!(net.query_agent(1).ports, vec![0, 3]);
}

#[test]
fn atype_and_arity() {
    let mut net = InteractionNet::new();
    net.new_agent(7, 9);
    net.new_agent(8, 1);
    net.bind_agents((false, false), 7, 8);
    assert_eq!(net.atype(7), 9);
    assert_eq!(net.arity(7), 2);
    assert_eq!(net.arity(8), 2);
}

#[test]
fn step_reports_stack_underflow() {
    let mut vm = VM::new();
    vm.code = vec![Instruction::DUP];
    assert_eq!(vm.step(), Err(VmError::StackUnderflow));
    assert_eq!(vm.pc, 0);
}

#[test]
fn step_reports_bad_address() {
    let mut vm = VM::new();
    vm.code = vec![Instruction::PUSH(256)];
    assert_eq!(vm.run(), Err(VmError::BadAddress));
}

#[test]
fn step_reports_unknown_agent() {
    let mut vm = VM::new();
    vm.code = vec![Instruction::CONST(5), Instruction::DROP_AGENT];
    assert_eq!(vm.run(), Err(VmError::UnknownAgent));
    assert_eq!(vm.stack, vec![5]);
}

#[test]
fn step_reports_bad_port() {
    let mut vm = VM::new();
    vm.interaction_net.new_agent(4, 0);
    vm.code = vec![Instruction::CONST(4), Instruction::CONST(1), Instruction::PORT];
    assert_eq!(vm.run(), Err(VmError::BadPort));
}

#[test]
fn step_reports_zero_id() {
    let mut vm = VM::new();
    vm.code = vec![Instruction::CONST(0), Instruction::CONST(1), Instruction::NEW_AGENT];
    assert_eq!(vm.run(), Err(VmError::ZeroId));
}

#[test]
fn step_reports_ids_exhausted() {
    let mut vm = VM::new();
    vm.interaction_net.cnt = u64::MAX;
    vm.code = vec![Instruction::GEN];
    assert_eq!(vm.run(), Err(VmError::IdsExhausted));
}

#[test]
fn port_reads_neighbour() {
    let mut vm = VM::new();
    vm.interaction_net.new_agent(4, 0);
    vm.interaction_net.new_agent(6, 0);
    vm.interaction_net.bind_agents((false, true), 4, 6);
    vm.code = vec![Instruction::CONST(4), Instruction::CONST(1), Instruction::PORT];
    vm.run().unwrap();
    assert_eq!(vm.stack, vec![6]);
}

#[test]
fn reduce_drops_pair_without_rule() {
    let mut vm = VM::new();
    vm.interaction_net.new_agent(2, 1);
    vm.interaction_net.new_agent(3, 2);
    vm.interaction_net.bind_agents((true, true), 2, 3);
    vm.reduce().unwrap();
    assert!(vm.interaction_net.active_pairs.is_empty());
    assert_eq!(vm.stack, vec![3, 2]);
}

#[test]
fn drop_rewrite_removes_rule() {
    let mut vm = VM::new();
    vm.new_rewrite((1, 2), vec![Instruction::NOP]);
    vm.new_rewrite((2, 1), vec![Instruction::NOP]);
    assert_eq!(vm.rules.len(), 2);
    vm.drop_rewrite((1, 2));
    assert_eq!(vm.rules.len(), 1);
}

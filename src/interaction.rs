//! The interaction net: a heap of agents keyed by id, their port lists, and
//! the work list of active pairs.
pub mod laws;
pub mod vm;

use std::collections::HashMap;
use vstd::prelude::*;

verus! {

broadcast use vstd::std_specs::hash::group_hash_axioms;

/// A node of the net. Port 0 is the principal port, the others are
/// auxiliary; each slot holds a neighbour's id or 0 when disconnected.
#[derive(Debug, Clone, PartialEq)]
pub struct Agent {
    pub id: u64,
    pub atype: u64,
    pub ports: Vec<u64>,
}

/// The heap of agents, the id counter and the active pairs.
#[derive(Debug, Clone)]
pub struct InteractionNet {
    pub cnt: u64,
    pub heap: HashMap<u64, Agent>,
    pub active_pairs: Vec<(u64, u64)>,
}

/// Mathematical model of a net: each agent as its type and port list.
pub struct NetView {
    pub counter: u64,
    pub agents: Map<u64, (u64, Seq<u64>)>,
    pub redexes: Seq<(u64, u64)>,
}

/// The test that keeps a slot not holding `x`.
pub open spec fn differs(x: u64) -> spec_fn(u64) -> bool {
    |e: u64| e != x
}

/// The port list without any slot that holds `x`.
pub open spec fn remove_all(s: Seq<u64>, x: u64) -> Seq<u64> {
    s.filter(differs(x))
}

/// Ports after a connection to `other`: on the principal slot, or as a new
/// auxiliary slot.
pub open spec fn attach(ports: Seq<u64>, principal: bool, other: u64) -> Seq<u64> {
    if principal {
        ports.update(0, other)
    } else {
        ports.push(other)
    }
}

/// Ports after the connection to `other` is removed: the principal slot is
/// cleared when it holds `other`, else every auxiliary slot holding it goes.
pub open spec fn detach(ports: Seq<u64>, other: u64) -> Seq<u64> {
    if ports[0] == other {
        ports.update(0, 0)
    } else {
        remove_all(ports, other)
    }
}

/// The id that `gen_id` hands out when the counter stands at `counter`.
pub open spec fn next_id(counter: u64) -> u64 {
    (counter + 1) as u64
}

/// Whether `id` names an agent of the net.
pub open spec fn live(n: NetView, id: u64) -> bool {
    n.agents.contains_key(id)
}

/// The net after `bind(principals, a, b)`.
pub open spec fn bind_view(n: NetView, prin0: bool, prin1: bool, a: u64, b: u64) -> NetView {
    if a == 0 || b == 0 {
        n
    } else {
        let la = n.agents[a];
        let lb = n.agents[b];
        NetView {
            counter: n.counter,
            agents: n.agents.insert(a, (la.0, attach(la.1, prin0, b))).insert(
                b,
                (lb.0, attach(lb.1, prin1, a)),
            ),
            redexes: if prin0 && prin1 {
                n.redexes.push((a, b))
            } else {
                n.redexes
            },
        }
    }
}

/// The net after `unbind(a, b)`.
pub open spec fn unbind_view(n: NetView, a: u64, b: u64) -> NetView {
    if a == 0 || b == 0 {
        n
    } else {
        let la = n.agents[a];
        let lb = n.agents[b];
        NetView {
            counter: n.counter,
            agents: n.agents.insert(a, (la.0, detach(la.1, b))).insert(b, (lb.0, detach(lb.1, a))),
            redexes: n.redexes,
        }
    }
}

/// The net after `unbind(a, ps[j])` for each `j < i` in turn.
pub open spec fn unbind_each(n: NetView, a: u64, ps: Seq<u64>, i: nat) -> NetView
    decreases i,
{
    if i == 0 {
        n
    } else {
        unbind_view(unbind_each(n, a, ps, (i - 1) as nat), a, ps[i - 1])
    }
}

/// The net after `drop_agent(a)`: `a` is unbound from each neighbour that
/// its ports list, then removed.
pub open spec fn drop_view(n: NetView, a: u64) -> NetView {
    let m = unbind_each(n, a, n.agents[a].1, n.agents[a].1.len());
    NetView { counter: m.counter, agents: m.agents.remove(a), redexes: m.redexes }
}

/// Every agent has a principal slot.
pub open spec fn ports_ok(n: NetView) -> bool {
    forall|k: u64| #[trigger] n.agents.contains_key(k) ==> n.agents[k].1.len() >= 1
}

/// Whether every id held in a port is 0 or a live agent.
pub open spec fn closed(n: NetView) -> bool {
    forall|k: u64, i: int|
        #![trigger n.agents[k].1[i]]
        n.agents.contains_key(k) && 0 <= i < n.agents[k].1.len() ==> n.agents[k].1[i] == 0
            || n.agents.contains_key(n.agents[k].1[i])
}

/// Removing every slot that holds `x` keeps a first slot that does not.
pub proof fn lemma_remove_all_keeps_first(s: Seq<u64>, x: u64)
    requires
        s.len() >= 1,
        s[0] != x,
    ensures
        remove_all(s, x).len() >= 1,
        remove_all(s, x)[0] == s[0],
        remove_all(s, x).drop_first() == remove_all(s.drop_first(), x),
{
    let p = differs(x);
    assert(s =~= seq![s[0]] + s.drop_first());
    Seq::filter_distributes_over_add(seq![s[0]], s.drop_first(), p);
    assert(seq![s[0]].filter(p) =~= seq![s[0]]) by {
        reveal_with_fuel(Seq::filter, 2);
        assert(seq![s[0]].drop_last() =~= Seq::<u64>::empty());
    }
    assert(remove_all(s, x) =~= seq![s[0]] + remove_all(s.drop_first(), x));
}

/// The ports of `ports` after the connection to `other` is removed.
fn detach_ports(ports: &Vec<u64>, other: u64) -> (r: Vec<u64>)
    requires
        ports@.len() >= 1,
    ensures
        r@ == detach(ports@, other),
        r@.len() >= 1,
{
    if ports[0] == other {
        let mut r = ports.clone();
        assert(r@ =~= ports@);
        r.set(0, 0);
        r
    } else {
        let mut r: Vec<u64> = Vec::new();
        let mut i: usize = 0;
        while i < ports.len()
            invariant
                0 <= i <= ports@.len(),
                r@ == remove_all(ports@.take(i as int), other),
            decreases ports@.len() - i,
        {
            proof {
                let t = ports@.take(i as int + 1);
                assert(t.drop_last() =~= ports@.take(i as int));
                reveal_with_fuel(Seq::filter, 1);
            }
            if ports[i] != other {
                r.push(ports[i]);
            }
            i = i + 1;
        }
        assert(ports@.take(ports@.len() as int) =~= ports@);
        proof {
            lemma_remove_all_keeps_first(ports@, other);
        }
        r
    }
}

/// A well-formed net stores no agent under id 0 and gives every agent a
/// principal slot.
pub proof fn lemma_wf_view(net: InteractionNet)
    requires
        net.wf(),
    ensures
        ports_ok(net@),
        !net@.agents.contains_key(0),
{
}

impl View for InteractionNet {
    type V = NetView;

    open spec fn view(&self) -> NetView {
        NetView {
            counter: self.cnt,
            agents: self.heap@.map_values(|a: Agent| (a.atype, a.ports@)),
            redexes: self.active_pairs@,
        }
    }
}

impl InteractionNet {
    /// Well-formed: agents are stored under their own non-zero id and have a
    /// principal slot.
    pub open spec fn wf(&self) -> bool {
        forall|k: u64| #[trigger]
            self.heap@.contains_key(k) ==> k != 0 && self.heap@[k].id == k
                && self.heap@[k].ports@.len() >= 1
    }

    /// An empty net whose counter stands at 1.
    pub fn new() -> (r: Self)
        ensures
            r.wf(),
            r@.counter == 1,
            r@.agents == Map::<u64, (u64, Seq<u64>)>::empty(),
            r@.redexes == Seq::<(u64, u64)>::empty(),
    {
        let r = InteractionNet { cnt: 1, heap: HashMap::new(), active_pairs: Vec::new() };
        assert(r@.agents =~= Map::<u64, (u64, Seq<u64>)>::empty());
        r
    }

    /// Pre-increments the counter and returns it.
    pub fn gen_id(&mut self) -> (r: u64)
        requires
            old(self).cnt < u64::MAX,
        ensures
            r == next_id(old(self).cnt),
            r != 0,
            final(self).cnt == r,
            final(self).heap == old(self).heap,
            final(self).active_pairs == old(self).active_pairs,
    {
        self.cnt = self.cnt + 1;
        self.cnt
    }

    /// Stores `agent` under its own id.
    fn store(&mut self, agent: Agent)
        requires
            old(self).wf(),
            agent.id != 0,
            agent.ports@.len() >= 1,
        ensures
            final(self).wf(),
            final(self)@ == (NetView {
                agents: old(self)@.agents.insert(agent.id, (agent.atype, agent.ports@)),
                ..old(self)@
            }),
            final(self).heap@.dom() == old(self).heap@.dom().insert(agent.id),
    {
        let ghost a = agent;
        self.heap.insert(agent.id, agent);
        assert(self@.agents =~= old(self)@.agents.insert(a.id, (a.atype, a.ports@)));
    }

    /// Creates an agent with a disconnected principal port and no auxiliary
    /// ports.
    pub fn new_agent(&mut self, id: u64, atype: u64)
        requires
            old(self).wf(),
            id != 0,
        ensures
            final(self).wf(),
            final(self)@ == (NetView {
                agents: old(self)@.agents.insert(id, (atype, seq![0u64])),
                ..old(self)@
            }),
    {
        let agent = Agent { id: id, atype: atype, ports: vec![0] };
        assert(agent.ports@ =~= seq![0u64]);
        self.store(agent);
    }

    /// Unbinds the agent from each neighbour that its ports list, then
    /// removes it from the heap.
    pub fn drop_agent(&mut self, id: u64)
        requires
            old(self).wf(),
            old(self)@.agents.contains_key(id),
            forall|i: int|
                0 <= i < old(self)@.agents[id].1.len() ==> #[trigger] old(self)@.agents[id].1[i]
                    == 0 || old(self)@.agents.contains_key(old(self)@.agents[id].1[i]),
        ensures
            final(self).wf(),
            final(self)@ == drop_view(old(self)@, id),
    {
        let local_agent = self.query_agent(id);
        let ghost ps = local_agent.ports@;
        let mut i: usize = 0;
        while i < local_agent.ports.len()
            invariant
                0 <= i <= ps.len(),
                old(self)@.agents.contains_key(id),
                ps == old(self)@.agents[id].1,
                local_agent.ports@ == ps,
                forall|j: int| 0 <= j < ps.len() ==> #[trigger] ps[j] == 0 || old(self)@.agents.contains_key(ps[j]),
                self.wf(),
                self.heap@.dom() == old(self).heap@.dom(),
                self@.agents.dom() == old(self)@.agents.dom(),
                self@ == unbind_each(old(self)@, id, ps, i as nat),
            decreases ps.len() - i,
        {
            self.unbind_agents(id, local_agent.ports[i]);
            i = i + 1;
        }
        let ghost m = self@;
        self.heap.remove(&id);
        assert(self@.agents =~= m.agents.remove(id));
    }

    /// A copy of the agent stored under `aid`.
    pub fn query_agent(&self, aid: u64) -> (r: Agent)
        requires
            self.heap@.contains_key(aid),
        ensures
            r.id == self.heap@[aid].id,
            r.atype == self@.agents[aid].0,
            r.ports@ == self@.agents[aid].1,
    {
        let a = self.heap.get(&aid).unwrap();
        Agent { id: a.id, atype: a.atype, ports: a.ports.clone() }
    }

    /// The type of the agent stored under `aid`.
    pub fn atype(&self, aid: u64) -> (r: u64)
        requires
            self.heap@.contains_key(aid),
        ensures
            r == self@.agents[aid].0,
    {
        self.query_agent(aid).atype
    }

    /// The number of ports of the agent stored under `aid`.
    pub fn arity(&self, aid: u64) -> (r: u64)
        requires
            self.heap@.contains_key(aid),
        ensures
            r == self@.agents[aid].1.len(),
    {
        self.query_agent(aid).ports.len() as u64
    }

    /// Connects `aid0` and `aid1`: on each side, on the principal slot when
    /// that side's flag is set, else on a new auxiliary slot. When both flags
    /// are set the pair becomes active. An id of 0 makes this a no-op.
    pub fn bind_agents(&mut self, principals: (bool, bool), aid0: u64, aid1: u64)
        requires
            old(self).wf(),
            aid0 != 0 && aid1 != 0 ==> old(self)@.agents.contains_key(aid0)
                && old(self)@.agents.contains_key(aid1),
        ensures
            final(self).wf(),
            final(self)@ == bind_view(old(self)@, principals.0, principals.1, aid0, aid1),
            final(self).heap@.dom() == old(self).heap@.dom(),
    {
        if aid0 == 0 || aid1 == 0 {
            return;
        }
        let mut lcopy = self.query_agent(aid0);
        let mut rcopy = self.query_agent(aid1);
        if principals.0 {
            lcopy.ports.set(0, aid1);
        } else {
            lcopy.ports.push(aid1);
        }
        if principals.1 {
            rcopy.ports.set(0, aid0);
        } else {
            rcopy.ports.push(aid0);
        }
        if principals.0 && principals.1 {
            self.active_pairs.push((aid0, aid1));
        }
        self.store(lcopy);
        self.store(rcopy);
        assert(self.heap@.dom() =~= old(self).heap@.dom());
    }

    /// Removes the connection between `aid0` and `aid1`: on each side the
    /// principal slot is cleared when it holds the other id, else every
    /// auxiliary slot holding it goes. An id of 0 makes this a no-op.
    pub fn unbind_agents(&mut self, aid0: u64, aid1: u64)
        requires
            old(self).wf(),
            aid0 != 0 && aid1 != 0 ==> old(self)@.agents.contains_key(aid0)
                && old(self)@.agents.contains_key(aid1),
        ensures
            final(self).wf(),
            final(self)@ == unbind_view(old(self)@, aid0, aid1),
            final(self).heap@.dom() == old(self).heap@.dom(),
    {
        if aid0 == 0 || aid1 == 0 {
            return;
        }
        let lcopy = self.query_agent(aid0);
        let rcopy = self.query_agent(aid1);
        let lnew = Agent { id: lcopy.id, atype: lcopy.atype, ports: detach_ports(&lcopy.ports, aid1) };
        let rnew = Agent { id: rcopy.id, atype: rcopy.atype, ports: detach_ports(&rcopy.ports, aid0) };
        self.store(lnew);
        self.store(rnew);
        assert(self.heap@.dom() =~= old(self).heap@.dom());
    }
}

} // verus!

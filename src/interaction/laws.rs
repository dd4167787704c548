//! What holds of the net operations: ports stay live, ids grow, active pairs
//! are recorded once, and binding and unbinding undo each other.
use crate::interaction::{
    bind_view, next_id, closed, detach, differs, drop_view, live, ports_ok, remove_all,
    unbind_each, unbind_view, lemma_remove_all_keeps_first, NetView,
};
use vstd::prelude::*;

verus! {

broadcast use vstd::seq_lib::group_filter_ensures;

/// When the principal slot of `s` holds `a`, no auxiliary slot does.
pub open spec fn principal_alone(s: Seq<u64>, a: u64) -> bool {
    s.len() >= 1 && s[0] == a ==> forall|i: int| 1 <= i < s.len() ==> #[trigger] s[i] != a
}

/// Each other agent that holds `a` in a port is listed in `a`'s ports, and
/// holds `a` either in its principal slot only or in auxiliary slots only.
pub open spec fn back_linked(n: NetView, a: u64) -> bool {
    forall|c: u64|
        #[trigger] n.agents.contains_key(c) && c != a && n.agents[c].1.contains(a) ==> n.agents[a].1.contains(c)
            && principal_alone(n.agents[c].1, a)
}

/// No agent is stored under id 0.
pub open spec fn no_zero(n: NetView) -> bool {
    !n.agents.contains_key(0)
}

proof fn lemma_detach(s: Seq<u64>, x: u64)
    requires
        s.len() >= 1,
    ensures
        detach(s, x).len() >= 1,
        forall|y: u64| #[trigger] detach(s, x).contains(y) ==> y == 0 || s.contains(y),
        x != 0 && (s[0] != x || principal_alone(s, x)) ==> !detach(s, x).contains(x),
{
    if s[0] == x {
        assert forall|y: u64| #[trigger] detach(s, x).contains(y) implies y == 0 || s.contains(y) by {
            let i = choose|i: int| 0 <= i < detach(s, x).len() && detach(s, x)[i] == y;
            if i != 0 {
                assert(s[i] == y);
            }
        }
        if x != 0 && principal_alone(s, x) {
            if detach(s, x).contains(x) {
                let i = choose|i: int| 0 <= i < detach(s, x).len() && detach(s, x)[i] == x;
                if i >= 1 {
                    assert(s[i] == x);
                }
            }
        }
    } else {
        lemma_remove_all_keeps_first(s, x);
        assert forall|y: u64| #[trigger] detach(s, x).contains(y) implies y == 0 || s.contains(y) by {
            s.lemma_filter_contains_rev(differs(x), y);
        }
        if detach(s, x).contains(x) {
            let i = choose|i: int| 0 <= i < detach(s, x).len() && detach(s, x)[i] == x;
            assert(differs(x)(remove_all(s, x)[i]));
        }
    }
}

/// Unbinding two agents of the net keeps every port 0 or live.
pub proof fn lemma_unbind_closed(n: NetView, a: u64, b: u64)
    requires
        ports_ok(n),
        closed(n),
        a == 0 || b == 0 || (live(n, a) && live(n, b)),
    ensures
        ports_ok(unbind_view(n, a, b)),
        closed(unbind_view(n, a, b)),
        unbind_view(n, a, b).agents.dom() == n.agents.dom(),
{
    if a != 0 && b != 0 {
        let m = unbind_view(n, a, b);
        lemma_detach(n.agents[a].1, b);
        lemma_detach(n.agents[b].1, a);
        assert(m.agents.dom() =~= n.agents.dom());
        assert forall|k: u64, i: int|
            m.agents.contains_key(k) && 0 <= i < m.agents[k].1.len() implies #[trigger] m.agents[k].1[i]
            == 0 || m.agents.contains_key(m.agents[k].1[i]) by {
            if k == a || k == b {
                assert(m.agents[k].1.contains(m.agents[k].1[i]));
                let y = m.agents[k].1[i];
                if y != 0 {
                    let s = if k == b { n.agents[b].1 } else { n.agents[a].1 };
                    let j = choose|j: int| 0 <= j < s.len() && s[j] == y;
                    assert(n.agents[k].1[j] == y);
                }
            }
        }
    }
}

/// Binding two live agents keeps every port 0 or live.
pub proof fn law_bind_keeps_ports_live(n: NetView, prin0: bool, prin1: bool, a: u64, b: u64)
    requires
        ports_ok(n),
        closed(n),
        a == 0 || b == 0 || (live(n, a) && live(n, b)),
    ensures
        ports_ok(bind_view(n, prin0, prin1, a, b)),
        closed(bind_view(n, prin0, prin1, a, b)),
{
    if a != 0 && b != 0 {
        let m = bind_view(n, prin0, prin1, a, b);
        assert forall|k: u64, i: int|
            m.agents.contains_key(k) && 0 <= i < m.agents[k].1.len() implies #[trigger] m.agents[k].1[i]
            == 0 || m.agents.contains_key(m.agents[k].1[i]) by {
            if k == b {
                if !prin1 && i == n.agents[b].1.len() {
                } else if prin1 && i == 0 {
                } else {
                    assert(n.agents[b].1[i] == m.agents[k].1[i]);
                }
            } else if k == a {
                if !prin0 && i == n.agents[a].1.len() {
                } else if prin0 && i == 0 {
                } else {
                    assert(n.agents[a].1[i] == m.agents[k].1[i]);
                }
            }
        }
    }
}

/// Unbinding keeps every port 0 or live.
pub proof fn law_unbind_keeps_ports_live(n: NetView, a: u64, b: u64)
    requires
        ports_ok(n),
        closed(n),
        a == 0 || b == 0 || (live(n, a) && live(n, b)),
    ensures
        closed(unbind_view(n, a, b)),
{
    lemma_unbind_closed(n, a, b);
}

/// A new agent has only a disconnected principal port, so every port stays
/// 0 or live.
pub proof fn law_new_agent_keeps_ports_live(n: NetView, id: u64, atype: u64)
    requires
        closed(n),
    ensures
        closed(NetView { agents: n.agents.insert(id, (atype, seq![0u64])), ..n }),
{
    let m = NetView { agents: n.agents.insert(id, (atype, seq![0u64])), ..n };
    assert forall|k: u64, i: int|
        m.agents.contains_key(k) && 0 <= i < m.agents[k].1.len() implies #[trigger] m.agents[k].1[i]
        == 0 || m.agents.contains_key(m.agents[k].1[i]) by {
        if k != id {
            assert(n.agents[k].1[i] == m.agents[k].1[i]);
        }
    }
}

proof fn lemma_unbind_each(n: NetView, a: u64, k: nat)
    requires
        ports_ok(n),
        closed(n),
        no_zero(n),
        live(n, a),
        back_linked(n, a),
        k <= n.agents[a].1.len(),
    ensures
        ({
            let ps = n.agents[a].1;
            let m = unbind_each(n, a, ps, k);
            &&& m.agents.dom() == n.agents.dom()
            &&& ports_ok(m)
            &&& closed(m)
            &&& forall|c: u64|
                #[trigger] m.agents.contains_key(c) && c != a && m.agents[c].1.contains(a) ==> (exists|j: int|
                    k <= j < ps.len() && ps[j] == c) && principal_alone(m.agents[c].1, a)
        }),
    decreases k,
{
    let ps = n.agents[a].1;
    if k == 0 {
        assert forall|c: u64|
            #[trigger] n.agents.contains_key(c) && c != a && n.agents[c].1.contains(a) implies (exists|j: int|
                0 <= j < ps.len() && ps[j] == c) && principal_alone(n.agents[c].1, a) by {
            assert(ps.contains(c));
        }
    } else {
        lemma_unbind_each(n, a, (k - 1) as nat);
        let m = unbind_each(n, a, ps, (k - 1) as nat);
        let b = ps[k - 1];
        assert(b == 0 || live(n, b)) by {
            assert(n.agents[a].1[k - 1] == b);
        }
        lemma_unbind_closed(m, a, b);
        let m2 = unbind_view(m, a, b);
        assert(m2 == unbind_each(n, a, ps, k));
        if b != 0 {
            lemma_detach(m.agents[b].1, a);
        }
        assert forall|c: u64|
            #[trigger] m2.agents.contains_key(c) && c != a && m2.agents[c].1.contains(a) implies (exists|j: int|
                k <= j < ps.len() && ps[j] == c) && principal_alone(m2.agents[c].1, a) by {
            if b != 0 && c == b {
            } else {
                assert(m2.agents[c] == m.agents[c]);
                let j = choose|j: int| k - 1 <= j < ps.len() && ps[j] == c;
                assert(j != k - 1);
            }
        }
    }
}

/// Dropping an agent leaves no port anywhere naming it, so every port stays
/// 0 or live, when each agent holding it is linked back to it and holds it
/// in its principal slot only or in auxiliary slots only.
pub proof fn law_drop_keeps_ports_live(n: NetView, a: u64)
    requires
        ports_ok(n),
        closed(n),
        no_zero(n),
        live(n, a),
        back_linked(n, a),
    ensures
        closed(drop_view(n, a)),
        !drop_view(n, a).agents.contains_key(a),
        forall|c: u64| #[trigger]
            drop_view(n, a).agents.contains_key(c) ==> !drop_view(n, a).agents[c].1.contains(a),
{
    let ps = n.agents[a].1;
    lemma_unbind_each(n, a, ps.len());
    let m = unbind_each(n, a, ps, ps.len());
    let d = drop_view(n, a);
    assert forall|c: u64| #[trigger] d.agents.contains_key(c) implies !d.agents[c].1.contains(a) by {
        assert(m.agents.contains_key(c) && c != a);
    }
    assert forall|k: u64, i: int|
        d.agents.contains_key(k) && 0 <= i < d.agents[k].1.len() implies #[trigger] d.agents[k].1[i]
        == 0 || d.agents.contains_key(d.agents[k].1[i]) by {
        assert(m.agents[k].1[i] == d.agents[k].1[i]);
        assert(d.agents[k].1.contains(d.agents[k].1[i]));
    }
}

/// Each other agent whose principal port names `a` is listed in `a`'s
/// ports.
pub open spec fn principals_listed(n: NetView, a: u64) -> bool {
    forall|c: u64|
        #[trigger] n.agents.contains_key(c) && c != a && n.agents[c].1[0] == a ==> n.agents[a].1.contains(c)
}

/// Each id in `a`'s ports is 0 or live.
pub open spec fn neighbours_live(n: NetView, a: u64) -> bool {
    forall|i: int|
        0 <= i < n.agents[a].1.len() ==> #[trigger] n.agents[a].1[i] == 0 || live(
            n,
            n.agents[a].1[i],
        )
}

proof fn lemma_unbind_each_principal(n: NetView, a: u64, k: nat)
    requires
        ports_ok(n),
        no_zero(n),
        live(n, a),
        neighbours_live(n, a),
        principals_listed(n, a),
        k <= n.agents[a].1.len(),
    ensures
        ({
            let ps = n.agents[a].1;
            let m = unbind_each(n, a, ps, k);
            &&& m.agents.dom() == n.agents.dom()
            &&& ports_ok(m)
            &&& forall|c: u64|
                #[trigger] m.agents.contains_key(c) && c != a && m.agents[c].1[0] == a ==> exists|j: int|
                    k <= j < ps.len() && ps[j] == c
        }),
    decreases k,
{
    let ps = n.agents[a].1;
    if k == 0 {
        assert forall|c: u64|
            #[trigger] n.agents.contains_key(c) && c != a && n.agents[c].1[0] == a implies exists|j: int|
                0 <= j < ps.len() && ps[j] == c by {
            assert(ps.contains(c));
        }
    } else {
        lemma_unbind_each_principal(n, a, (k - 1) as nat);
        let m = unbind_each(n, a, ps, (k - 1) as nat);
        let b = ps[k - 1];
        assert(b == 0 || live(n, b)) by {
            assert(n.agents[a].1[k - 1] == b);
        }
        let m2 = unbind_view(m, a, b);
        assert(m2 == unbind_each(n, a, ps, k));
        if b != 0 {
            lemma_detach(m.agents[a].1, b);
            lemma_detach(m.agents[b].1, a);
            if m.agents[b].1[0] != a {
                lemma_remove_all_keeps_first(m.agents[b].1, a);
            }
        }
        assert(m2.agents.dom() =~= n.agents.dom());
        assert forall|c: u64|
            #[trigger] m2.agents.contains_key(c) && c != a && m2.agents[c].1[0] == a implies exists|j: int|
                k <= j < ps.len() && ps[j] == c by {
            if b != 0 && c == b {
            } else {
                assert(m2.agents[c] == m.agents[c]);
                let j = choose|j: int| k - 1 <= j < ps.len() && ps[j] == c;
                assert(j != k - 1);
            }
        }
    }
}

/// After `drop_agent(a)` the heap holds no `a`, and no principal port of
/// another agent points at it, when each agent whose principal port names
/// `a` is listed in `a`'s ports.
pub proof fn law_drop_agent(n: NetView, a: u64)
    requires
        ports_ok(n),
        no_zero(n),
        live(n, a),
        neighbours_live(n, a),
        principals_listed(n, a),
    ensures
        !drop_view(n, a).agents.contains_key(a),
        forall|c: u64| #[trigger]
            drop_view(n, a).agents.contains_key(c) ==> drop_view(n, a).agents[c].1[0] != a,
{
    let ps = n.agents[a].1;
    lemma_unbind_each_principal(n, a, ps.len());
    let m = unbind_each(n, a, ps, ps.len());
    let d = drop_view(n, a);
    assert forall|c: u64| #[trigger] d.agents.contains_key(c) implies d.agents[c].1[0] != a by {
        assert(m.agents.contains_key(c) && c != a);
    }
}

/// A principal bind of two live agents puts the pair on the work list, at
/// its end; a pair not yet there is then there exactly once.
pub proof fn law_bind_records_pair(n: NetView, a: u64, b: u64)
    requires
        a != 0,
        b != 0,
        live(n, a),
        live(n, b),
    ensures
        bind_view(n, true, true, a, b).redexes == n.redexes.push((a, b)),
        !n.redexes.contains((a, b)) ==> forall|i: int, j: int|
            0 <= i < bind_view(n, true, true, a, b).redexes.len() && 0 <= j < bind_view(
                n,
                true,
                true,
                a,
                b,
            ).redexes.len() && #[trigger] bind_view(n, true, true, a, b).redexes[i] == (a, b)
                && #[trigger] bind_view(n, true, true, a, b).redexes[j] == (a, b) ==> i == j,
{
    let r = bind_view(n, true, true, a, b).redexes;
    if !n.redexes.contains((a, b)) {
        assert forall|i: int, j: int|
            0 <= i < r.len() && 0 <= j < r.len() && #[trigger] r[i] == (a, b) && #[trigger] r[j] == (a, b) implies i == j by {
            if i < n.redexes.len() {
                assert(n.redexes[i] == (a, b));
            }
            if j < n.redexes.len() {
                assert(n.redexes[j] == (a, b));
            }
        }
    }
}

/// Unbinding a pair joined principal to principal clears both principal
/// ports.
pub proof fn law_unbind_principal_pair(n: NetView, a: u64, b: u64)
    requires
        ports_ok(n),
        a != 0,
        b != 0,
        live(n, a),
        live(n, b),
        n.agents[a].1[0] == b,
        n.agents[b].1[0] == a,
    ensures
        unbind_view(n, a, b).agents[a].1[0] == 0,
        unbind_view(n, a, b).agents[b].1[0] == 0,
{
}

/// Binding two agents principal to principal and then unbinding them
/// clears both principal ports; agents whose principal ports were free get
/// back exactly the ports they had.
pub proof fn law_bind_then_unbind(n: NetView, a: u64, b: u64)
    requires
        ports_ok(n),
        a != 0,
        b != 0,
        live(n, a),
        live(n, b),
    ensures
        unbind_view(bind_view(n, true, true, a, b), a, b).agents[a].1[0] == 0,
        unbind_view(bind_view(n, true, true, a, b), a, b).agents[b].1[0] == 0,
        n.agents[a].1[0] == 0 && n.agents[b].1[0] == 0 ==> unbind_view(
            bind_view(n, true, true, a, b),
            a,
            b,
        ).agents == n.agents,
{
    let m = unbind_view(bind_view(n, true, true, a, b), a, b);
    if n.agents[a].1[0] == 0 && n.agents[b].1[0] == 0 {
        assert(m.agents[a].1 =~= n.agents[a].1);
        assert(m.agents[b].1 =~= n.agents[b].1);
        assert(m.agents =~= n.agents);
    }
}

/// Ids from successive calls of `gen_id` are never 0 and strictly increase.
pub proof fn law_gen_id_increasing(counter: u64)
    requires
        counter < u64::MAX - 1,
    ensures
        next_id(counter) != 0,
        next_id(next_id(counter)) != 0,
        next_id(next_id(counter)) > next_id(counter),
{
}

/// A bind with id 0 on either side changes nothing.
pub proof fn law_bind_zero(n: NetView, prin0: bool, prin1: bool, a: u64, b: u64)
    requires
        a == 0 || b == 0,
    ensures
        bind_view(n, prin0, prin1, a, b) == n,
{
}

/// Unbinding touches a principal port only when it holds the other id, and
/// otherwise removes exactly the auxiliary slots that hold it; other agents
/// and the work list stay as they were.
pub proof fn law_unbind_literal(n: NetView, a: u64, b: u64)
    requires
        ports_ok(n),
        a != 0,
        b != 0,
        live(n, a),
        live(n, b),
    ensures
        ({
            let m = unbind_view(n, a, b);
            let pa = n.agents[a].1;
            let pb = n.agents[b].1;
            &&& m.agents[a].1[0] == (if pa[0] == b { 0 } else { pa[0] })
            &&& m.agents[a].1.drop_first() == (if pa[0] == b {
                pa.drop_first()
            } else {
                remove_all(pa.drop_first(), b)
            })
            &&& m.agents[b].1[0] == (if pb[0] == a { 0 } else { pb[0] })
            &&& m.agents[b].1.drop_first() == (if pb[0] == a {
                pb.drop_first()
            } else {
                remove_all(pb.drop_first(), a)
            })
            &&& forall|c: u64| c != a && c != b ==> #[trigger] m.agents[c] == n.agents[c]
            &&& m.redexes == n.redexes
        }),
{
    let pa = n.agents[a].1;
    let pb = n.agents[b].1;
    if pa[0] == b {
        assert(pa.update(0, 0).drop_first() =~= pa.drop_first());
    } else {
        lemma_remove_all_keeps_first(pa, b);
    }
    if pb[0] == a {
        assert(pb.update(0, 0).drop_first() =~= pb.drop_first());
    } else {
        lemma_remove_all_keeps_first(pb, a);
    }
}

} // verus!

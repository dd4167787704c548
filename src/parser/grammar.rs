//! The surface rule language. A program is a sequence of equations
//! `agent # agent = item, item, ...` followed by the term to reduce,
//! `term ~ term`; an item is such a pair, a variable or a constructor; a term
//! is `Name(term, ...)`, a constructor `Name` or a variable `name`.
//! Whitespace may stand between any two tokens.
use crate::parser::{agent_ok, equation_ok, principal_ok, program_ok, AstNode};
use vstd::prelude::*;
use vstd::string::*;

verus! {

broadcast use vstd::seq_lib::group_filter_ensures;

/// Why a text is not a program.
#[derive(Debug, Clone, Copy, PartialEq, Eq, Structural)]
pub enum ParseError {
    /// At this character position something else was expected.
    Unexpected(usize),
}

pub open spec fn is_ws(c: char) -> bool {
    c == ' ' || c == '\t' || c == '\n' || c == '\r'
}

pub open spec fn is_ident_char(c: char) -> bool {
    ('a' <= c && c <= 'z') || ('A' <= c && c <= 'Z') || ('0' <= c && c <= '9') || c == '_'
}

pub open spec fn not_ws() -> spec_fn(char) -> bool {
    |c: char| !is_ws(c)
}

/// The text without its whitespace.
pub open spec fn strip(s: Seq<char>) -> Seq<char> {
    s.filter(not_ws())
}


pub open spec fn is_lower(c: char) -> bool {
    'a' <= c && c <= 'z'
}

/// A name: a non-empty run of identifier characters.
pub open spec fn name_ok(s: Seq<char>) -> bool {
    s.len() > 0 && forall|i: int| 0 <= i < s.len() ==> is_ident_char(#[trigger] s[i])
}

/// Every name is well formed; variables start with a lower-case letter and
/// constructors do not; agents are headed by an identifier.
pub open spec fn names_ok(a: AstNode) -> bool
    decreases a, 1nat, 0nat,
{
    match a {
        AstNode::Id(s) => name_ok(s@),
        AstNode::Var(s) => name_ok(s@) && is_lower(s@[0]),
        AstNode::Cons(s) => name_ok(s@) && !is_lower(s@[0]),
        AstNode::Agent(id, ps) => (*id is Id) && names_ok(*id) && names_list_ok(a, ps.len() as nat),
        AstNode::Principal(l, r) => names_ok(*l) && names_ok(*r),
        AstNode::Equation(l, r, ps) => names_ok(*l) && names_ok(*r) && names_list_ok(a, ps.len() as nat),
        AstNode::Program(eqs, t) => names_list_ok(a, eqs.len() as nat) && names_ok(*t),
    }
}

/// The first `k` children of `a` satisfy `names_ok`.
pub open spec fn names_list_ok(a: AstNode, k: nat) -> bool
    decreases a, 0nat, k,
{
    if k == 0 || k > items(a).len() {
        true
    } else {
        names_list_ok(a, (k - 1) as nat) && names_ok(items(a)[k - 1])
    }
}

proof fn lemma_names_list_stable(a: AstNode, b: AstNode, k: nat)
    requires
        k <= items(a).len(),
        k <= items(b).len(),
        items(a).take(k as int) == items(b).take(k as int),
    ensures
        names_list_ok(a, k) == names_list_ok(b, k),
    decreases k,
{
    if k > 0 {
        assert(items(a).take(k - 1) =~= items(a).take(k as int).take(k - 1));
        assert(items(b).take(k - 1) =~= items(b).take(k as int).take(k - 1));
        assert(items(a)[k - 1] == items(a).take(k as int)[k - 1]);
        assert(items(b)[k - 1] == items(b).take(k as int)[k - 1]);
        lemma_names_list_stable(a, b, (k - 1) as nat);
    }
}

/// The term to reduce is a pair, and each equation has at least one
/// right-hand-side item.
pub open spec fn shape_ok(a: AstNode) -> bool {
    &&& a is Program
    &&& (*a->Program_1) is Principal
    &&& forall|i: int|
        0 <= i < a->Program_0.len() ==> (#[trigger] a->Program_0@[i] is Equation
            && a->Program_0@[i]->Equation_2.len() > 0)
}

/// A node whose first `k` children each satisfy `names_ok` satisfies
/// `names_list_ok` on them.
proof fn lemma_names_list_all(a: AstNode, k: nat)
    requires
        k <= items(a).len(),
        forall|i: int| 0 <= i < k ==> #[trigger] names_ok(items(a)[i]),
    ensures
        names_list_ok(a, k),
    decreases k,
{
    if k > 0 {
        lemma_names_list_all(a, (k - 1) as nat);
        assert(names_ok(items(a)[k - 1]));
    }
}

/// The text of a node with no whitespace.
pub open spec fn render(a: AstNode) -> Seq<char>
    decreases a, 1nat, 0nat,
{
    match a {
        AstNode::Id(s) => s@,
        AstNode::Var(s) => s@,
        AstNode::Cons(s) => s@,
        AstNode::Agent(id, ps) => render(*id) + seq!['('] + render_list(a, ps.len() as nat) + seq![')'],
        AstNode::Principal(l, r) => render(*l) + seq!['~'] + render(*r),
        AstNode::Equation(l, r, ps) => render(*l) + seq!['#'] + render(*r) + seq!['='] + render_list(
            a,
            ps.len() as nat,
        ),
        AstNode::Program(eqs, t) => render_list(a, eqs.len() as nat) + render(*t),
    }
}

/// The children a node lists: an agent's ports, an equation's right-hand
/// side, a program's equations.
pub open spec fn items(a: AstNode) -> Seq<AstNode> {
    match a {
        AstNode::Agent(_, ps) => ps@,
        AstNode::Equation(_, _, ps) => ps@,
        AstNode::Program(eqs, _) => eqs@,
        _ => Seq::empty(),
    }
}

/// The text of the first `k` children of `a`: comma-separated, but for a
/// program's equations, which follow one another.
pub open spec fn render_list(a: AstNode, k: nat) -> Seq<char>
    decreases a, 0nat, k,
{
    if k == 0 || k > items(a).len() {
        Seq::empty()
    } else {
        let sep = if k > 1 && !(a is Program) {
            seq![',']
        } else {
            Seq::empty()
        };
        render_list(a, (k - 1) as nat) + sep + render(items(a)[k - 1])
    }
}

proof fn lemma_strip_split(s: Seq<char>, a: int, b: int, c: int)
    requires
        0 <= a <= b <= c <= s.len(),
    ensures
        strip(s.subrange(a, c)) == strip(s.subrange(a, b)) + strip(s.subrange(b, c)),
{
    assert(s.subrange(a, c) =~= s.subrange(a, b) + s.subrange(b, c));
    Seq::filter_distributes_over_add(s.subrange(a, b), s.subrange(b, c), not_ws());
}

proof fn lemma_strip_one(s: Seq<char>, a: int)
    requires
        0 <= a < s.len(),
    ensures
        strip(s.subrange(a, a + 1)) == (if is_ws(s[a]) {
            Seq::<char>::empty()
        } else {
            seq![s[a]]
        }),
{
    reveal_with_fuel(Seq::filter, 2);
    assert(s.subrange(a, a + 1).drop_last() =~= Seq::<char>::empty());
    assert(s.subrange(a, a + 1) =~= seq![s[a]]);
}

/// Skips whitespace from `pos`.
fn skip_ws(t: &str, pos: usize) -> (r: usize)
    requires
        pos <= t@.len(),
    ensures
        pos <= r <= t@.len(),
        strip(t@.subrange(pos as int, r as int)) == Seq::<char>::empty(),
        r == t@.len() || !is_ws(t@[r as int]),
{
    let n = t.unicode_len();
    let mut i = pos;
    while i < n && is_ws_char(t.get_char(i))
        invariant
            pos <= i <= n,
            n == t@.len(),
            strip(t@.subrange(pos as int, i as int)) == Seq::<char>::empty(),
        decreases n - i,
    {
        proof {
            lemma_strip_split(t@, pos as int, i as int, i + 1);
            lemma_strip_one(t@, i as int);
        }
        i = i + 1;
    }
    i
}

fn is_ws_char(c: char) -> (r: bool)
    ensures
        r == is_ws(c),
{
    c == ' ' || c == '\t' || c == '\n' || c == '\r'
}

fn is_ident(c: char) -> (r: bool)
    ensures
        r == is_ident_char(c),
{
    ('a' <= c && c <= 'z') || ('A' <= c && c <= 'Z') || ('0' <= c && c <= '9') || c == '_'
}

/// The end of the identifier that starts at `pos`.
fn ident_end(t: &str, pos: usize) -> (r: usize)
    requires
        pos <= t@.len(),
    ensures
        pos <= r <= t@.len(),
        forall|i: int| pos <= i < r ==> is_ident_char(#[trigger] t@[i]),
        strip(t@.subrange(pos as int, r as int)) == t@.subrange(pos as int, r as int),
{
    let n = t.unicode_len();
    let mut i = pos;
    while i < n && is_ident(t.get_char(i))
        invariant
            pos <= i <= n,
            n == t@.len(),
            forall|j: int| pos <= j < i ==> is_ident_char(#[trigger] t@[j]),
            strip(t@.subrange(pos as int, i as int)) == t@.subrange(pos as int, i as int),
        decreases n - i,
    {
        proof {
            lemma_strip_split(t@, pos as int, i as int, i + 1);
            lemma_strip_one(t@, i as int);
            assert(t@.subrange(pos as int, i + 1) =~= t@.subrange(pos as int, i as int) + seq![t@[i as int]]);
        }
        i = i + 1;
    }
    i
}

/// Whether the character at `pos` is `c`.
fn at(t: &str, pos: usize, c: char) -> (r: bool)
    requires
        pos <= t@.len(),
    ensures
        r == (pos < t@.len() && t@[pos as int] == c),
{
    pos < t.unicode_len() && t.get_char(pos) == c
}

/// Skips whitespace and the character `c` after it.
fn expect(t: &str, pos: usize, c: char) -> (r: Result<usize, ParseError>)
    requires
        pos <= t@.len(),
        !is_ws(c),
    ensures
        r matches Ok(e) ==> pos < e <= t@.len() && strip(t@.subrange(pos as int, e as int)) == seq![c],
{
    let p = skip_ws(t, pos);
    let _len = t.unicode_len();
    if at(t, p, c) {
        proof {
            lemma_strip_split(t@, pos as int, p as int, p + 1);
            lemma_strip_one(t@, p as int);
        }
        Ok(p + 1)
    } else {
        Err(ParseError::Unexpected(p))
    }
}

/// Nodes of the same kind that list the same first `k` children render
/// those children alike.
proof fn lemma_render_list_prefix(a: AstNode, b: AstNode, k: nat)
    requires
        k <= items(a).len(),
        k <= items(b).len(),
        items(a).take(k as int) == items(b).take(k as int),
        (a is Program) == (b is Program),
    ensures
        render_list(a, k) == render_list(b, k),
    decreases k,
{
    if k > 0 {
        assert(items(a).take(k - 1) =~= items(a).take(k as int).take(k - 1));
        assert(items(b).take(k - 1) =~= items(b).take(k as int).take(k - 1));
        assert(items(a)[k - 1] == items(a).take(k as int)[k - 1]);
        assert(items(b)[k - 1] == items(b).take(k as int)[k - 1]);
        lemma_render_list_prefix(a, b, (k - 1) as nat);
    }
}

proof fn lemma_ports_ok_same(a: AstNode, b: AstNode, k: nat)
    requires
        a is Agent,
        b is Agent,
        k <= a->Agent_1.len(),
        k <= b->Agent_1.len(),
        a->Agent_1@.take(k as int) == b->Agent_1@.take(k as int),
    ensures
        crate::parser::ports_ok(a, k) == crate::parser::ports_ok(b, k),
    decreases k,
{
    if k > 0 {
        assert(a->Agent_1@.take(k - 1) =~= a->Agent_1@.take(k as int).take(k - 1));
        assert(b->Agent_1@.take(k - 1) =~= b->Agent_1@.take(k as int).take(k - 1));
        assert(a->Agent_1@[k - 1] == a->Agent_1@.take(k as int)[k - 1]);
        lemma_ports_ok_same(a, b, (k - 1) as nat);
    }
}

pub open spec fn agent_node(name: String, ports: Vec<AstNode>) -> AstNode {
    AstNode::Agent(Box::new(AstNode::Id(name)), ports)
}

/// Parses a term starting at `pos`, after optional whitespace.
#[verifier::rlimit(50)]
fn parse_term(t: &str, pos: usize) -> (r: Result<(AstNode, usize), ParseError>)
    requires
        pos <= t@.len(),
    ensures
        r matches Ok((a, e)) ==> pos < e <= t@.len() && agent_ok(a) && names_ok(a) && strip(
            t@.subrange(pos as int, e as int),
        ) == render(a),
    decreases t@.len() - pos,
{
    let p = skip_ws(t, pos);
    let q = ident_end(t, p);
    if q == p {
        return Err(ParseError::Unexpected(p));
    }
    let name = t.substring_char(p, q).to_owned();
    proof {
        lemma_strip_split(t@, pos as int, p as int, q as int);
        assert(name@ == t@.subrange(p as int, q as int));
        assert forall|i: int| 0 <= i < name@.len() implies is_ident_char(#[trigger] name@[i]) by {
            assert(name@[i] == t@[p + i]);
        }
        assert(name_ok(name@));
    }
    if !at(t, skip_ws(t, q), '(') {
        let c = t.get_char(p);
        assert(name@[0] == c);
        if 'a' <= c && c <= 'z' {
            return Ok((AstNode::Var(name), q));
        } else {
            return Ok((AstNode::Cons(name), q));
        }
    }
    let open = expect(t, q, '(');
    let o = match open {
        Ok(o) => o,
        Err(e) => {
            return Err(e);
        },
    };
    let ghost nm = name;
    let mut ports: Vec<AstNode> = Vec::new();
    proof {
        lemma_strip_split(t@, pos as int, q as int, o as int);
    }
    let close = expect(t, o, ')');
    if let Ok(end) = close {
        proof {
            lemma_strip_split(t@, pos as int, o as int, end as int);
            assert(render(AstNode::Id(nm)) == nm@);
            assert(render(agent_node(nm, ports)) == nm@ + seq!['('] + render_list(agent_node(nm, ports), 0) + seq![')']);
            assert(strip(t@.subrange(pos as int, end as int)) =~= render(agent_node(nm, ports)));
            assert(ports@.len() == 0);
            assert(name_ok(nm@));
            assert(names_ok(AstNode::Id(nm)));
            assert(names_list_ok(agent_node(nm, ports), 0));
            assert(names_ok(agent_node(nm, ports)));
        }
        return Ok((AstNode::Agent(Box::new(AstNode::Id(name)), ports), end));
    }
    let mut cur = o;
    loop
        invariant
            pos < o <= cur <= t@.len(),
            nm == name,
            strip(t@.subrange(pos as int, o as int)) == name@ + seq!['('],
            strip(t@.subrange(o as int, cur as int)) == render_list(agent_node(nm, ports), ports@.len() as nat) + (if ports@.len() > 0 {
                seq![',']
            } else {
                Seq::<char>::empty()
            }),
            crate::parser::ports_ok(agent_node(nm, ports), ports@.len() as nat),
            names_list_ok(agent_node(nm, ports), ports@.len() as nat),
            name_ok(nm@),
        decreases t@.len() - cur,
    {
        let (child, e) = match parse_term(t, cur) {
            Ok(x) => x,
            Err(err) => {
                return Err(err);
            },
        };
        let ghost before = ports;
        ports.push(child);
        proof {
            assert(items(agent_node(nm, before)).take(before@.len() as int) =~= items(agent_node(nm, ports)).take(before@.len() as int));
            lemma_render_list_prefix(agent_node(nm, before), agent_node(nm, ports), before@.len() as nat);
            lemma_ports_ok_same(agent_node(nm, before), agent_node(nm, ports), before@.len() as nat);
            lemma_names_list_stable(agent_node(nm, before), agent_node(nm, ports), before@.len() as nat);
            assert(items(agent_node(nm, ports))[before@.len() as int] == child);
            assert(names_list_ok(agent_node(nm, ports), ports@.len() as nat));
            assert(items(agent_node(nm, ports))[before@.len() as int] == child);
            lemma_strip_split(t@, o as int, cur as int, e as int);
        }
        match expect(t, e, ',') {
            Ok(c2) => {
                proof {
                    lemma_strip_split(t@, o as int, e as int, c2 as int);
                    assert(strip(t@.subrange(o as int, c2 as int)) =~= render_list(agent_node(nm, ports), ports@.len() as nat) + seq![',']);
                }
                cur = c2;
            },
            Err(_) => {
                match expect(t, e, ')') {
                    Ok(end) => {
                        proof {
                            lemma_strip_split(t@, o as int, e as int, end as int);
                            lemma_strip_split(t@, pos as int, o as int, end as int);
                            assert(render(AstNode::Id(nm)) == nm@);
                            assert(render(agent_node(nm, ports)) == nm@ + seq!['('] + render_list(agent_node(nm, ports), ports@.len() as nat) + seq![')']);
                            assert(strip(t@.subrange(pos as int, end as int)) =~= render(agent_node(nm, ports)));
                            assert(names_ok(AstNode::Id(nm)));
                            assert(names_ok(agent_node(nm, ports)));
                        }
                        return Ok((AstNode::Agent(Box::new(AstNode::Id(name)), ports), end));
                    },
                    Err(err) => {
                        return Err(err);
                    },
                }
            },
        }
    }
}

/// The text of the first `k` nodes of `s`, comma-separated.
pub open spec fn comma_text(s: Seq<AstNode>, k: nat) -> Seq<char>
    decreases k,
{
    if k == 0 || k > s.len() {
        Seq::empty()
    } else {
        comma_text(s, (k - 1) as nat) + (if k > 1 {
            seq![',']
        } else {
            Seq::<char>::empty()
        }) + render(s[k - 1])
    }
}

/// The text of the first `k` nodes of `s`, one after the other.
pub open spec fn joined_text(s: Seq<AstNode>, k: nat) -> Seq<char>
    decreases k,
{
    if k == 0 || k > s.len() {
        Seq::empty()
    } else {
        joined_text(s, (k - 1) as nat) + render(s[k - 1])
    }
}

proof fn lemma_list_texts(a: AstNode, k: nat)
    requires
        k <= items(a).len(),
    ensures
        !(a is Program) ==> render_list(a, k) == comma_text(items(a), k),
        a is Program ==> render_list(a, k) == joined_text(items(a), k),
    decreases k,
{
    if k > 0 {
        lemma_list_texts(a, (k - 1) as nat);
    }
}

proof fn lemma_texts_push(s: Seq<AstNode>, x: AstNode, k: nat)
    requires
        k <= s.len(),
    ensures
        comma_text(s.push(x), k) == comma_text(s, k),
        joined_text(s.push(x), k) == joined_text(s, k),
    decreases k,
{
    if k > 0 {
        assert(s.push(x)[k - 1] == s[k - 1]);
        lemma_texts_push(s, x, (k - 1) as nat);
    }
}

/// Parses a right-hand-side item: a pair `term ~ term`, a variable or a
/// constructor.
fn parse_item(t: &str, pos: usize) -> (r: Result<(AstNode, usize), ParseError>)
    requires
        pos <= t@.len(),
    ensures
        r matches Ok((a, e)) ==> pos < e <= t@.len() && principal_ok(a) && names_ok(a) && strip(
            t@.subrange(pos as int, e as int),
        ) == render(a),
{
    let (x, e) = match parse_term(t, pos) {
        Ok(v) => v,
        Err(err) => {
            return Err(err);
        },
    };
    match expect(t, e, '~') {
        Ok(m) => {
            let (y, e2) = match parse_term(t, m) {
                Ok(v) => v,
                Err(err) => {
                    return Err(err);
                },
            };
            proof {
                lemma_strip_split(t@, pos as int, e as int, m as int);
                lemma_strip_split(t@, pos as int, m as int, e2 as int);
            }
            Ok((AstNode::Principal(Box::new(x), Box::new(y)), e2))
        },
        Err(err) => {
            match x {
                AstNode::Var(_) => Ok((x, e)),
                AstNode::Cons(_) => Ok((x, e)),
                _ => Err(err),
            }
        },
    }
}

/// Parses the rest of an equation whose left agent `left` spans
/// `start..e`: `# agent = item, item, ...`.
fn parse_equation_tail(t: &str, start: usize, left: AstNode, e: usize) -> (r: Result<(AstNode, usize), ParseError>)
    requires
        start <= e <= t@.len(),
        agent_ok(left),
        names_ok(left),
        strip(t@.subrange(start as int, e as int)) == render(left),
    ensures
        r matches Ok((a, end)) ==> e < end <= t@.len() && equation_ok(a) && names_ok(a)
            && a->Equation_2.len() > 0 && strip(
            t@.subrange(start as int, end as int),
        ) == render(a),
{
    let h = match expect(t, e, '#') {
        Ok(h) => h,
        Err(err) => {
            return Err(err);
        },
    };
    let (right, e2) = match parse_term(t, h) {
        Ok(v) => v,
        Err(err) => {
            return Err(err);
        },
    };
    let q = match expect(t, e2, '=') {
        Ok(q) => q,
        Err(err) => {
            return Err(err);
        },
    };
    proof {
        lemma_strip_split(t@, start as int, e as int, h as int);
        lemma_strip_split(t@, start as int, h as int, e2 as int);
        lemma_strip_split(t@, start as int, e2 as int, q as int);
    }
    let mut ps: Vec<AstNode> = Vec::new();
    let mut cur = q;
    loop
        invariant
            start <= e < q <= cur <= t@.len(),
            agent_ok(left),
            agent_ok(right),
            strip(t@.subrange(start as int, q as int)) == render(left) + seq!['#'] + render(right) + seq!['='],
            strip(t@.subrange(q as int, cur as int)) == comma_text(ps@, ps@.len() as nat) + (if ps@.len() > 0 {
                seq![',']
            } else {
                Seq::<char>::empty()
            }),
            forall|i: int| 0 <= i < ps@.len() ==> #[trigger] principal_ok(ps@[i]),
            names_ok(left),
            names_ok(right),
            forall|i: int| 0 <= i < ps@.len() ==> #[trigger] names_ok(ps@[i]),
        decreases t@.len() - cur,
    {
        let (item, e3) = match parse_item(t, cur) {
            Ok(v) => v,
            Err(err) => {
                return Err(err);
            },
        };
        let ghost before = ps@;
        ps.push(item);
        proof {
            lemma_texts_push(before, item, before.len() as nat);
            lemma_strip_split(t@, q as int, cur as int, e3 as int);
        }
        match expect(t, e3, ',') {
            Ok(c2) => {
                proof {
                    lemma_strip_split(t@, q as int, e3 as int, c2 as int);
                    assert(strip(t@.subrange(q as int, c2 as int)) =~= comma_text(ps@, ps@.len() as nat) + seq![',']);
                }
                cur = c2;
            },
            Err(_) => {
                let ghost a = AstNode::Equation(Box::new(left), Box::new(right), ps);
                proof {
                    lemma_names_list_all(a, ps@.len() as nat);
                    lemma_strip_split(t@, start as int, q as int, e3 as int);
                    lemma_list_texts(a, ps@.len() as nat);
                    assert(strip(t@.subrange(start as int, e3 as int)) =~= render(a));
                }
                return Ok((AstNode::Equation(Box::new(left), Box::new(right), ps), e3));
            },
        }
    }
}

/// The parser of the rule language.
pub struct LangParser;

impl LangParser {
    /// Parses a program: equations, then the term to reduce, then nothing but
    /// whitespace. What it returns is a program whose text is the input with
    /// its whitespace removed.
    pub fn parse(t: &str) -> (r: Result<AstNode, ParseError>)
        ensures
            r matches Ok(a) ==> program_ok(a) && names_ok(a) && shape_ok(a) && render(a) == strip(t@),
    {
        let n = t.unicode_len();
        let mut eqs: Vec<AstNode> = Vec::new();
        let mut cur: usize = 0;
        loop
            invariant
                cur <= t@.len(),
                n == t@.len(),
                strip(t@.subrange(0, cur as int)) == joined_text(eqs@, eqs@.len() as nat),
                forall|i: int| 0 <= i < eqs@.len() ==> #[trigger] equation_ok(eqs@[i]),
                forall|i: int| 0 <= i < eqs@.len() ==> #[trigger] names_ok(eqs@[i]),
                forall|i: int| 0 <= i < eqs@.len() ==> (#[trigger] eqs@[i] is Equation && eqs@[i]->Equation_2.len() > 0),
            decreases t@.len() - cur,
        {
            let (x, e) = match parse_term(t, cur) {
                Ok(v) => v,
                Err(err) => {
                    return Err(err);
                },
            };
            if at(t, skip_ws(t, e), '#') {
                let (eq, end) = match parse_equation_tail(t, cur, x, e) {
                    Ok(v) => v,
                    Err(err) => {
                        return Err(err);
                    },
                };
                let ghost before = eqs@;
                eqs.push(eq);
                proof {
                    lemma_texts_push(before, eq, before.len() as nat);
                    lemma_strip_split(t@, 0, cur as int, end as int);
                }
                cur = end;
            } else {
                let m = match expect(t, e, '~') {
                    Ok(m) => m,
                    Err(err) => {
                        return Err(err);
                    },
                };
                let (y, e2) = match parse_term(t, m) {
                    Ok(v) => v,
                    Err(err) => {
                        return Err(err);
                    },
                };
                let fin = skip_ws(t, e2);
                if fin != n {
                    return Err(ParseError::Unexpected(fin));
                }
                let term = AstNode::Principal(Box::new(x), Box::new(y));
                let ghost a = AstNode::Program(eqs, Box::new(term));
                proof {
                    lemma_strip_split(t@, cur as int, e as int, m as int);
                    lemma_strip_split(t@, cur as int, m as int, e2 as int);
                    lemma_strip_split(t@, cur as int, e2 as int, fin as int);
                    lemma_strip_split(t@, 0, cur as int, fin as int);
                    lemma_list_texts(a, eqs@.len() as nat);
                    assert(items(a) == eqs@);
                    lemma_names_list_all(a, eqs@.len() as nat);
                    assert(names_ok(term));
                    assert(names_ok(a));
                    assert(shape_ok(a));
                    assert(render(term) == render(x) + seq!['~'] + render(y));
                    assert(strip(t@.subrange(cur as int, fin as int)) =~= render(term));
                    assert(render(a) == joined_text(eqs@, eqs@.len() as nat) + render(term));
                    assert(t@.subrange(0, n as int) =~= t@);
                    assert(strip(t@) =~= render(a));
                }
                return Ok(AstNode::Program(eqs, Box::new(term)));
            }
        }
    }
}

} // verus!

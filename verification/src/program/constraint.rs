//! Polynomial constraints over the cells of two adjacent rows.
//!
//! A [`ConstraintSystem`] collects expressions in an arena and the roots
//! that must vanish. An expression stands for its value on a pair of
//! rows ([`Env`]); everything a builder promises is said of those values.

use vstd::prelude::*;

use crate::field::gf;
use crate::field::{Block128, Flat};

verus! {

/// A handle to an expression of a [`ConstraintSystem`].
#[derive(Clone, Copy, Debug, PartialEq, Eq, Structural)]
pub struct Expr(pub usize);

/// One arena entry; operands come earlier in the arena.
#[derive(Clone, Copy, Debug, PartialEq, Eq, Structural)]
pub enum Node {
    /// A constant of GF(2^128).
    Const(u128),
    /// A cell of the current row.
    Col(usize),
    /// A cell of the next row.
    Next(usize),
    /// The sum of two earlier entries.
    Add(usize, usize),
    /// The product of two earlier entries.
    Mul(usize, usize),
}

/// The two rows an expression is evaluated on, in the tower basis.
pub struct Env {
    pub cur: Seq<u128>,
    pub next: Seq<u128>,
}

/// The value of arena entry `e`.
pub open spec fn node_value(nodes: Seq<Node>, e: nat, env: Env) -> u128
    decreases e,
{
    match nodes[e as int] {
        Node::Const(c) => c,
        Node::Col(i) => env.cur[i as int],
        Node::Next(i) => env.next[i as int],
        Node::Add(l, r) => if l < e && r < e {
            node_value(nodes, l as nat, env) ^ node_value(nodes, r as nat, env)
        } else {
            0
        },
        Node::Mul(l, r) => if l < e && r < e {
            gf::gf128_mul(node_value(nodes, l as nat, env), node_value(nodes, r as nat, env))
        } else {
            0
        },
    }
}

/// The degree of arena entry `e` in the cells.
pub open spec fn node_degree(nodes: Seq<Node>, e: nat) -> nat
    decreases e,
{
    match nodes[e as int] {
        Node::Const(_) => 0,
        Node::Col(_) => 1,
        Node::Next(_) => 1,
        Node::Add(l, r) => if l < e && r < e {
            let (a, b) = (node_degree(nodes, l as nat), node_degree(nodes, r as nat));
            if a <= b {
                b
            } else {
                a
            }
        } else {
            0
        },
        Node::Mul(l, r) => if l < e && r < e {
            node_degree(nodes, l as nat) + node_degree(nodes, r as nat)
        } else {
            0
        },
    }
}

/// Every entry refers to earlier ones only.
pub open spec fn nodes_wf(nodes: Seq<Node>) -> bool {
    forall|e: int|
        0 <= e < nodes.len() ==> match #[trigger] nodes[e] {
            Node::Add(l, r) => l < e && r < e,
            Node::Mul(l, r) => l < e && r < e,
            _ => true,
        }
}

/// `e` reads only cells below `width`.
pub open spec fn node_in_width(nodes: Seq<Node>, width: nat) -> bool {
    forall|e: int|
        0 <= e < nodes.len() ==> match #[trigger] nodes[e] {
            Node::Col(i) => i < width,
            Node::Next(i) => i < width,
            _ => true,
        }
}

proof fn lemma_value_of_prefix(a: Seq<Node>, b: Seq<Node>, e: nat, env: Env)
    requires
        e < a.len(),
        a.len() <= b.len(),
        forall|k: int| 0 <= k < a.len() ==> a[k] == b[k],
    ensures
        node_value(a, e, env) == node_value(b, e, env),
    decreases e,
{
    assert(a[e as int] == b[e as int]);
    match a[e as int] {
        Node::Add(l, r) => {
            if l < e && r < e {
                lemma_value_of_prefix(a, b, l as nat, env);
                lemma_value_of_prefix(a, b, r as nat, env);
            }
        },
        Node::Mul(l, r) => {
            if l < e && r < e {
                lemma_value_of_prefix(a, b, l as nat, env);
                lemma_value_of_prefix(a, b, r as nat, env);
            }
        },
        _ => {},
    }
}

proof fn lemma_degree_of_prefix(a: Seq<Node>, b: Seq<Node>, e: nat)
    requires
        e < a.len(),
        a.len() <= b.len(),
        forall|k: int| 0 <= k < a.len() ==> a[k] == b[k],
    ensures
        node_degree(a, e) == node_degree(b, e),
    decreases e,
{
    assert(a[e as int] == b[e as int]);
    match a[e as int] {
        Node::Add(l, r) => {
            if l < e && r < e {
                lemma_degree_of_prefix(a, b, l as nat);
                lemma_degree_of_prefix(a, b, r as nat);
            }
        },
        Node::Mul(l, r) => {
            if l < e && r < e {
                lemma_degree_of_prefix(a, b, l as nat);
                lemma_degree_of_prefix(a, b, r as nat);
            }
        },
        _ => {},
    }
}

/// None of the degrees is above `d`.
#[verifier::opaque]
pub open spec fn all_within(degrees: Seq<nat>, d: nat) -> bool {
    forall|i: int| 0 <= i < degrees.len() ==> (#[trigger] degrees[i]) <= d
}

/// One of the degrees is `d`.
#[verifier::opaque]
pub open spec fn some_at(degrees: Seq<nat>, d: nat) -> bool {
    exists|i: int| 0 <= i < degrees.len() && (#[trigger] degrees[i]) == d
}

/// The larger of two degrees.
pub open spec fn larger(a: nat, b: nat) -> nat {
    if a <= b {
        b
    } else {
        a
    }
}

/// The largest degree of a list, zero for none.
pub open spec fn largest(degrees: Seq<nat>) -> nat
    decreases degrees.len(),
{
    if degrees.len() == 0 {
        0
    } else {
        larger(largest(degrees.drop_last()), degrees.last())
    }
}

/// One more degree.
proof fn lemma_pushed(degrees: Seq<nat>, x: nat)
    ensures
        forall|d: nat| #[trigger]
            all_within(degrees.push(x), d) == (all_within(degrees, d) && x <= d),
        forall|d: nat| some_at(degrees, d) ==> #[trigger] some_at(degrees.push(x), d),
        some_at(degrees.push(x), x),
{
    let more = degrees.push(x);
    assert forall|d: nat| #[trigger]
        all_within(more, d) == (all_within(degrees, d) && x <= d) by {
        reveal(all_within);
        if all_within(more, d) {
            assert forall|i: int| 0 <= i < degrees.len() implies (#[trigger] degrees[i]) <= d by {
                assert(more[i] == degrees[i]);
            }
            assert(more[degrees.len() as int] == x);
        }
    }
    assert forall|d: nat| some_at(degrees, d) implies #[trigger] some_at(more, d) by {
        reveal(some_at);
        let i = choose|i: int| 0 <= i < degrees.len() && (#[trigger] degrees[i]) == d;
        assert(more[i] == d);
    }
    reveal(some_at);
    assert(more[degrees.len() as int] == x);
}

/// Expressions and the roots that must vanish on every pair of rows.
pub struct ConstraintSystem {
    nodes: Vec<Node>,
    roots: Vec<Expr>,
}

impl ConstraintSystem {
    pub closed spec fn wf(self) -> bool {
        &&& nodes_wf(self.nodes@)
        &&& forall|i: int| 0 <= i < self.roots@.len() ==> (#[trigger] self.roots@[i]).0 < self.nodes@.len()
    }

    /// `e` is an expression of this system.
    pub closed spec fn has(self, e: Expr) -> bool {
        e.0 < self.nodes@.len()
    }

    /// Every expression of `es` is one of this system.
    pub open spec fn has_all(self, es: Seq<Expr>) -> bool {
        forall|i: int| 0 <= i < es.len() ==> self.has(#[trigger] es[i])
    }

    /// The value of `e`.
    pub closed spec fn value(self, e: Expr, env: Env) -> u128 {
        node_value(self.nodes@, e.0 as nat, env)
    }

    /// The values of `es`.
    pub open spec fn values(self, es: Seq<Expr>, env: Env) -> Seq<u128> {
        Seq::new(es.len(), |i: int| self.value(es[i], env))
    }

    /// The values of the roots, in the order they were imposed.
    pub closed spec fn root_values(self, env: Env) -> Seq<u128> {
        Seq::new(self.roots@.len(), |i: int| self.value(self.roots@[i], env))
    }

    /// The degree of `e` in the cells.
    pub closed spec fn degree(self, e: Expr) -> nat {
        node_degree(self.nodes@, e.0 as nat)
    }

    /// The degrees of `es`.
    pub open spec fn degrees(self, es: Seq<Expr>) -> Seq<nat> {
        Seq::new(es.len(), |i: int| self.degree(es[i]))
    }

    /// Every expression of `es` has degree one.
    pub open spec fn linear(self, es: Seq<Expr>) -> bool {
        forall|i: int| 0 <= i < es.len() ==> self.degree(#[trigger] es[i]) == 1
    }

    /// No expression of `es` has a degree above `d`.
    pub open spec fn up_to(self, es: Seq<Expr>, d: nat) -> bool {
        forall|i: int| 0 <= i < es.len() ==> self.degree(#[trigger] es[i]) <= d
    }

    /// The degrees of the roots, in the order they were imposed.
    pub closed spec fn root_degrees(self) -> Seq<nat> {
        Seq::new(self.roots@.len(), |i: int| self.degree(self.roots@[i]))
    }

    /// No root has a degree above `d`.
    #[verifier::inline]
    pub open spec fn within(self, d: nat) -> bool {
        all_within(self.root_degrees(), d)
    }

    /// One root has degree `d`.
    #[verifier::inline]
    pub open spec fn reaches(self, d: nat) -> bool {
        some_at(self.root_degrees(), d)
    }

    /// One root more than `old`, of degree `d`.
    pub open spec fn imposes(self, old: ConstraintSystem, d: nat) -> bool {
        &&& self.root_degrees() == old.root_degrees().push(d)
        &&& forall|m: nat| #[trigger] self.within(m) == (old.within(m) && d <= m)
        &&& self.reaches(d)
    }

    /// The arena and the roots, as [`build`](Self::build) hands them out.
    pub closed spec fn parts(self) -> (Seq<Node>, Seq<Expr>) {
        (self.nodes@, self.roots@)
    }

    /// Everything of `old` still means the same here.
    pub open spec fn extends(self, old: ConstraintSystem) -> bool {
        &&& forall|e: Expr| old.has(e) ==> #[trigger] self.has(e)
        &&& forall|e: Expr, env: Env|
            old.has(e) ==> #[trigger] self.value(e, env) == old.value(e, env)
        &&& forall|e: Expr| old.has(e) ==> #[trigger] self.degree(e) == old.degree(e)
        &&& forall|d: nat| old.reaches(d) ==> #[trigger] self.reaches(d)
    }

    /// Degree one survives extension.
    pub proof fn lemma_linear_stable(self, old: ConstraintSystem, es: Seq<Expr>)
        requires
            self.extends(old),
            old.has_all(es),
            old.linear(es),
        ensures
            self.linear(es),
    {
        assert forall|i: int| 0 <= i < es.len() implies self.degree(#[trigger] es[i]) == 1 by {
            assert(old.has(es[i]));
        }
    }

    /// A bound on degrees survives extension.
    pub proof fn lemma_up_to_stable(self, old: ConstraintSystem, es: Seq<Expr>, d: nat)
        requires
            self.extends(old),
            old.has_all(es),
            old.up_to(es, d),
        ensures
            self.up_to(es, d),
    {
        assert forall|i: int| 0 <= i < es.len() implies self.degree(#[trigger] es[i]) <= d by {
            assert(old.has(es[i]));
        }
    }

    /// Membership of a list of expressions survives extension.
    pub proof fn lemma_has_stable(self, old: ConstraintSystem, es: Seq<Expr>)
        requires
            self.extends(old),
            old.has_all(es),
        ensures
            self.has_all(es),
    {
        assert forall|i: int| 0 <= i < es.len() implies self.has(#[trigger] es[i]) by {
            assert(old.has(es[i]));
        }
    }

    /// The value of a list of expressions survives extension.
    pub proof fn lemma_values_stable(self, old: ConstraintSystem, es: Seq<Expr>, env: Env)
        requires
            self.extends(old),
            old.has_all(es),
        ensures
            self.values(es, env) == old.values(es, env),
            self.has_all(es),
    {
        assert forall|i: int| 0 <= i < es.len() implies self.values(es, env)[i] == old.values(
            es,
            env,
        )[i] by {
            assert(old.has(es[i]));
        }
        assert(self.values(es, env) =~= old.values(es, env));
    }

    pub fn new() -> (r: ConstraintSystem)
        ensures
            r.wf(),
            r.parts() == (Seq::<Node>::empty(), Seq::<Expr>::empty()),
            forall|e: Expr| !#[trigger] r.has(e),
            r.root_degrees() == Seq::<nat>::empty(),
            forall|d: nat| #[trigger] r.within(d),
            forall|env: Env| (#[trigger] r.root_values(env)) == Seq::<u128>::empty(),
    {
        let r = ConstraintSystem { nodes: Vec::new(), roots: Vec::new() };
        assert forall|env: Env| (#[trigger] r.root_values(env)) == Seq::<u128>::empty() by {
            assert(r.root_values(env) =~= Seq::<u128>::empty());
        }
        assert(r.root_degrees() =~= Seq::<nat>::empty());
        assert forall|d: nat| #[trigger] r.within(d) by {
            reveal(all_within);
        }
        r
    }

    fn push(&mut self, node: Node) -> (r: Expr)
        requires
            old(self).wf(),
            match node {
                Node::Add(a, b) => a < old(self).nodes@.len() && b < old(self).nodes@.len(),
                Node::Mul(a, b) => a < old(self).nodes@.len() && b < old(self).nodes@.len(),
                _ => true,
            },
        ensures
            final(self).wf(),
            final(self).nodes@ == old(self).nodes@.push(node),
            r.0 == old(self).nodes@.len(),
            final(self).extends(*old(self)),
            final(self).root_degrees() == old(self).root_degrees(),
            forall|env: Env|
                (#[trigger] final(self).root_values(env)) == old(self).root_values(env),
    {
        let r = Expr(self.nodes.len());
        self.nodes.push(node);
        proof {
            let before = *old(self);
            assert forall|e: Expr| before.has(e) implies #[trigger] self.degree(e)
                == before.degree(e) by {
                lemma_degree_of_prefix(before.nodes@, self.nodes@, e.0 as nat);
            }
            assert forall|i: int| 0 <= i < self.roots@.len() implies self.root_degrees()[i]
                == before.root_degrees()[i] by {
                assert(before.has(before.roots@[i]));
            }
            assert(self.root_degrees() =~= before.root_degrees());
            assert forall|e: Expr, env: Env| before.has(e) implies #[trigger] self.value(e, env)
                == before.value(e, env) by {
                lemma_value_of_prefix(before.nodes@, self.nodes@, e.0 as nat, env);
            }
            assert forall|env: Env| (#[trigger] self.root_values(env)) == before.root_values(
                env,
            ) by {
                assert forall|i: int| 0 <= i < self.roots@.len() implies self.root_values(env)[i]
                    == before.root_values(env)[i] by {
                    assert(before.has(before.roots@[i]));
                }
                assert(self.root_values(env) =~= before.root_values(env));
            }
        }
        r
    }

    /// Cell `i` of the current row.
    pub fn col(&mut self, i: usize) -> (r: Expr)
        requires
            old(self).wf(),
        ensures
            final(self).wf(),
            final(self).has(r),
            final(self).extends(*old(self)),
            final(self).degree(r) == 1,
            final(self).root_degrees() == old(self).root_degrees(),
            forall|env: Env| #[trigger] final(self).value(r, env) == env.cur[i as int],
            forall|env: Env|
                (#[trigger] final(self).root_values(env)) == old(self).root_values(env),
    {
        self.push(Node::Col(i))
    }

    /// The `n` cells of the current row from `start` on.
    pub fn cols(&mut self, start: usize, n: usize) -> (r: Vec<Expr>)
        requires
            old(self).wf(),
            start + n <= usize::MAX,
        ensures
            final(self).wf(),
            r@.len() == n,
            final(self).has_all(r@),
            final(self).extends(*old(self)),
            final(self).linear(r@),
            final(self).root_degrees() == old(self).root_degrees(),
            forall|env: Env| #[trigger] final(self).values(r@, env) == cells(env.cur, start as int, n as nat),
            forall|env: Env|
                (#[trigger] final(self).root_values(env)) == old(self).root_values(env),
    {
        let mut r: Vec<Expr> = Vec::with_capacity(n);
        for i in 0..n
            invariant
                start + n <= usize::MAX,
                self.wf(),
                r@.len() == i,
                self.has_all(r@),
                self.extends(*old(self)),
                self.linear(r@),
                self.root_degrees() == old(self).root_degrees(),
                forall|env: Env| #[trigger]
                    self.values(r@, env) == cells(env.cur, start as int, i as nat),
                forall|env: Env|
                    (#[trigger] self.root_values(env)) == old(self).root_values(env),
        {
            let ghost before = *self;
            let ghost prev = r@;
            let e = self.col(start + i);
            r.push(e);
            proof {
                self.lemma_has_stable(before, prev);
                self.lemma_linear_stable(before, prev);
                assert forall|env: Env| #[trigger] self.values(r@, env) == cells(
                    env.cur,
                    start as int,
                    (i + 1) as nat,
                ) by {
                    self.lemma_values_stable(before, prev, env);
                    assert(before.values(prev, env) == cells(env.cur, start as int, i as nat));
                    assert(self.values(r@, env) =~= self.values(prev, env).push(
                        self.value(e, env),
                    ));
                    assert(cells(env.cur, start as int, (i + 1) as nat) =~= cells(
                        env.cur,
                        start as int,
                        i as nat,
                    ).push(env.cur[start + i]));
                }
            }
        }
        proof {
            assert forall|env: Env| #[trigger] self.values(r@, env) == cells(env.cur, start as int, n as nat) by {
            }
        }
        r
    }

    /// Imposes booleanity of each of `es`.
    pub fn assert_booleans(&mut self, es: &[Expr])
        requires
            old(self).wf(),
            old(self).has_all(es@),
        ensures
            final(self).wf(),
            final(self).extends(*old(self)),
            final(self).root_degrees() == old(self).root_degrees() + doubled(
                old(self).degrees(es@),
            ),
            forall|env: Env|
                (#[trigger] final(self).root_values(env)) == old(self).root_values(env)
                    + boolean_residues(old(self).values(es@, env)),
    {
        proof {
            assert(self.root_degrees() =~= old(self).root_degrees() + doubled(
                old(self).degrees(es@),
            ).take(0));
            assert forall|env: Env| (#[trigger] self.root_values(env)) == old(self).root_values(env)
                + boolean_residues(old(self).values(es@, env)).take(0) by {
                assert(self.root_values(env) =~= old(self).root_values(env) + boolean_residues(
                    old(self).values(es@, env),
                ).take(0));
            }
        }
        for i in 0..es.len()
            invariant
                self.wf(),
                self.extends(*old(self)),
                self.root_degrees() == old(self).root_degrees() + doubled(
                    old(self).degrees(es@),
                ).take(i as int),
                old(self).has_all(es@),
                forall|env: Env|
                    (#[trigger] self.root_values(env)) == old(self).root_values(env)
                        + boolean_residues(old(self).values(es@, env)).take(i as int),
        {
            let ghost before = *self;
            proof {
                assert(old(self).has(es@[i as int]));
            }
            self.assert_boolean(es[i]);
            proof {
                assert(self.root_degrees() =~= old(self).root_degrees() + doubled(
                    old(self).degrees(es@),
                ).take(i + 1));
                assert forall|env: Env| (#[trigger] self.root_values(env)) == old(self).root_values(env) + boolean_residues(old(self).values(es@, env)).take(i + 1) by {
                    let all = boolean_residues(old(self).values(es@, env));
                    assert(before.value(es@[i as int], env) == old(self).value(es@[i as int], env));
                    assert(before.root_values(env) == old(self).root_values(env) + all.take(
                        i as int,
                    ));
                    assert(self.root_values(env) =~= old(self).root_values(env) + all.take(i + 1));
                }
            }
        }
        proof {
            let ds = doubled(old(self).degrees(es@));
            assert(ds.take(es@.len() as int) =~= ds);
            assert forall|env: Env| (#[trigger] self.root_values(env)) == old(self).root_values(env)
                + boolean_residues(old(self).values(es@, env)) by {
                let all = boolean_residues(old(self).values(es@, env));
                assert(all.take(es@.len() as int) =~= all);
            }
        }
    }

    /// Imposes that no two of `es` are nonzero together: their pairwise
    /// products vanish.
    pub fn assert_exclusive(&mut self, es: &[Expr])
        requires
            old(self).wf(),
            old(self).has_all(es@),
        ensures
            final(self).wf(),
            final(self).extends(*old(self)),
            final(self).root_degrees() == old(self).root_degrees() + pair_sums(
                old(self).degrees(es@),
                es@.len(),
            ),
            forall|env: Env|
                (#[trigger] final(self).root_values(env)) == old(self).root_values(env)
                    + pair_products(old(self).values(es@, env), es@.len()),
    {
        proof {
            assert(self.root_degrees() =~= old(self).root_degrees() + pair_sums(
                old(self).degrees(es@),
                0,
            ));
            assert forall|env: Env| (#[trigger] self.root_values(env)) == old(self).root_values(env)
                + pair_products(old(self).values(es@, env), 0) by {
                assert(self.root_values(env) =~= old(self).root_values(env) + pair_products(
                    old(self).values(es@, env),
                    0,
                ));
            }
        }
        for i in 0..es.len()
            invariant
                self.wf(),
                self.extends(*old(self)),
                self.root_degrees() == old(self).root_degrees() + pair_sums(
                    old(self).degrees(es@),
                    i as nat,
                ),
                old(self).has_all(es@),
                forall|env: Env|
                    (#[trigger] self.root_values(env)) == old(self).root_values(env)
                        + pair_products(old(self).values(es@, env), i as nat),
        {
            let ghost mid = *self;
            proof {
                assert(self.root_degrees() =~= mid.root_degrees() + sums_with(
                    old(self).degrees(es@),
                    i as int,
                    (i + 1) as nat,
                ));
                assert forall|env: Env| (#[trigger] self.root_values(env)) == mid.root_values(env)
                    + products_with(old(self).values(es@, env), i as int, (i + 1) as nat) by {
                    assert(self.root_values(env) =~= mid.root_values(env) + products_with(
                        old(self).values(es@, env),
                        i as int,
                        (i + 1) as nat,
                    ));
                }
            }
            for j in i + 1..es.len()
                invariant
                    0 <= i < es@.len(),
                    self.wf(),
                    self.extends(*old(self)),
                    self.extends(mid),
                    self.root_degrees() == mid.root_degrees() + sums_with(
                        old(self).degrees(es@),
                        i as int,
                        j as nat,
                    ),
                    mid.extends(*old(self)),
                    old(self).has_all(es@),
                    forall|env: Env|
                        (#[trigger] self.root_values(env)) == mid.root_values(env)
                            + products_with(old(self).values(es@, env), i as int, j as nat),
            {
                let ghost before = *self;
                proof {
                    assert(old(self).has(es@[i as int]));
                    assert(old(self).has(es@[j as int]));
                }
                let p = self.times(es[i], es[j]);
                self.constrain(p);
                proof {
                    assert(self.root_degrees() =~= mid.root_degrees() + sums_with(
                        old(self).degrees(es@),
                        i as int,
                        (j + 1) as nat,
                    ));
                    assert forall|env: Env| (#[trigger] self.root_values(env)) == mid.root_values(
                        env,
                    ) + products_with(old(self).values(es@, env), i as int, (j + 1) as nat) by {
                        let vs = old(self).values(es@, env);
                        assert(before.value(es@[i as int], env) == vs[i as int]);
                        assert(before.value(es@[j as int], env) == vs[j as int]);
                        assert(before.root_values(env) == mid.root_values(env) + products_with(
                            vs,
                            i as int,
                            j as nat,
                        ));
                        assert(self.root_values(env) =~= mid.root_values(env) + products_with(
                            vs,
                            i as int,
                            (j + 1) as nat,
                        ));
                    }
                }
            }
            proof {
                assert(self.root_degrees() =~= old(self).root_degrees() + pair_sums(
                    old(self).degrees(es@),
                    (i + 1) as nat,
                ));
                assert forall|env: Env| (#[trigger] self.root_values(env)) == old(self).root_values(env) + pair_products(
                    old(self).values(es@, env),
                    (i + 1) as nat,
                ) by {
                    let vs = old(self).values(es@, env);
                    assert(mid.root_values(env) == old(self).root_values(env) + pair_products(
                        vs,
                        i as nat,
                    ));
                    assert(self.root_values(env) =~= old(self).root_values(env) + pair_products(
                        vs,
                        (i + 1) as nat,
                    ));
                }
            }
        }
    }

    /// Cell `i` of the next row.
    pub fn next(&mut self, i: usize) -> (r: Expr)
        requires
            old(self).wf(),
        ensures
            final(self).wf(),
            final(self).has(r),
            final(self).extends(*old(self)),
            final(self).degree(r) == 1,
            final(self).root_degrees() == old(self).root_degrees(),
            forall|env: Env| #[trigger] final(self).value(r, env) == env.next[i as int],
            forall|env: Env|
                (#[trigger] final(self).root_values(env)) == old(self).root_values(env),
    {
        self.push(Node::Next(i))
    }

    /// The constant `c`.
    pub fn constant(&mut self, c: Block128) -> (r: Expr)
        requires
            old(self).wf(),
        ensures
            final(self).wf(),
            final(self).has(r),
            final(self).extends(*old(self)),
            final(self).degree(r) == 0,
            final(self).root_degrees() == old(self).root_degrees(),
            forall|env: Env| #[trigger] final(self).value(r, env) == c.0,
            forall|env: Env|
                (#[trigger] final(self).root_values(env)) == old(self).root_values(env),
    {
        self.push(Node::Const(c.0))
    }

    /// The constant one.
    pub fn one(&mut self) -> (r: Expr)
        requires
            old(self).wf(),
        ensures
            final(self).wf(),
            final(self).has(r),
            final(self).extends(*old(self)),
            final(self).degree(r) == 0,
            final(self).root_degrees() == old(self).root_degrees(),
            forall|env: Env| #[trigger] final(self).value(r, env) == 1,
            forall|env: Env|
                (#[trigger] final(self).root_values(env)) == old(self).root_values(env),
    {
        self.constant(Block128(1))
    }

    /// `a + b`.
    pub fn plus(&mut self, a: Expr, b: Expr) -> (r: Expr)
        requires
            old(self).wf(),
            old(self).has(a),
            old(self).has(b),
        ensures
            final(self).wf(),
            final(self).has(r),
            final(self).extends(*old(self)),
            final(self).degree(r) == larger(old(self).degree(a), old(self).degree(b)),
            final(self).root_degrees() == old(self).root_degrees(),
            forall|env: Env|
                #[trigger] final(self).value(r, env) == old(self).value(a, env) ^ old(self).value(b, env),
            forall|env: Env|
                (#[trigger] final(self).root_values(env)) == old(self).root_values(env),
    {
        let r = self.push(Node::Add(a.0, b.0));
        proof {
            assert(self.degree(a) == old(self).degree(a));
            assert(self.degree(b) == old(self).degree(b));
            assert forall|env: Env| #[trigger] self.value(r, env) == old(self).value(a, env) ^ old(self).value(b, env) by {
                assert(self.value(a, env) == old(self).value(a, env));
                assert(self.value(b, env) == old(self).value(b, env));
            }
        }
        r
    }

    /// `a · b`.
    pub fn times(&mut self, a: Expr, b: Expr) -> (r: Expr)
        requires
            old(self).wf(),
            old(self).has(a),
            old(self).has(b),
        ensures
            final(self).wf(),
            final(self).has(r),
            final(self).extends(*old(self)),
            final(self).degree(r) == old(self).degree(a) + old(self).degree(b),
            final(self).root_degrees() == old(self).root_degrees(),
            forall|env: Env|
                #[trigger] final(self).value(r, env) == gf::gf128_mul(
                    old(self).value(a, env),
                    old(self).value(b, env),
                ),
            forall|env: Env|
                (#[trigger] final(self).root_values(env)) == old(self).root_values(env),
    {
        let r = self.push(Node::Mul(a.0, b.0));
        proof {
            assert(self.degree(a) == old(self).degree(a));
            assert(self.degree(b) == old(self).degree(b));
            assert forall|env: Env| #[trigger] self.value(r, env) == gf::gf128_mul(
                    old(self).value(a, env),
                    old(self).value(b, env),
                ) by {
                assert(self.value(a, env) == old(self).value(a, env));
                assert(self.value(b, env) == old(self).value(b, env));
            }
        }
        r
    }

    /// `c · e`.
    pub fn scale(&mut self, c: Block128, e: Expr) -> (r: Expr)
        requires
            old(self).wf(),
            old(self).has(e),
        ensures
            final(self).wf(),
            final(self).has(r),
            final(self).extends(*old(self)),
            final(self).degree(r) == old(self).degree(e),
            final(self).root_degrees() == old(self).root_degrees(),
            forall|env: Env|
                #[trigger] final(self).value(r, env) == gf::gf128_mul(
                    c.0,
                    old(self).value(e, env),
                ),
            forall|env: Env|
                (#[trigger] final(self).root_values(env)) == old(self).root_values(env),
    {
        let k = self.constant(c);
        let r = self.times(k, e);
        r
    }

    /// The sum of `es`, zero for none.
    pub fn sum(&mut self, es: &[Expr]) -> (r: Expr)
        requires
            old(self).wf(),
            old(self).has_all(es@),
        ensures
            final(self).wf(),
            final(self).has(r),
            final(self).extends(*old(self)),
            final(self).degree(r) == largest(old(self).degrees(es@)),
            final(self).root_degrees() == old(self).root_degrees(),
            forall|env: Env|
                #[trigger] final(self).value(r, env) == xor_all(old(self).values(es@, env)),
            forall|env: Env|
                (#[trigger] final(self).root_values(env)) == old(self).root_values(env),
    {
        let mut r = self.constant(Block128(0));
        for i in 0..es.len()
            invariant
                self.wf(),
                self.has(r),
                self.extends(*old(self)),
                self.degree(r) == largest(old(self).degrees(es@).take(i as int)),
                self.root_degrees() == old(self).root_degrees(),
                old(self).has_all(es@),
                forall|env: Env|
                    #[trigger] self.value(r, env) == xor_all(
                        old(self).values(es@, env).take(i as int),
                    ),
                forall|env: Env|
                    (#[trigger] self.root_values(env)) == old(self).root_values(env),
        {
            let ghost before = *self;
            let ghost prev = r;
            proof {
                assert(old(self).has(es@[i as int]));
            }
            r = self.plus(r, es[i]);
            proof {
                let ds = old(self).degrees(es@);
                assert(ds.take(i + 1).drop_last() =~= ds.take(i as int));
                assert forall|env: Env| #[trigger] self.value(r, env) == xor_all(
                    old(self).values(es@, env).take(i + 1),
                ) by {
                    let vs = old(self).values(es@, env);
                    assert(vs.take(i + 1).drop_last() =~= vs.take(i as int));
                    assert(before.value(prev, env) == xor_all(vs.take(i as int)));
                    assert(before.value(es@[i as int], env) == old(self).value(es@[i as int], env));
                }
            }
        }
        proof {
            let ds = old(self).degrees(es@);
            assert(ds.take(es@.len() as int) =~= ds);
            assert forall|env: Env| #[trigger] self.value(r, env) == xor_all(
                old(self).values(es@, env),
            ) by {
                let vs = old(self).values(es@, env);
                assert(vs.take(es@.len() as int) =~= vs);
            }
        }
        r
    }

    /// `Σ 2^j · bits_j`.
    pub fn weigh(&mut self, bits: &[Expr]) -> (r: Expr)
        requires
            old(self).wf(),
            old(self).has_all(bits@),
            bits@.len() <= 64,
        ensures
            final(self).wf(),
            final(self).has(r),
            final(self).extends(*old(self)),
            final(self).degree(r) == largest(old(self).degrees(bits@)),
            final(self).root_degrees() == old(self).root_degrees(),
            forall|env: Env|
                #[trigger] final(self).value(r, env) == weighted(old(self).values(bits@, env)),
            forall|env: Env| (#[trigger] final(self).root_values(env)) == old(self).root_values(env),
    {
        let mut terms: Vec<Expr> = Vec::with_capacity(bits.len());
        for j in 0..bits.len()
            invariant
                self.wf(),
                self.extends(*old(self)),
                self.root_degrees() == old(self).root_degrees(),
                forall|k: int|
                    0 <= k < j ==> self.degree(#[trigger] terms@[k]) == old(self).degree(bits@[k]),
                old(self).has_all(bits@),
                bits@.len() <= 64,
                terms@.len() == j,
                self.has_all(terms@),
                forall|env: Env, k: int|
                    0 <= k < j ==> #[trigger] self.value(terms@[k], env) == gf::gf128_mul(
                        1u128 << (k as u128),
                        old(self).value(bits@[k], env),
                    ),
                forall|env: Env| (#[trigger] self.root_values(env)) == old(self).root_values(env),
        {
            let ghost before = *self;
            let ghost prev = terms@;
            proof {
                assert(old(self).has(bits@[j as int]));
            }
            let t = self.scale(Block128(1u128 << (j as u128)), bits[j]);
            terms.push(t);
            proof {
                self.lemma_has_stable(before, prev);
                assert forall|k: int| 0 <= k < j + 1 implies self.degree(#[trigger] terms@[k])
                    == old(self).degree(bits@[k]) by {
                    if k < j {
                        assert(before.has(prev[k]));
                        assert(before.degree(prev[k]) == old(self).degree(bits@[k]));
                    }
                }
                assert forall|env: Env, k: int| 0 <= k < j + 1 implies #[trigger] self.value(
                    terms@[k],
                    env,
                ) == gf::gf128_mul(1u128 << (k as u128), old(self).value(bits@[k], env)) by {
                    if k < j {
                        assert(before.has(prev[k]));
                        assert(before.value(prev[k], env) == gf::gf128_mul(
                            1u128 << (k as u128),
                            old(self).value(bits@[k], env),
                        ));
                    } else {
                        assert(before.value(bits@[j as int], env) == old(self).value(
                            bits@[j as int],
                            env,
                        ));
                    }
                }
            }
        }
        let ghost mid = *self;
        let r = self.sum(terms.as_slice());
        proof {
            assert(mid.degrees(terms@) =~= old(self).degrees(bits@));
            assert forall|env: Env| #[trigger] self.value(r, env) == weighted(
                old(self).values(bits@, env),
            ) by {
                let vs = old(self).values(bits@, env);
                let ws = Seq::new(vs.len(), |j: int| gf::gf128_mul(1u128 << (j as u128), vs[j]));
                assert forall|k: int| 0 <= k < ws.len() implies mid.values(terms@, env)[k] == ws[k] by {
                    assert(mid.value(terms@[k], env) == gf::gf128_mul(
                        1u128 << (k as u128),
                        old(self).value(bits@[k], env),
                    ));
                }
                assert(mid.values(terms@, env) =~= ws);
            }
        }
        r
    }

    /// Imposes `e = 0`.
    pub fn constrain(&mut self, e: Expr)
        requires
            old(self).wf(),
            old(self).has(e),
        ensures
            final(self).wf(),
            final(self).extends(*old(self)),
            final(self).imposes(*old(self), old(self).degree(e)),
            forall|env: Env|
                (#[trigger] final(self).root_values(env)) == old(self).root_values(env).push(
                    old(self).value(e, env),
                ),
    {
        self.roots.push(e);
        proof {
            lemma_pushed(old(self).root_degrees(), old(self).degree(e));
            assert(self.root_degrees() =~= old(self).root_degrees().push(old(self).degree(e)));
        }
    }

    /// Imposes `e · (e + 1) = 0`.
    pub fn assert_boolean(&mut self, e: Expr)
        requires
            old(self).wf(),
            old(self).has(e),
        ensures
            final(self).wf(),
            final(self).extends(*old(self)),
            final(self).imposes(*old(self), 2 * old(self).degree(e)),
            forall|env: Env|
                (#[trigger] final(self).root_values(env)) == old(self).root_values(env).push(
                    boolean_residue(old(self).value(e, env)),
                ),
    {
        let one = self.one();
        let shifted = self.plus(e, one);
        let product = self.times(e, shifted);
        self.constrain(product);
    }

    /// Imposes `selector · body = 0`.
    pub fn assert_zero_when(&mut self, selector: Expr, body: Expr)
        requires
            old(self).wf(),
            old(self).has(selector),
            old(self).has(body),
        ensures
            final(self).wf(),
            final(self).extends(*old(self)),
            final(self).imposes(
                *old(self),
                old(self).degree(selector) + old(self).degree(body),
            ),
            forall|env: Env|
                (#[trigger] final(self).root_values(env)) == old(self).root_values(env).push(
                    gf::gf128_mul(old(self).value(selector, env), old(self).value(body, env)),
                ),
    {
        let product = self.times(selector, body);
        self.constrain(product);
    }

    /// Imposes that `es` add up to one.
    pub fn assert_one_hot(&mut self, es: &[Expr])
        requires
            old(self).wf(),
            old(self).has_all(es@),
        ensures
            final(self).wf(),
            final(self).extends(*old(self)),
            final(self).imposes(*old(self), largest(old(self).degrees(es@))),
            forall|env: Env|
                (#[trigger] final(self).root_values(env)) == old(self).root_values(env).push(
                    xor_all(old(self).values(es@, env)) ^ 1,
                ),
    {
        let total = self.sum(es);
        let one = self.one();
        let off = self.plus(total, one);
        self.constrain(off);
    }

    /// Hands out the collected constraints.
    pub fn build(self) -> (r: ConstraintAst)
        requires
            self.wf(),
        ensures
            r.wf(),
            (r.arena@, r.roots@) == self.parts(),
            r.root_degrees() == self.root_degrees(),
            forall|env: Env| (#[trigger] r.root_values(env)) == self.root_values(env),
    {
        let r = ConstraintAst { arena: self.nodes, roots: self.roots };
        assert(r.root_degrees() =~= self.root_degrees());
        r
    }
}

/// `Σ 2^j · v_j`.
pub open spec fn weighted(vs: Seq<u128>) -> u128 {
    xor_all(Seq::new(vs.len(), |j: int| gf::gf128_mul(1u128 << (j as u128), vs[j])))
}

/// The `n` cells of a row from `start` on.
pub open spec fn cells(row: Seq<u128>, start: int, n: nat) -> Seq<u128> {
    Seq::new(n, |i: int| row[start + i])
}

/// The booleanity constraints of a list.
pub open spec fn boolean_residues(vs: Seq<u128>) -> Seq<u128> {
    Seq::new(vs.len(), |i: int| boolean_residue(vs[i]))
}

/// The products of entry `i` with the entries after it and before `n`.
pub open spec fn products_with(vs: Seq<u128>, i: int, n: nat) -> Seq<u128>
    decreases n,
{
    if n == 0 || n <= i + 1 {
        Seq::empty()
    } else {
        products_with(vs, i, (n - 1) as nat).push(gf::gf128_mul(vs[i], vs[n - 1]))
    }
}

/// The products of the first `n` entries with every later one.
pub open spec fn pair_products(vs: Seq<u128>, n: nat) -> Seq<u128>
    decreases n,
{
    if n == 0 {
        Seq::empty()
    } else {
        pair_products(vs, (n - 1) as nat) + products_with(vs, n - 1, vs.len())
    }
}

/// Twice each of a list.
pub open spec fn doubled(ds: Seq<nat>) -> Seq<nat> {
    Seq::new(ds.len(), |i: int| 2 * ds[i])
}

/// The sums of entry `i` with the entries after it and before `n`.
pub open spec fn sums_with(ds: Seq<nat>, i: int, n: nat) -> Seq<nat>
    decreases n,
{
    if n == 0 || n <= i + 1 {
        Seq::empty()
    } else {
        sums_with(ds, i, (n - 1) as nat).push(ds[i] + ds[n - 1])
    }
}

/// The sums of the first `n` entries with every later one.
pub open spec fn pair_sums(ds: Seq<nat>, n: nat) -> Seq<nat>
    decreases n,
{
    if n == 0 {
        Seq::empty()
    } else {
        pair_sums(ds, (n - 1) as nat) + sums_with(ds, n - 1, ds.len())
    }
}

/// `v · (v + 1)`, zero on the booleans only.
pub open spec fn boolean_residue(v: u128) -> u128 {
    gf::gf128_mul(v, v ^ 1)
}

/// The sum of `vs` in characteristic 2.
pub open spec fn xor_all(vs: Seq<u128>) -> u128
    decreases vs.len(),
{
    if vs.len() == 0 {
        0
    } else {
        xor_all(vs.drop_last()) ^ vs.last()
    }
}

/// Finished constraints: an arena of expressions and the roots that vanish.
#[derive(Debug)]
pub struct ConstraintAst {
    pub arena: Vec<Node>,
    pub roots: Vec<Expr>,
}

impl ConstraintAst {
    pub open spec fn wf(self) -> bool {
        &&& nodes_wf(self.arena@)
        &&& forall|i: int| 0 <= i < self.roots@.len() ==> (#[trigger] self.roots@[i]).0 < self.arena@.len()
    }

    /// The values of the roots.
    pub open spec fn root_values(self, env: Env) -> Seq<u128> {
        Seq::new(
            self.roots@.len(),
            |i: int| node_value(self.arena@, self.roots@[i].0 as nat, env),
        )
    }

    /// The degree of root `i`.
    pub open spec fn root_degree(self, i: int) -> nat {
        node_degree(self.arena@, self.roots@[i].0 as nat)
    }

    /// The degrees of the roots.
    pub open spec fn root_degrees(self) -> Seq<nat> {
        Seq::new(self.roots@.len(), |i: int| self.root_degree(i))
    }

    /// Whether every cell the constraints read is below `width`.
    pub fn fits(&self, width: usize) -> (r: bool)
        ensures
            r == node_in_width(self.arena@, width as nat),
    {
        for e in 0..self.arena.len()
            invariant
                forall|k: int|
                    0 <= k < e ==> match #[trigger] self.arena@[k] {
                        Node::Col(i) => i < width,
                        Node::Next(i) => i < width,
                        _ => true,
                    },
        {
            let ok: bool = match self.arena[e] {
                Node::Col(i) => i < width,
                Node::Next(i) => i < width,
                _ => true,
            };
            if !ok {
                return false;
            }
        }
        true
    }

    /// The values of the roots on two rows.
    pub fn evaluate(&self, cur: &[Flat<Block128>], next: &[Flat<Block128>]) -> (r: Vec<
        Flat<Block128>,
    >)
        requires
            self.wf(),
            node_in_width(self.arena@, cur@.len()),
            node_in_width(self.arena@, next@.len()),
        ensures
            flat_values(r@) == self.root_values(Env { cur: flat_values(cur@), next: flat_values(next@) }),
    {
        let ghost env = Env { cur: flat_values(cur@), next: flat_values(next@) };
        let mut values: Vec<Flat<Block128>> = Vec::with_capacity(self.arena.len());
        for e in 0..self.arena.len()
            invariant
                self.wf(),
                node_in_width(self.arena@, cur@.len()),
                node_in_width(self.arena@, next@.len()),
                env == (Env { cur: flat_values(cur@), next: flat_values(next@) }),
                values@.len() == e,
                forall|k: int|
                    0 <= k < e ==> (#[trigger] values@[k])@ == node_value(
                        self.arena@,
                        k as nat,
                        env,
                    ),
        {
            let node = self.arena[e];
            let value: Flat<Block128> = match node {
                Node::Const(c) => Block128(c).to_hardware(),
                Node::Col(i) => cur[i],
                Node::Next(i) => next[i],
                Node::Add(a, b) => values[a].plus(values[b]),
                Node::Mul(a, b) => values[a].times(values[b]),
            };
            values.push(value);
        }
        let mut r: Vec<Flat<Block128>> = Vec::with_capacity(self.roots.len());
        for i in 0..self.roots.len()
            invariant
                self.wf(),
                values@.len() == self.arena@.len(),
                forall|k: int|
                    0 <= k < values@.len() ==> (#[trigger] values@[k])@ == node_value(
                        self.arena@,
                        k as nat,
                        env,
                    ),
                r@.len() == i,
                forall|k: int| 0 <= k < i ==> (#[trigger] r@[k])@ == self.root_values(env)[k],
        {
            r.push(values[self.roots[i].0]);
        }
        assert(flat_values(r@) =~= self.root_values(env));
        r
    }

    /// The largest degree of a root, zero without roots.
    /// Degrees above `usize::MAX` count as that.
    pub fn max_degree(&self) -> (r: usize)
        requires
            self.wf(),
        ensures
            forall|i: int| 0 <= i < self.roots@.len() ==> saturated(#[trigger] self.root_degree(i)) <= r,
            self.roots@.len() > 0 ==> exists|i: int|
                0 <= i < self.roots@.len() && saturated(#[trigger] self.root_degree(i)) == r,
            self.roots@.len() == 0 ==> r == 0,
    {
        let mut degrees: Vec<usize> = Vec::with_capacity(self.arena.len());
        for e in 0..self.arena.len()
            invariant
                self.wf(),
                degrees@.len() == e,
                forall|k: int|
                    0 <= k < e ==> (#[trigger] degrees@[k]) as nat == saturated(
                        node_degree(self.arena@, k as nat),
                    ),
        {
            let degree: usize = match self.arena[e] {
                Node::Const(_) => 0,
                Node::Col(_) => 1,
                Node::Next(_) => 1,
                Node::Add(a, b) => if degrees[a] <= degrees[b] {
                    degrees[b]
                } else {
                    degrees[a]
                },
                Node::Mul(a, b) => degrees[a].saturating_add(degrees[b]),
            };
            degrees.push(degree);
        }
        let mut best: usize = 0;
        let ghost mut at: int = 0;
        for i in 0..self.roots.len()
            invariant
                self.wf(),
                degrees@.len() == self.arena@.len(),
                forall|k: int|
                    0 <= k < degrees@.len() ==> (#[trigger] degrees@[k]) as nat == saturated(
                        node_degree(self.arena@, k as nat),
                    ),
                forall|k: int| 0 <= k < i ==> saturated(#[trigger] self.root_degree(k)) <= best,
                i > 0 ==> 0 <= at < i && saturated(self.root_degree(at)) == best,
                i == 0 ==> best == 0,
        {
            let degree: usize = degrees[self.roots[i].0];
            assert(degree as nat == saturated(self.root_degree(i as int)));
            if degree > best || i == 0 {
                best = degree;
                proof {
                    at = i as int;
                }
            }
        }
        best
    }
}

/// The elements that flat values stand for.
pub open spec fn flat_values(row: Seq<Flat<Block128>>) -> Seq<u128> {
    Seq::new(row.len(), |i: int| row[i]@)
}

/// `d`, or the largest machine word below it.
pub open spec fn saturated(d: nat) -> nat {
    if d <= usize::MAX {
        d
    } else {
        usize::MAX as nat
    }
}

} // verus!

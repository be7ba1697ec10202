//! The degree of a constraint is a degree: along every line of rows its value
//! is a polynomial with no more coefficients than that.

use vstd::arithmetic::power2::*;
use vstd::prelude::*;

use super::constraint;
use super::constraint::{ConstraintAst, Env, Node};
use crate::atoms::int_laws;
use crate::field::gf;
use crate::field::laws::Ring;
use crate::poly::unique;

verus! {

/// The rows `p + t · q`, cell by cell.
pub open spec fn along(p: Env, q: Env, t: u128) -> Env {
    Env {
        cur: Seq::new(p.cur.len(), |i: int| p.cur[i] ^ gf::gf128_mul(t, q.cur[i])),
        next: Seq::new(p.next.len(), |i: int| p.next[i] ^ gf::gf128_mul(t, q.next[i])),
    }
}

// ---------------------------------------------------------------
// Arithmetic of coefficients
// ---------------------------------------------------------------

/// The same polynomial with more coefficients.
spec fn longer(c: Seq<u128>, n: nat) -> Seq<u128> {
    Seq::new(
        n,
        |i: int|
            if i < c.len() {
                c[i]
            } else {
                0
            },
    )
}

/// The product of two polynomials.
spec fn product(c: Seq<u128>, d: Seq<u128>) -> Seq<u128>
    decreases c.len(),
{
    if c.len() <= 1 {
        unique::scaled(d, c[0])
    } else {
        let rest = product(c.skip(1), d);
        unique::summed(
            longer(unique::scaled(d, c[0]), rest.len() + 1),
            seq![0u128] + rest,
        )
    }
}

proof fn lemma_longer(c: Seq<u128>, n: nat, z: u128)
    requires
        c.len() <= n,
    ensures
        unique::poly_value(longer(c, n), z) == unique::poly_value(c, z),
    decreases n,
{
    if n > 0 {
        let all = longer(c, n);
        let m = (n - 1) as nat;
        if c.len() == 0 {
            assert(all.skip(1) =~= longer(c, m));
            lemma_longer(c, m, z);
            <u128 as Ring>::units(z);
            int_laws::lemma_xor(0, 0);
        } else {
            assert(all.skip(1) =~= longer(c.skip(1), m));
            lemma_longer(c.skip(1), m, z);
        }
    }
}

proof fn lemma_product(c: Seq<u128>, d: Seq<u128>, z: u128)
    requires
        c.len() > 0,
        d.len() > 0,
    ensures
        product(c, d).len() == c.len() + d.len() - 1,
        unique::poly_value(product(c, d), z) == gf::gf128_mul(
            unique::poly_value(c, z),
            unique::poly_value(d, z),
        ),
    decreases c.len(),
{
    let v = unique::poly_value(d, z);
    let head = unique::scaled(d, c[0]);
    unique::lemma_scaled(d, c[0], z);
    let t = c.skip(1);
    if c.len() == 1 {
        assert(unique::poly_value(t, z) == 0);
        <u128 as Ring>::units(z);
        int_laws::lemma_xor(c[0], 0);
    } else {
        lemma_product(t, d, z);
        let rest = product(t, d);
        let raised = seq![0u128] + rest;
        let x = unique::poly_value(t, z);
        lemma_longer(head, rest.len() + 1, z);
        unique::lemma_summed(longer(head, rest.len() + 1), raised, z);
        assert(raised.skip(1) =~= rest);
        int_laws::lemma_xor(0, gf::gf128_mul(z, gf::gf128_mul(x, v)));
        unique::lemma_distributes(c[0], gf::gf128_mul(z, x), v);
        <u128 as Ring>::associates(z, x, v);
    }
}

/// The coefficients of an entry along a line.
spec fn coefficients(nodes: Seq<Node>, e: nat, p: Env, q: Env) -> Seq<u128>
    decreases e,
{
    match nodes[e as int] {
        Node::Const(c) => seq![c],
        Node::Col(i) => seq![p.cur[i as int], q.cur[i as int]],
        Node::Next(i) => seq![p.next[i as int], q.next[i as int]],
        Node::Add(l, r) => if l < e && r < e {
            let (c, d) = (
                coefficients(nodes, l as nat, p, q),
                coefficients(nodes, r as nat, p, q),
            );
            let n = if c.len() <= d.len() {
                d.len()
            } else {
                c.len()
            };
            unique::summed(longer(c, n), longer(d, n))
        } else {
            seq![0u128]
        },
        Node::Mul(l, r) => if l < e && r < e {
            product(coefficients(nodes, l as nat, p, q), coefficients(nodes, r as nat, p, q))
        } else {
            seq![0u128]
        },
    }
}

proof fn lemma_constant(c: u128, z: u128)
    ensures
        unique::poly_value(seq![c], z) == c,
{
    let s = seq![c];
    assert(s.skip(1) =~= Seq::<u128>::empty());
    assert(unique::poly_value(s.skip(1), z) == 0);
    <u128 as Ring>::units(z);
    int_laws::lemma_xor(c, 0);
}

proof fn lemma_line(a: u128, b: u128, z: u128)
    ensures
        unique::poly_value(seq![a, b], z) == a ^ gf::gf128_mul(z, b),
{
    let s = seq![a, b];
    assert(s.skip(1) =~= seq![b]);
    lemma_constant(b, z);
}

proof fn lemma_coefficients(nodes: Seq<Node>, width: nat, e: nat, p: Env, q: Env, t: u128)
    requires
        constraint::nodes_wf(nodes),
        constraint::node_in_width(nodes, width),
        e < nodes.len(),
        p.cur.len() == width,
        p.next.len() == width,
    ensures
        coefficients(nodes, e, p, q).len() == constraint::node_degree(nodes, e) + 1,
        unique::poly_value(coefficients(nodes, e, p, q), t) == constraint::node_value(
            nodes,
            e,
            along(p, q, t),
        ),
    decreases e,
{
    match nodes[e as int] {
        Node::Const(c) => {
            lemma_constant(c, t);
        },
        Node::Col(i) => {
            lemma_line(p.cur[i as int], q.cur[i as int], t);
        },
        Node::Next(i) => {
            lemma_line(p.next[i as int], q.next[i as int], t);
        },
        Node::Add(l, r) => {
            lemma_coefficients(nodes, width, l as nat, p, q, t);
            lemma_coefficients(nodes, width, r as nat, p, q, t);
            let (c, d) = (
                coefficients(nodes, l as nat, p, q),
                coefficients(nodes, r as nat, p, q),
            );
            let n = if c.len() <= d.len() {
                d.len()
            } else {
                c.len()
            };
            lemma_longer(c, n, t);
            lemma_longer(d, n, t);
            unique::lemma_summed(longer(c, n), longer(d, n), t);
        },
        Node::Mul(l, r) => {
            lemma_coefficients(nodes, width, l as nat, p, q, t);
            lemma_coefficients(nodes, width, r as nat, p, q, t);
            lemma_product(
                coefficients(nodes, l as nat, p, q),
                coefficients(nodes, r as nat, p, q),
                t,
            );
        },
    }
}

// ---------------------------------------------------------------
// Laws
// ---------------------------------------------------------------

/// Root `i` of the constraints has, along any line of rows, the values of a
/// polynomial of the degree that is given for it.
pub proof fn law_degree_bounds(ast: ConstraintAst, width: nat, i: int, p: Env, q: Env) -> (coeffs:
    Seq<u128>)
    requires
        ast.wf(),
        constraint::node_in_width(ast.arena@, width),
        0 <= i < ast.roots@.len(),
        p.cur.len() == width,
        p.next.len() == width,
    ensures
        coeffs.len() == ast.root_degree(i) + 1,
        forall|t: u128| #[trigger]
            unique::poly_value(coeffs, t) == ast.root_values(along(p, q, t))[i],
{
    let e = ast.roots@[i].0 as nat;
    let c = coefficients(ast.arena@, e, p, q);
    lemma_coefficients(ast.arena@, width, e, p, q, 0);
    assert forall|t: u128| #[trigger]
        unique::poly_value(c, t) == ast.root_values(along(p, q, t))[i] by {
        lemma_coefficients(ast.arena@, width, e, p, q, t);
    }
    c
}

/// The degree is no more than the shape of an expression asks for: a sum has
/// the degree of one of its terms and is at least both, a product that of both
/// factors together, a cell one and a constant none.
pub proof fn law_degree_is_formal(nodes: Seq<Node>, e: nat)
    requires
        constraint::nodes_wf(nodes),
        e < nodes.len(),
    ensures
        match nodes[e as int] {
            Node::Const(_) => constraint::node_degree(nodes, e) == 0,
            Node::Col(_) => constraint::node_degree(nodes, e) == 1,
            Node::Next(_) => constraint::node_degree(nodes, e) == 1,
            Node::Add(l, r) => {
                let (a, b) = (
                    constraint::node_degree(nodes, l as nat),
                    constraint::node_degree(nodes, r as nat),
                );
                let d = constraint::node_degree(nodes, e);
                (d == a || d == b) && d >= a && d >= b
            },
            Node::Mul(l, r) => constraint::node_degree(nodes, e) - constraint::node_degree(
                nodes,
                l as nat,
            ) == constraint::node_degree(nodes, r as nat),
        },
        constraint::node_degree(nodes, e) <= pow2(e),
    decreases e,
{
    lemma_pow2_pos(e);
    match nodes[e as int] {
        Node::Add(l, r) => {
            law_degree_is_formal(nodes, l as nat);
            law_degree_is_formal(nodes, r as nat);
            lemma_grows(l as nat, (e - 1) as nat);
            lemma_grows(r as nat, (e - 1) as nat);
            lemma_pow2_unfold(e);
        },
        Node::Mul(l, r) => {
            law_degree_is_formal(nodes, l as nat);
            law_degree_is_formal(nodes, r as nat);
            lemma_grows(l as nat, (e - 1) as nat);
            lemma_grows(r as nat, (e - 1) as nat);
            lemma_pow2_unfold(e);
        },
        _ => {},
    }
}

proof fn lemma_grows(a: nat, b: nat)
    requires
        a <= b,
    ensures
        pow2(a) <= pow2(b),
{
    if a < b {
        lemma_pow2_strictly_increases(a, b);
    }
}

} // verus!

//! Lowering of equations onto gates.
//!
//! Sign convention: an equation `lhs = ±p` becomes a gate `lhs ∓ p = 0`.
//! Every term of the left side keeps its own sign in its selector, whether or
//! not the equation has a quadratic term, and the public input's signed value
//! enters the constant selector negated. With this one convention a gate holds
//! under some values exactly when its equation does (see
//! `lemma_gate_encodes_equation`).
use vstd::prelude::*;

use crate::expr::{BiTerm, ExprModel, PlangExpr, Public, TriTerm};
use crate::rules::{bis_distinct, name_seq, tri_distinct, wire_names};
use crate::vars::{find_var, index_of, names_of, sorted, value_of, Var};

verus! {

/// One gate `q_m·a·b + q_l·a + q_r·b + q_o·o + q_c = 0`. A wire holds the
/// position in the variable table of the witness bound to it; an unbound wire
/// carries zero. `public` marks a constant selector that holds a public input.
#[derive(Debug, Clone, Copy, PartialEq, Eq)]
pub struct Gate {
    pub q_m: i128,
    pub q_l: i128,
    pub q_r: i128,
    pub q_o: i128,
    pub q_c: i128,
    pub public: bool,
    pub a: Option<usize>,
    pub b: Option<usize>,
    pub o: Option<usize>,
}

/// `c`, negated when `minus` is set.
pub open spec fn signed(minus: bool, c: int) -> int {
    if minus {
        -c
    } else {
        c
    }
}

/// A gate with every selector zero and every wire unbound.
pub open spec fn empty_gate() -> Gate {
    Gate { q_m: 0, q_l: 0, q_r: 0, q_o: 0, q_c: 0, public: false, a: None, b: None, o: None }
}

/// The wire of the entry named `n`.
pub open spec fn wire_of(t: Seq<Var>, n: Seq<char>) -> Option<usize> {
    Some(index_of(t, n) as usize)
}

/// A linear term that is neither operand of the quadratic term.
pub open spec fn outsider(b: BiTerm, tr: TriTerm) -> bool {
    b.var@ != tr.lvar@ && b.var@ != tr.rvar@
}

/// Places the linear term at position `pos` of its equation. Beside a quadratic
/// term it joins the wire of the operand it names, or else takes wire O;
/// without one, the terms take wires A, B and O in turn.
pub open spec fn place_bi(g: Gate, tri: Option<TriTerm>, b: BiTerm, pos: int, t: Seq<Var>) -> Gate {
    let s = signed(b.minus, b.coeff as int) as i128;
    match tri {
        Some(tr) => if b.var@ == tr.lvar@ {
            Gate { q_l: s, ..g }
        } else if b.var@ == tr.rvar@ {
            Gate { q_r: s, ..g }
        } else {
            Gate { q_o: s, o: wire_of(t, b.var@), ..g }
        },
        None => if pos == 0 {
            Gate { q_l: s, a: wire_of(t, b.var@), ..g }
        } else if pos == 1 {
            Gate { q_r: s, b: wire_of(t, b.var@), ..g }
        } else {
            Gate { q_o: s, o: wire_of(t, b.var@), ..g }
        },
    }
}

/// Places the linear terms `bs`, in order, on `g`.
pub open spec fn place_bis(g: Gate, tri: Option<TriTerm>, bs: Seq<BiTerm>, t: Seq<Var>) -> Gate
    decreases bs.len(),
{
    if bs.len() == 0 {
        g
    } else {
        place_bi(place_bis(g, tri, bs.drop_last(), t), tri, bs.last(), bs.len() - 1, t)
    }
}

/// The constant selector: the public input's signed value moved to the left.
pub open spec fn public_selector(p: Option<Public>, t: Seq<Var>) -> i128 {
    match p {
        Some(p) => (-signed(p.minus, value_of(t, p.var@))) as i128,
        None => 0,
    }
}

/// What an equation is lowered to, against the variable table `t`.
pub open spec fn lower_expr(e: ExprModel, t: Seq<Var>) -> Gate {
    let g0 = Gate { q_c: public_selector(e.public, t), public: e.public is Some, ..empty_gate() };
    let g1 = match e.tri {
        Some(tr) => Gate {
            q_m: signed(tr.minus, tr.coeff as int) as i128,
            a: wire_of(t, tr.lvar@),
            b: wire_of(t, tr.rvar@),
            ..g0
        },
        None => g0,
    };
    place_bis(g1, e.tri, e.bis, t)
}

/// The equation fits one gate: beside a quadratic term at most one linear term
/// needs wire O; without one, at most three linear terms.
pub open spec fn fits_gate(e: ExprModel) -> bool {
    match e.tri {
        Some(tr) => forall|i: int, j: int|
            0 <= i < j < e.bis.len() ==> !(outsider(#[trigger] e.bis[i], tr) && outsider(
                #[trigger] e.bis[j],
                tr,
            )),
        None => e.bis.len() <= 3,
    }
}

/// The value a wire carries.
pub open spec fn wire_value(t: Seq<Var>, w: Option<usize>) -> int {
    match w {
        Some(i) => if i < t.len() {
            t[i as int].role.value_spec() as int
        } else {
            0
        },
        None => 0,
    }
}

/// The left side of a gate under the values of `t`.
pub open spec fn gate_eval(g: Gate, t: Seq<Var>) -> int {
    let a = wire_value(t, g.a);
    let b = wire_value(t, g.b);
    let o = wire_value(t, g.o);
    g.q_m * a * b + g.q_l * a + g.q_r * b + g.q_o * o + g.q_c
}

/// The signed sum of the linear terms `bs` under the values of `t`.
pub open spec fn bis_sum(bs: Seq<BiTerm>, t: Seq<Var>) -> int
    decreases bs.len(),
{
    if bs.len() == 0 {
        0
    } else {
        bis_sum(bs.drop_last(), t) + signed(bs.last().minus, bs.last().coeff as int) * value_of(
            t,
            bs.last().var@,
        )
    }
}

/// The left side of an equation under the values of `t`.
pub open spec fn lhs(e: ExprModel, t: Seq<Var>) -> int {
    (match e.tri {
        Some(tr) => signed(tr.minus, tr.coeff as int) * value_of(t, tr.lvar@) * value_of(
            t,
            tr.rvar@,
        ),
        None => 0,
    }) + bis_sum(e.bis, t)
}

/// The right side of an equation under the values of `t`.
pub open spec fn rhs(e: ExprModel, t: Seq<Var>) -> int {
    match e.public {
        Some(p) => signed(p.minus, value_of(t, p.var@)),
        None => 0,
    }
}

/// Every name of the equation has an entry in `t`.
pub open spec fn names_in(e: ExprModel, t: Seq<Var>) -> bool {
    forall|k: int| 0 <= k < name_seq(e).len() ==> names_of(t).contains(#[trigger] name_seq(e)[k])
}

/// The entry named `n` is at `index_of(t, n)`.
proof fn lemma_named(t: Seq<Var>, n: Seq<char>)
    requires
        t.len() <= usize::MAX,
        names_of(t).contains(n),
    ensures
        0 <= index_of(t, n) < t.len(),
        t[index_of(t, n)].name@ == n,
        wire_value(t, wire_of(t, n)) == value_of(t, n),
{
    let i = choose|i: int| 0 <= i < t.len() && #[trigger] t[i].name@ == n;
    assert(t[i].name@ == n);
}

proof fn lemma_names_in(e: ExprModel, t: Seq<Var>)
    requires
        names_in(e, t),
    ensures
        e.tri matches Some(tr) ==> names_of(t).contains(tr.lvar@) && names_of(t).contains(tr.rvar@),
        forall|j: int| 0 <= j < e.bis.len() ==> names_of(t).contains(#[trigger] e.bis[j].var@),
        e.public matches Some(p) ==> names_of(t).contains(p.var@),
{
    let pre = match e.public {
        Some(p) => seq![p.var@],
        None => Seq::<Seq<char>>::empty(),
    };
    let tw = match e.tri {
        Some(tr) => seq![tr.lvar@, tr.rvar@],
        None => Seq::<Seq<char>>::empty(),
    };
    let ns = name_seq(e);
    assert(ns == pre + (tw + e.bis.map_values(|b: BiTerm| b.var@)));
    if let Some(tr) = e.tri {
        assert(ns[pre.len() as int] == tr.lvar@);
        assert(ns[pre.len() + 1int] == tr.rvar@);
    }
    assert forall|j: int| 0 <= j < e.bis.len() implies names_of(t).contains(
        #[trigger] e.bis[j].var@,
    ) by {
        assert(ns[pre.len() + tw.len() + j] == e.bis[j].var@);
    }
    if let Some(p) = e.public {
        assert(ns[0] == p.var@);
    }
}

/// Placing the first `k` linear terms beside a quadratic term adds their signed
/// sum, and leaves untouched the selectors that none of them needed.
proof fn lemma_place_with_tri(e: ExprModel, t: Seq<Var>, tr: TriTerm, g1: Gate, k: int)
    requires
        e.tri == Some(tr),
        tri_distinct(e),
        bis_distinct(e),
        fits_gate(e),
        names_in(e, t),
        t.len() <= usize::MAX,
        0 <= k <= e.bis.len(),
        g1.q_l == 0,
        g1.q_r == 0,
        g1.q_o == 0,
        g1.o is None,
        g1.a == wire_of(t, tr.lvar@),
        g1.b == wire_of(t, tr.rvar@),
    ensures
        ({
            let g = place_bis(g1, e.tri, e.bis.take(k), t);
            &&& g.q_m == g1.q_m
            &&& g.q_c == g1.q_c
            &&& g.a == g1.a
            &&& g.b == g1.b
            &&& (forall|j: int| 0 <= j < k ==> e.bis[j].var@ != tr.lvar@) ==> g.q_l == 0
            &&& (forall|j: int| 0 <= j < k ==> e.bis[j].var@ != tr.rvar@) ==> g.q_r == 0
            &&& (forall|j: int| 0 <= j < k ==> !outsider(e.bis[j], tr)) ==> g.q_o == 0 && g.o is None
            &&& gate_eval(g, t) == gate_eval(g1, t) + bis_sum(e.bis.take(k), t)
        }),
    decreases k,
{
    lemma_names_in(e, t);
    if k > 0 {
        lemma_place_with_tri(e, t, tr, g1, k - 1);
        let bs = e.bis.take(k);
        assert(bs.drop_last() =~= e.bis.take(k - 1));
        let b = e.bis[k - 1];
        assert(bs.last() == b);
        let g = place_bis(g1, e.tri, e.bis.take(k - 1), t);
        let h = place_bis(g1, e.tri, bs, t);
        assert(h == place_bi(g, e.tri, b, k - 1, t));
        let s = signed(b.minus, b.coeff as int);
        lemma_named(t, b.var@);
        lemma_named(t, tr.lvar@);
        lemma_named(t, tr.rvar@);
        let va = wire_value(t, g.a);
        let vb = wire_value(t, g.b);
        let vo = wire_value(t, g.o);
        if b.var@ == tr.lvar@ {
            assert forall|j: int| 0 <= j < k - 1 implies e.bis[j].var@ != tr.lvar@ by {
                assert(e.bis[j].var@ != e.bis[k - 1].var@);
            }
            assert(g.q_l == 0);
            assert(gate_eval(h, t) == gate_eval(g, t) + s * va);
        } else if b.var@ == tr.rvar@ {
            assert forall|j: int| 0 <= j < k - 1 implies e.bis[j].var@ != tr.rvar@ by {
                assert(e.bis[j].var@ != e.bis[k - 1].var@);
            }
            assert(g.q_r == 0);
            assert(gate_eval(h, t) == gate_eval(g, t) + s * vb);
        } else {
            assert forall|j: int| 0 <= j < k - 1 implies !outsider(e.bis[j], tr) by {
                assert(!(outsider(e.bis[j], tr) && outsider(e.bis[k - 1], tr)));
            }
            assert(g.q_o == 0 && g.o is None);
            assert(gate_eval(g, t) == g.q_m * va * vb + g.q_l * va + g.q_r * vb + g.q_c);
            assert(gate_eval(h, t) == gate_eval(g, t) + s * value_of(t, b.var@));
        }
    } else {
        assert(e.bis.take(0) =~= Seq::<BiTerm>::empty());
    }
}

/// Without a quadratic term, the first `k` linear terms fill wires A, B and O in
/// turn, adding their signed sum.
proof fn lemma_place_without_tri(e: ExprModel, t: Seq<Var>, g1: Gate, k: int)
    requires
        e.tri is None,
        fits_gate(e),
        names_in(e, t),
        t.len() <= usize::MAX,
        0 <= k <= e.bis.len(),
        g1 == (Gate { q_c: g1.q_c, public: g1.public, ..empty_gate() }),
    ensures
        ({
            let g = place_bis(g1, e.tri, e.bis.take(k), t);
            &&& g.q_m == 0
            &&& g.q_c == g1.q_c
            &&& k <= 0 ==> g.q_l == 0 && g.a == None::<usize>
            &&& k <= 1 ==> g.q_r == 0 && g.b == None::<usize>
            &&& k <= 2 ==> g.q_o == 0 && g.o == None::<usize>
            &&& gate_eval(g, t) == g1.q_c + bis_sum(e.bis.take(k), t)
        }),
    decreases k,
{
    lemma_names_in(e, t);
    if k > 0 {
        lemma_place_without_tri(e, t, g1, k - 1);
        let bs = e.bis.take(k);
        assert(bs.drop_last() =~= e.bis.take(k - 1));
        let b = e.bis[k - 1];
        assert(bs.last() == b);
        let g = place_bis(g1, e.tri, e.bis.take(k - 1), t);
        let h = place_bis(g1, e.tri, bs, t);
        assert(h == place_bi(g, e.tri, b, k - 1, t));
        lemma_named(t, b.var@);
        let s = signed(b.minus, b.coeff as int);
        let v = value_of(t, b.var@);
        let va = wire_value(t, g.a);
        let vb = wire_value(t, g.b);
        let vo = wire_value(t, g.o);
        let hq = h.q_m as int;
        let gq = g.q_m as int;
        assert(gq * va * vb == 0) by (nonlinear_arith)
            requires
                gq == 0,
        ;
        let ha = wire_value(t, h.a);
        let hb = wire_value(t, h.b);
        assert(hq * ha * hb == 0) by (nonlinear_arith)
            requires
                hq == 0,
        ;
        assert(gate_eval(g, t) == g.q_l * va + g.q_r * vb + g.q_o * vo + g.q_c);
        if k - 1 == 0 {
            assert(gate_eval(h, t) == s * v + g.q_r * vb + g.q_o * vo + g.q_c);
        } else if k - 1 == 1 {
            assert(gate_eval(h, t) == g.q_l * va + s * v + g.q_o * vo + g.q_c);
        } else {
            assert(gate_eval(h, t) == g.q_l * va + g.q_r * vb + s * v + g.q_c);
        }
    } else {
        assert(e.bis.take(0) =~= Seq::<BiTerm>::empty());
    }
}

/// An equation's gate encodes it: under any values of the table, the
/// gate's left side is the equation's left side minus its right side, so the
/// gate holds exactly when the equation does.
pub proof fn lemma_gate_encodes_equation(e: ExprModel, t: Seq<Var>)
    requires
        tri_distinct(e),
        bis_distinct(e),
        fits_gate(e),
        names_in(e, t),
        t.len() <= usize::MAX,
    ensures
        gate_eval(lower_expr(e, t), t) == lhs(e, t) - rhs(e, t),
{
    lemma_names_in(e, t);
    let g0 = Gate { q_c: public_selector(e.public, t), public: e.public is Some, ..empty_gate() };
    assert(e.bis.take(e.bis.len() as int) =~= e.bis);
    if let Some(p) = e.public {
        lemma_named(t, p.var@);
    }
    match e.tri {
        Some(tr) => {
            let g1 = Gate {
                q_m: signed(tr.minus, tr.coeff as int) as i128,
                a: wire_of(t, tr.lvar@),
                b: wire_of(t, tr.rvar@),
                ..g0
            };
            lemma_named(t, tr.lvar@);
            lemma_named(t, tr.rvar@);
            lemma_place_with_tri(e, t, tr, g1, e.bis.len() as int);
            let va = value_of(t, tr.lvar@);
            let vb = value_of(t, tr.rvar@);
            assert(gate_eval(g1, t) == g1.q_m * va * vb + g1.q_c);
        },
        None => {
            lemma_place_without_tri(e, t, g0, e.bis.len() as int);
        },
    }
}

/// The wire is unbound, or binds a witness entry of `t`.
pub open spec fn binds_witness(t: Seq<Var>, w: Option<usize>) -> bool {
    w matches Some(i) ==> i < t.len() && t[i as int].role is Witness
}

/// Every bound wire of `g` binds a witness entry of `t`.
pub open spec fn wires_bind_witnesses(g: Gate, t: Seq<Var>) -> bool {
    binds_witness(t, g.a) && binds_witness(t, g.b) && binds_witness(t, g.o)
}

proof fn lemma_place_keeps_witness_wires(g: Gate, tri: Option<TriTerm>, bs: Seq<BiTerm>, t: Seq<Var>)
    requires
        wires_bind_witnesses(g, t),
        forall|j: int| 0 <= j < bs.len() ==> binds_witness(t, wire_of(t, #[trigger] bs[j].var@)),
    ensures
        wires_bind_witnesses(place_bis(g, tri, bs, t), t),
    decreases bs.len(),
{
    if bs.len() > 0 {
        let s = bs.drop_last();
        assert forall|j: int| 0 <= j < s.len() implies binds_witness(t, wire_of(t, #[trigger] s[j].var@)) by {
            assert(s[j] == bs[j]);
        }
        lemma_place_keeps_witness_wires(g, tri, s, t);
        assert(binds_witness(t, wire_of(t, bs[bs.len() - 1].var@)));
    }
}

/// When every wire name of an equation names a witness entry, every wire of
/// its gate binds a witness.
pub proof fn lemma_gate_wires_are_witnesses(e: ExprModel, t: Seq<Var>)
    requires
        names_in(e, t),
        t.len() <= usize::MAX,
        forall|k: int|
            0 <= k < wire_names(e).len() ==> (#[trigger] t[index_of(t, wire_names(e)[k])]).role is Witness,
    ensures
        wires_bind_witnesses(lower_expr(e, t), t),
{
    lemma_names_in(e, t);
    let tw = match e.tri {
        Some(tr) => seq![tr.lvar@, tr.rvar@],
        None => Seq::<Seq<char>>::empty(),
    };
    let wn = wire_names(e);
    assert(wn == tw + e.bis.map_values(|b: BiTerm| b.var@));
    let g0 = Gate { q_c: public_selector(e.public, t), public: e.public is Some, ..empty_gate() };
    let g1 = match e.tri {
        Some(tr) => Gate {
            q_m: signed(tr.minus, tr.coeff as int) as i128,
            a: wire_of(t, tr.lvar@),
            b: wire_of(t, tr.rvar@),
            ..g0
        },
        None => g0,
    };
    if let Some(tr) = e.tri {
        assert(wn[0] == tr.lvar@);
        assert(wn[1] == tr.rvar@);
        assert(t[index_of(t, wn[0])].role is Witness);
        assert(t[index_of(t, wn[1])].role is Witness);
        lemma_named(t, tr.lvar@);
        lemma_named(t, tr.rvar@);
    }
    assert forall|j: int| 0 <= j < e.bis.len() implies binds_witness(t, wire_of(t, #[trigger] e.bis[j].var@)) by {
        assert(wn[tw.len() + j] == e.bis[j].var@);
        assert(t[index_of(t, wn[tw.len() + j])].role is Witness);
        lemma_named(t, e.bis[j].var@);
    }
    lemma_place_keeps_witness_wires(g1, e.tri, e.bis, t);
}

/// `c`, negated when `minus` is set, as a selector.
fn signed_selector(minus: bool, c: u64) -> (r: i128)
    ensures
        r == signed(minus, c as int),
{
    if minus {
        -(c as i128)
    } else {
        c as i128
    }
}

/// The position of the entry named `n`, which the table holds.
fn index_in(t: &Vec<Var>, n: &String) -> (r: usize)
    requires
        sorted(t@),
        names_of(t@).contains(n@),
    ensures
        r < t@.len(),
        r == index_of(t@, n@),
        Some(r) == wire_of(t@, n@),
{
    match find_var(t, n) {
        Some(i) => i,
        None => {
            proof {
                assert(false);
            }
            0
        },
    }
}

/// Lowers one equation to its gate.
pub fn gate_of(e: &PlangExpr, t: &Vec<Var>) -> (r: Gate)
    requires
        sorted(t@),
        names_in(e@, t@),
    ensures
        r == lower_expr(e@, t@),
{
    proof {
        lemma_names_in(e@, t@);
    }
    let mut g = Gate {
        q_m: 0,
        q_l: 0,
        q_r: 0,
        q_o: 0,
        q_c: 0,
        public: false,
        a: None,
        b: None,
        o: None,
    };
    if let Some(p) = &e.public {
        let i = index_in(t, &p.var);
        let v = t[i].role.value();
        g.q_c = -signed_selector(p.minus, v);
        g.public = true;
        assert(v == value_of(t@, p.var@));
    }
    if let Some(tr) = &e.tri {
        g.q_m = signed_selector(tr.minus, tr.coeff);
        g.a = Some(index_in(t, &tr.lvar));
        g.b = Some(index_in(t, &tr.rvar));
    }
    let ghost g1 = g;
    let mut k: usize = 0;
    while k < e.bis.len()
        invariant
            sorted(t@),
            k <= e.bis@.len(),
            forall|j: int| 0 <= j < e@.bis.len() ==> names_of(t@).contains(#[trigger] e@.bis[j].var@),
            g1 == lower_expr(ExprModel { bis: Seq::empty(), ..e@ }, t@),
            g == place_bis(g1, e.tri, e.bis@.take(k as int), t@),
        decreases e.bis.len() - k,
    {
        let b = &e.bis[k];
        assert(names_of(t@).contains(e@.bis[k as int].var@));
        let s = signed_selector(b.minus, b.coeff);
        assert(e.bis@.take(k + 1).drop_last() =~= e.bis@.take(k as int));
        match &e.tri {
            Some(tr) => {
                if b.var == tr.lvar {
                    g.q_l = s;
                } else if b.var == tr.rvar {
                    g.q_r = s;
                } else {
                    g.q_o = s;
                    g.o = Some(index_in(t, &b.var));
                }
            },
            None => {
                if k == 0 {
                    g.q_l = s;
                    g.a = Some(index_in(t, &b.var));
                } else if k == 1 {
                    g.q_r = s;
                    g.b = Some(index_in(t, &b.var));
                } else {
                    g.q_o = s;
                    g.o = Some(index_in(t, &b.var));
                }
            },
        }
        k = k + 1;
    }
    assert(e.bis@.take(k as int) =~= e.bis@);
    g
}

} // verus!

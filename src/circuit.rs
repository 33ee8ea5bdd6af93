use vstd::arithmetic::power2::pow2;
use vstd::bits::{lemma_usize_pow2_no_overflow, lemma_usize_shl_is_mul};
use vstd::prelude::*;

use crate::error::Error;
use crate::expr::{scan_all, ExprModel, PlangExpr};
use crate::gate::{
    fits_gate, gate_eval, gate_of, lemma_gate_encodes_equation, lemma_gate_wires_are_witnesses, lhs,
    lower_expr, names_in, outsider, rhs, wires_bind_witnesses, Gate,
};
use crate::grammar::{PlangGrammar, PlangNode};
use crate::rules::{
    bis_distinct, check_all, check_exprs, expr_views, few_vars, name_seq, public_singular,
    tri_distinct, wire_names,
};
use crate::vars::{
    derived_from, find_var, index_of, names_of, public_refs, publics_of, referenced, sorted,
    vars_from_exprs, Var, WitnessOrPublic,
};

verus! {

/// The equations of a parse, validated; or the first error met.
pub open spec fn build(eqs: Seq<Vec<PlangNode>>) -> Result<Seq<ExprModel>, Error> {
    match scan_all(eqs) {
        Err(e) => Err(e),
        Ok(xs) => match check_exprs(xs) {
            Err(e) => Err(e),
            Ok(_) => Ok(xs),
        },
    }
}

/// The equation keeps the rules that construction enforces.
pub open spec fn valid_expr(e: ExprModel) -> bool {
    &&& tri_distinct(e)
    &&& few_vars(e)
    &&& bis_distinct(e)
    &&& public_singular(e)
}

/// `role` holding `v` in place of its value.
pub open spec fn with_value(role: WitnessOrPublic, v: u64) -> WitnessOrPublic {
    match role {
        WitnessOrPublic::Witness(_) => WitnessOrPublic::Witness(v),
        WitnessOrPublic::PublicInput(_) => WitnessOrPublic::PublicInput(v),
    }
}

/// The value the last update naming `n` gives, or `v` when none names it.
pub open spec fn last_value(ups: Seq<(String, u64)>, n: Seq<char>, v: u64) -> u64
    decreases ups.len(),
{
    if ups.len() == 0 {
        v
    } else if ups.last().0@ == n {
        ups.last().1
    } else {
        last_value(ups.drop_last(), n, v)
    }
}

/// Some update names `n`.
pub open spec fn mentions(ups: Seq<(String, u64)>, n: Seq<char>) -> bool {
    exists|k: int| 0 <= k < ups.len() && #[trigger] ups[k].0@ == n
}

/// The table after the updates `ups`, applied in order: each entry keeps its
/// name and role and takes the value of the last update naming it.
pub open spec fn updated(t: Seq<Var>, ups: Seq<(String, u64)>) -> Seq<Var> {
    Seq::new(
        t.len(),
        |i: int|
            Var {
                name: t[i].name,
                role: with_value(t[i].role, last_value(ups, t[i].name@, t[i].role.value_spec())),
            },
    )
}

/// The values of the public inputs of a table, in table order.
pub open spec fn public_values(t: Seq<Var>) -> Seq<u64>
    decreases t.len(),
{
    if t.len() == 0 {
        Seq::empty()
    } else {
        public_values(t.drop_last()) + match t.last().role {
            WitnessOrPublic::PublicInput(v) => seq![v],
            WitnessOrPublic::Witness(_) => Seq::empty(),
        }
    }
}

/// The public-input entries of a table, in table order.
pub open spec fn public_entries(t: Seq<Var>) -> Seq<Var>
    decreases t.len(),
{
    if t.len() == 0 {
        Seq::empty()
    } else {
        public_entries(t.drop_last()) + if t.last().role is PublicInput {
            seq![t.last()]
        } else {
            Seq::empty()
        }
    }
}

/// A plonk circuit: its equations, in emission order, and the table of its
/// variables, sorted by name.
#[derive(Debug)]
pub struct PlangCircuit {
    exprs: Vec<PlangExpr>,
    vars: Vec<Var>,
}

impl PlangCircuit {
    /// The equations.
    pub closed spec fn equations(&self) -> Seq<ExprModel> {
        expr_views(self.exprs@)
    }

    /// The variable table.
    pub closed spec fn table(&self) -> Seq<Var> {
        self.vars@
    }

    /// The table is the one the equations determine, up to its values.
    pub open spec fn wf(&self) -> bool {
        &&& forall|i: int| 0 <= i < self.equations().len() ==> valid_expr(#[trigger] self.equations()[i])
        &&& derived_from(self.table(), self.equations())
        &&& self.table().len() <= usize::MAX
    }

    /// Every equation fits one gate, and no variable that some equation takes
    /// as its public input sits on a wire of any equation.
    pub open spec fn lowerable(&self) -> bool {
        forall|i: int|
            0 <= i < self.equations().len() ==> {
                &&& fits_gate(#[trigger] self.equations()[i])
                &&& forall|k: int|
                    0 <= k < wire_names(self.equations()[i]).len() ==> !public_refs(
                        self.equations(),
                    ).contains(#[trigger] wire_names(self.equations()[i])[k])
            }
    }

    /// The gates of the circuit, one per equation, in order.
    pub open spec fn lowered(&self) -> Seq<Gate> {
        Seq::new(self.equations().len(), |i: int| lower_expr(self.equations()[i], self.table()))
    }

    /// Builds a circuit from the parsed equations: each equation's nodes are
    /// gathered into an equation, the equations are validated, and the table of
    /// their variables is derived with every value zero.
    pub fn from_grammar(grammar: PlangGrammar) -> (r: Result<PlangCircuit, Error>)
        ensures
            match build(grammar.pairs_spec()) {
                Ok(xs) => r is Ok && r->Ok_0.wf() && r->Ok_0.equations() == xs && forall|i: int|
                    0 <= i < r->Ok_0.table().len() ==> (#[trigger] r->Ok_0.table()[i]).role.value_spec()
                        == 0,
                Err(e) => r == Err::<PlangCircuit, Error>(e),
            },
    {
        let pairs = grammar.pairs();
        let ghost eqs = pairs@;
        let mut exprs: Vec<PlangExpr> = Vec::new();
        let mut i: usize = 0;
        assert(eqs.take(0) =~= Seq::<Vec<PlangNode>>::empty());
        assert(expr_views(exprs@) =~= Seq::<ExprModel>::empty());
        while i < pairs.len()
            invariant
                eqs == pairs@,
                eqs == grammar.pairs_spec(),
                i <= eqs.len(),
                scan_all(eqs.take(i as int)) == Ok::<Seq<ExprModel>, Error>(expr_views(exprs@)),
            decreases pairs.len() - i,
        {
            assert(eqs.take(i + 1).drop_last() =~= eqs.take(i as int));
            match PlangExpr::from_nodes(&pairs[i]) {
                Ok(x) => {
                    let ghost before = exprs@;
                    exprs.push(x);
                    assert(expr_views(exprs@) =~= expr_views(before).push(x@));
                },
                Err(e) => {
                    proof {
                        lemma_scan_all_err(eqs, i + 1);
                    }
                    return Err(e);
                },
            }
            i = i + 1;
        }
        assert(eqs.take(i as int) =~= eqs);
        let checked = check_all(&exprs);
        if let Err(e) = checked {
            return Err(e);
        }
        let vars = vars_from_exprs(&exprs);
        // The table is a vector, so its length fits in usize.
        let n: usize = vars.len();
        assert(vars@.len() == n);
        Ok(PlangCircuit { exprs, vars })
    }

    /// Sets the values of the named variables, in order; a variable keeps its
    /// role, and one that is not named keeps its value. When some name is not
    /// in the circuit, nothing is set and the first such name is reported with
    /// `NoSuchValue`.
    pub fn set_vals(&mut self, vals: Vec<(String, u64)>) -> (r: Result<(), Error>)
        requires
            old(self).wf(),
        ensures
            final(self).wf(),
            final(self).equations() == old(self).equations(),
            r is Ok <==> forall|k: int|
                0 <= k < vals@.len() ==> names_of(old(self).table()).contains(#[trigger] vals@[k].0@),
            r is Ok ==> final(self).table() == updated(old(self).table(), vals@),
            r is Err ==> final(self).table() == old(self).table(),
            r is Err ==> exists|k: int|
                0 <= k < vals@.len() && !names_of(old(self).table()).contains(#[trigger] vals@[k].0@)
                    && (forall|j: int|
                    0 <= j < k ==> names_of(old(self).table()).contains(#[trigger] vals@[j].0@))
                    && r == Err::<(), Error>(Error::NoSuchValue(vals@[k].0)),
    {
        let ghost t0 = self.vars@;
        let mut i: usize = 0;
        while i < vals.len()
            invariant
                i <= vals@.len(),
                old(self).wf(),
                t0 == old(self).table(),
                self.exprs == old(self).exprs,
                self.vars@ == t0,
                forall|j: int| 0 <= j < i ==> names_of(t0).contains(#[trigger] vals@[j].0@),
            decreases vals.len() - i,
        {
            if find_var(&self.vars, &vals[i].0).is_none() {
                return Err(Error::NoSuchValue(vals[i].0.clone()));
            }
            i = i + 1;
        }
        i = 0;
        proof {
            lemma_updated_empty(t0, vals@.take(0));
        }
        while i < vals.len()
            invariant
                i <= vals@.len(),
                old(self).wf(),
                t0 == old(self).table(),
                self.exprs == old(self).exprs,
                self.vars@ == updated(t0, vals@.take(i as int)),
                forall|j: int| 0 <= j < vals@.len() ==> names_of(t0).contains(#[trigger] vals@[j].0@),
            decreases vals.len() - i,
        {
            proof {
                lemma_updated_keeps(t0, vals@.take(i as int));
            }
            // Every name was found above, and updates keep the names.
            if let Some(idx) = find_var(&self.vars, &vals[i].0) {
                let name = self.vars[idx].name.clone();
                let role = self.vars[idx].role.with_value(vals[i].1);
                self.vars.set(idx, Var { name, role });
                proof {
                    lemma_updated_step(t0, vals@, i as int, idx as int);
                }
            } else {
                proof {
                    assert(names_of(t0).contains(vals@[i as int].0@));
                }
            }
            i = i + 1;
        }
        assert(vals@.take(i as int) =~= vals@);
        proof {
            lemma_updated_keeps(t0, vals@);
        }
        Ok(())
    }

    /// The number of equations.
    pub fn expr_count(&self) -> (r: usize)
        ensures
            r == self.equations().len(),
    {
        self.exprs.len()
    }

    /// The number of variables.
    pub fn var_count(&self) -> (r: usize)
        ensures
            r == self.table().len(),
    {
        self.vars.len()
    }

    /// The name and role of the variable at position `i` of the table.
    pub fn var_at(&self, i: usize) -> (r: (&String, WitnessOrPublic))
        requires
            i < self.table().len(),
        ensures
            *r.0 == self.table()[i as int].name,
            r.1 == self.table()[i as int].role,
    {
        (&self.vars[i].name, self.vars[i].role)
    }

    /// The role and value of the variable named `name`.
    pub fn var(&self, name: &String) -> (r: Option<WitnessOrPublic>)
        requires
            self.wf(),
        ensures
            r is Some <==> names_of(self.table()).contains(name@),
            r matches Some(role) ==> role == self.table()[index_of(self.table(), name@)].role,
    {
        match find_var(&self.vars, name) {
            Some(i) => Some(self.vars[i].role),
            None => None,
        }
    }

    /// The gates of the circuit: one per equation, in equation order.
    pub fn gadget(&self) -> (r: Vec<Gate>)
        requires
            self.wf(),
            self.lowerable(),
        ensures
            r@ == self.lowered(),
            r@.len() == self.equations().len(),
            forall|i: int| 0 <= i < r@.len() ==> wires_bind_witnesses(#[trigger] r@[i], self.table()),
    {
        let mut gates: Vec<Gate> = Vec::new();
        let mut i: usize = 0;
        while i < self.exprs.len()
            invariant
                self.wf(),
                self.lowerable(),
                i <= self.equations().len(),
                gates@ == self.lowered().take(i as int),
                forall|j: int| 0 <= j < i ==> wires_bind_witnesses(#[trigger] gates@[j], self.table()),
            decreases self.exprs.len() - i,
        {
            proof {
                self.lemma_names_in(i as int);
                self.lemma_wires_witness(i as int);
            }
            assert(self.equations()[i as int] == self.exprs@[i as int]@);
            let g = gate_of(&self.exprs[i], &self.vars);
            gates.push(g);
            assert(gates@ =~= self.lowered().take(i + 1));
            i = i + 1;
        }
        assert(gates@ =~= self.lowered());
        gates
    }

    /// The values of the public inputs, sorted by variable name.
    pub fn public_inputs(&self) -> (r: Vec<u64>)
        ensures
            r@ == public_values(self.table()),
    {
        let mut r: Vec<u64> = Vec::new();
        let mut i: usize = 0;
        assert(self.vars@.take(0) =~= Seq::<Var>::empty());
        while i < self.vars.len()
            invariant
                i <= self.vars@.len(),
                r@ == public_values(self.vars@.take(i as int)),
            decreases self.vars.len() - i,
        {
            assert(self.vars@.take(i + 1).drop_last() =~= self.vars@.take(i as int));
            match self.vars[i].role {
                WitnessOrPublic::PublicInput(v) => {
                    r.push(v);
                    assert(r@ =~= public_values(self.vars@.take(i + 1)));
                },
                WitnessOrPublic::Witness(_) => {
                    assert(r@ =~= public_values(self.vars@.take(i + 1)));
                },
            }
            i = i + 1;
        }
        assert(self.vars@.take(i as int) =~= self.vars@);
        r
    }

    /// The capacity in gates that the proving backend is sized for: `2^(n + 1)` for `n`
    /// equations.
    pub fn padded_gates(&self) -> (r: usize)
        requires
            self.equations().len() + 1 < usize::BITS,
        ensures
            r == pow2((self.equations().len() + 1) as nat),
    {
        let n: usize = self.exprs.len();
        assert(self.equations().len() == n);
        let k: usize = n + 1;
        proof {
            lemma_usize_pow2_no_overflow(k as nat);
            lemma_usize_shl_is_mul(1, k);
        }
        1usize << k
    }

    /// In a lowerable circuit, every wire of a gate binds a witness entry.
    pub proof fn lemma_wires_witness(&self, i: int)
        requires
            self.wf(),
            self.lowerable(),
            0 <= i < self.equations().len(),
        ensures
            wires_bind_witnesses(self.lowered()[i], self.table()),
    {
        let t = self.table();
        let e = self.equations()[i];
        self.lemma_names_in(i);
        assert forall|k: int| 0 <= k < wire_names(e).len() implies (#[trigger] t[index_of(
            t,
            wire_names(e)[k],
        )]).role is Witness by {
            let n = wire_names(e)[k];
            assert(name_seq(e) == (match e.public {
                Some(p) => seq![p.var@],
                None => Seq::<Seq<char>>::empty(),
            }) + wire_names(e));
            let off: int = if e.public is Some { 1 } else { 0 };
            assert(name_seq(e)[off + k] == n);
            assert(names_of(t).contains(n));
            let j = choose|j: int| 0 <= j < t.len() && #[trigger] t[j].name@ == n;
            assert(t[j].name@ == n);
            let x = index_of(t, n);
            assert(0 <= x < t.len() && t[x].name@ == n);
            assert(!public_refs(self.equations()).contains(n));
            if t[x].role is PublicInput {
                assert(publics_of(t).contains(n));
            }
        }
        lemma_gate_wires_are_witnesses(e, t);
    }

    /// Every name of an equation has an entry in the table.
    pub proof fn lemma_names_in(&self, i: int)
        requires
            self.wf(),
            0 <= i < self.equations().len(),
        ensures
            names_in(self.equations()[i], self.table()),
    {
        let xs = self.equations();
        let e = xs[i];
        assert forall|k: int| 0 <= k < name_seq(e).len() implies names_of(self.table()).contains(
            #[trigger] name_seq(e)[k],
        ) by {
            assert(name_seq(xs[i]).contains(name_seq(e)[k]));
            assert(referenced(xs).contains(name_seq(e)[k]));
        }
    }

    /// Whether every equation fits one gate and no public input sits on a wire.
    pub fn is_lowerable(&self) -> (r: bool)
        requires
            self.wf(),
        ensures
            r == self.lowerable(),
    {
        let mut i: usize = 0;
        while i < self.exprs.len()
            invariant
                self.wf(),
                i <= self.equations().len(),
                forall|j: int| 0 <= j < i ==> {
                    &&& fits_gate(#[trigger] self.equations()[j])
                    &&& forall|k: int|
                        0 <= k < wire_names(self.equations()[j]).len() ==> !public_refs(
                            self.equations(),
                        ).contains(#[trigger] wire_names(self.equations()[j])[k])
                },
            decreases self.exprs.len() - i,
        {
            let e = &self.exprs[i];
            assert(self.equations()[i as int] == e@);
            proof {
                self.lemma_names_in(i as int);
            }
            if !fits(e) {
                return false;
            }
            if !self.wires_are_witnesses(e) {
                return false;
            }
            i = i + 1;
        }
        true
    }

    /// No wire variable of `e` is a public input of the table.
    fn wires_are_witnesses(&self, e: &PlangExpr) -> (r: bool)
        requires
            self.wf(),
            names_in(e@, self.table()),
        ensures
            r == forall|k: int|
                0 <= k < wire_names(e@).len() ==> !public_refs(self.equations()).contains(
                    #[trigger] wire_names(e@)[k],
                ),
    {
        let names = crate::rules::expr_names(e);
        let start: usize = if e.public.is_some() {
            1
        } else {
            0
        };
        assert(crate::rules::views(names@) =~= name_seq(e@));
        assert(crate::rules::views(names@).len() == names@.len());
        assert forall|a: int| 0 <= a < wire_names(e@).len() implies #[trigger] wire_names(e@)[a]
            == names@[start + a]@ by {
            assert(name_seq(e@)[start + a] == wire_names(e@)[a]);
            assert(crate::rules::views(names@)[start + a] == names@[start + a]@);
        }
        let mut k: usize = start;
        while k < names.len()
            invariant
                self.wf(),
                names_in(e@, self.table()),
                crate::rules::views(names@) == name_seq(e@),
                start <= k <= names@.len(),
                start as int + wire_names(e@).len() == names@.len(),
                forall|a: int| 0 <= a < wire_names(e@).len() ==> #[trigger] wire_names(e@)[a] == names@[start + a]@,
                forall|a: int| start <= a < k ==> !public_refs(self.equations()).contains(#[trigger] names@[a]@),
            decreases names.len() - k,
        {
            assert(names_of(self.table()).contains(name_seq(e@)[k as int]));
            assert(crate::rules::views(names@)[k as int] == names@[k as int]@);
            match find_var(&self.vars, &names[k]) {
                None => {
                    return false;
                },
                Some(idx) => {
                    if let WitnessOrPublic::PublicInput(_) = self.vars[idx].role {
                        assert(publics_of(self.table()).contains(names@[k as int]@));
                        assert(wire_names(e@)[k - start] == names@[k as int]@);
                        return false;
                    }
                    proof {
                        if publics_of(self.table()).contains(names@[k as int]@) {
                            let j = choose|j: int|
                                0 <= j < self.table().len() && #[trigger] self.table()[j].name@
                                    == names@[k as int]@ && self.table()[j].role is PublicInput;
                            crate::vars::lemma_sorted_unique(self.table(), j, idx as int);
                        }
                    }
                },
            }
            k = k + 1;
        }
        assert forall|a: int| 0 <= a < wire_names(e@).len() implies !public_refs(
            self.equations(),
        ).contains(#[trigger] wire_names(e@)[a]) by {
            assert(wire_names(e@)[a] == names@[start + a]@);
        }
        true
    }
}

/// Whether `e` fits one gate.
fn fits(e: &PlangExpr) -> (r: bool)
    ensures
        r == fits_gate(e@),
{
    match &e.tri {
        None => e.bis.len() <= 3,
        Some(tr) => {
            let mut seen = false;
            let mut k: usize = 0;
            while k < e.bis.len()
                invariant
                    k <= e.bis@.len(),
                    e.tri == Some(*tr),
                    seen <==> exists|a: int| 0 <= a < k && outsider(#[trigger] e.bis@[a], *tr),
                    forall|a: int, b: int|
                        0 <= a < b < k ==> !(outsider(#[trigger] e.bis@[a], *tr) && outsider(
                            #[trigger] e.bis@[b],
                            *tr,
                        )),
                decreases e.bis.len() - k,
            {
                let b = &e.bis[k];
                if b.var != tr.lvar && b.var != tr.rvar {
                    if seen {
                        proof {
                            let a = choose|a: int| 0 <= a < k && outsider(#[trigger] e.bis@[a], *tr);
                            assert(outsider(e.bis@[k as int], *tr));
                            assert(e@.bis[a] == e.bis@[a]);
                            assert(e@.bis[k as int] == e.bis@[k as int]);
                        }
                        return false;
                    }
                    seen = true;
                }
                k = k + 1;
            }
            true
        },
    }
}

/// Once a prefix of the equations fails, the whole parse fails the same way.
proof fn lemma_scan_all_err(eqs: Seq<Vec<PlangNode>>, i: int)
    requires
        0 <= i <= eqs.len(),
        scan_all(eqs.take(i)) is Err,
    ensures
        scan_all(eqs) == scan_all(eqs.take(i)),
    decreases eqs.len() - i,
{
    if i < eqs.len() {
        assert(eqs.take(i + 1).drop_last() =~= eqs.take(i));
        lemma_scan_all_err(eqs, i + 1);
    } else {
        assert(eqs.take(i) =~= eqs);
    }
}

proof fn lemma_updated_empty(t: Seq<Var>, ups: Seq<(String, u64)>)
    requires
        ups.len() == 0,
    ensures
        updated(t, ups) == t,
{
    assert forall|i: int| 0 <= i < t.len() implies #[trigger] updated(t, ups)[i] == t[i] by {
        match t[i].role {
            WitnessOrPublic::Witness(_) => {},
            WitnessOrPublic::PublicInput(_) => {},
        }
    }
    assert(updated(t, ups) =~= t);
}

/// Updates keep the names and roles of a table, hence its order and the sets
/// its names and public inputs make.
proof fn lemma_updated_keeps(t: Seq<Var>, ups: Seq<(String, u64)>)
    ensures
        updated(t, ups).len() == t.len(),
        forall|i: int| 0 <= i < t.len() ==> (#[trigger] updated(t, ups)[i]).name == t[i].name,
        forall|i: int|
            0 <= i < t.len() ==> ((#[trigger] updated(t, ups)[i]).role is PublicInput <==> t[i].role is PublicInput),
        sorted(t) ==> sorted(updated(t, ups)),
        names_of(updated(t, ups)) == names_of(t),
        publics_of(updated(t, ups)) == publics_of(t),
{
    let u = updated(t, ups);
    assert forall|i: int| 0 <= i < t.len() implies (#[trigger] u[i]).name == t[i].name && (u[i].role is PublicInput <==> t[i].role is PublicInput) by {}
    assert(names_of(u) =~= names_of(t)) by {
        assert forall|n: Seq<char>| names_of(t).contains(n) implies names_of(u).contains(n) by {
            let i = choose|i: int| 0 <= i < t.len() && #[trigger] t[i].name@ == n;
            assert(u[i].name@ == n);
        }
        assert forall|n: Seq<char>| names_of(u).contains(n) implies names_of(t).contains(n) by {
            let i = choose|i: int| 0 <= i < u.len() && #[trigger] u[i].name@ == n;
            assert(t[i].name@ == n);
        }
    }
    assert(publics_of(u) =~= publics_of(t)) by {
        assert forall|n: Seq<char>| publics_of(t).contains(n) implies publics_of(u).contains(n) by {
            let i = choose|i: int| 0 <= i < t.len() && #[trigger] t[i].name@ == n && t[i].role is PublicInput;
            assert(u[i].name@ == n);
        }
        assert forall|n: Seq<char>| publics_of(u).contains(n) implies publics_of(t).contains(n) by {
            let i = choose|i: int| 0 <= i < u.len() && #[trigger] u[i].name@ == n && u[i].role is PublicInput;
            assert(t[i].name@ == n);
        }
    }
    if sorted(t) {
        assert forall|i: int, j: int| 0 <= i < j < u.len() implies crate::vars::name_lt(
            #[trigger] u[i].name@,
            #[trigger] u[j].name@,
        ) by {
            assert(crate::vars::name_lt(t[i].name@, t[j].name@));
        }
    }
}

/// Applying one more update, which names the entry at `idx`, changes that
/// entry's value alone.
proof fn lemma_updated_step(t: Seq<Var>, ups: Seq<(String, u64)>, i: int, idx: int)
    requires
        sorted(t),
        0 <= i < ups.len(),
        0 <= idx < t.len(),
        t[idx].name@ == ups[i].0@,
    ensures
        updated(t, ups.take(i + 1)) == updated(t, ups.take(i)).update(
            idx,
            Var {
                name: updated(t, ups.take(i))[idx].name,
                role: with_value(updated(t, ups.take(i))[idx].role, ups[i].1),
            },
        ),
{
    let a = ups.take(i);
    let b = ups.take(i + 1);
    assert(b.drop_last() =~= a);
    assert(b.last() == ups[i]);
    let lhs = updated(t, b);
    let rhs = updated(t, a).update(
        idx,
        Var { name: updated(t, a)[idx].name, role: with_value(updated(t, a)[idx].role, ups[i].1) },
    );
    assert forall|j: int| 0 <= j < t.len() implies #[trigger] lhs[j] == rhs[j] by {
        if j == idx {
            match t[j].role {
                WitnessOrPublic::Witness(_) => {},
                WitnessOrPublic::PublicInput(_) => {},
            }
        } else {
            if t[j].name@ == ups[i].0@ {
                crate::vars::lemma_sorted_unique(t, j, idx);
            }
        }
    }
    assert(lhs =~= rhs);
}

/// A quadratic term that multiplies a variable by itself is rejected with
/// `SameTriVars`, whichever equation of the list holds it, once every equation
/// has been read.
pub proof fn lemma_same_tri_vars_rejected(eqs: Seq<Vec<PlangNode>>, i: int)
    requires
        scan_all(eqs) is Ok,
        0 <= i < scan_all(eqs)->Ok_0.len(),
        !tri_distinct(scan_all(eqs)->Ok_0[i]),
    ensures
        build(eqs) == Err::<Seq<ExprModel>, Error>(Error::SameTriVars),
{
}

/// Each gate of a circuit encodes its equation: under the table's values, the
/// gate's left side equals the equation's left side minus its right side, so
/// each gate holds exactly when the equation does.
pub proof fn lemma_gates_encode_equations(c: &PlangCircuit, i: int)
    requires
        c.wf(),
        c.lowerable(),
        0 <= i < c.equations().len(),
    ensures
        gate_eval(c.lowered()[i], c.table()) == lhs(c.equations()[i], c.table()) - rhs(
            c.equations()[i],
            c.table(),
        ),
{
    c.lemma_names_in(i);
    assert(valid_expr(c.equations()[i]));
    assert(fits_gate(c.equations()[i]));
    lemma_gate_encodes_equation(c.equations()[i], c.table());
}

/// `x` is a public-input entry of `t`.
pub open spec fn public_entry_of(t: Seq<Var>, x: Var) -> bool {
    exists|i: int| 0 <= i < t.len() && t[i] == x && t[i].role is PublicInput
}

proof fn lemma_public_entries(t: Seq<Var>)
    ensures
        public_values(t) == public_entries(t).map_values(|v: Var| v.role.value_spec()),
        forall|k: int|
            0 <= k < public_entries(t).len() ==> public_entry_of(t, #[trigger] public_entries(t)[k]),
        forall|i: int|
            0 <= i < t.len() && (#[trigger] t[i]).role is PublicInput ==> public_entries(t).contains(t[i]),
        sorted(t) ==> sorted(public_entries(t)),
    decreases t.len(),
{
    if t.len() > 0 {
        let s = t.drop_last();
        lemma_public_entries(s);
        let pe = public_entries(t);
        let ps = public_entries(s);
        assert(public_values(t) =~= pe.map_values(|v: Var| v.role.value_spec()));
        assert forall|k: int| 0 <= k < pe.len() implies public_entry_of(t, #[trigger] pe[k]) by {
            if k < ps.len() {
                assert(pe[k] == ps[k]);
                assert(public_entry_of(s, ps[k]));
                let i = choose|i: int| 0 <= i < s.len() && s[i] == ps[k] && s[i].role is PublicInput;
                assert(t[i] == s[i]);
                assert(t[i] == pe[k] && t[i].role is PublicInput);
            } else {
                assert(t.last().role is PublicInput);
                let i = t.len() - 1;
                assert(t[i] == pe[k] && t[i].role is PublicInput);
            }
        }
        assert forall|i: int| 0 <= i < t.len() && (#[trigger] t[i]).role is PublicInput implies pe.contains(t[i]) by {
            if i < s.len() {
                assert(s[i] == t[i]);
                let k = choose|k: int| 0 <= k < ps.len() && ps[k] == s[i];
                assert(pe[k] == ps[k]);
            } else {
                assert(pe[pe.len() - 1] == t[i]);
            }
        }
        if sorted(t) {
            assert(sorted(s));
            assert forall|a: int, b: int| 0 <= a < b < pe.len() implies crate::vars::name_lt(
                #[trigger] pe[a].name@,
                #[trigger] pe[b].name@,
            ) by {
                assert(pe[a] == ps[a]);
                if b < ps.len() {
                    assert(pe[b] == ps[b]);
                } else {
                    assert(public_entry_of(s, ps[a]));
                    let i = choose|i: int| 0 <= i < s.len() && s[i] == ps[a] && s[i].role is PublicInput;
                    assert(pe[b] == t[t.len() - 1]);
                    assert(t[i] == s[i]);
                }
            }
        }
    }
}

/// The public inputs come out in name order, each public input of the circuit
/// exactly once: the values are those of the table's public entries, whose
/// names strictly increase and are exactly the names some equation takes as
/// its public input.
pub proof fn lemma_public_inputs_sorted(c: &PlangCircuit)
    requires
        c.wf(),
    ensures
        public_values(c.table()) == public_entries(c.table()).map_values(|v: Var| v.role.value_spec()),
        sorted(public_entries(c.table())),
        forall|n: Seq<char>|
            public_refs(c.equations()).contains(n) <==> exists|k: int|
                0 <= k < public_entries(c.table()).len() && #[trigger] public_entries(c.table())[k].name@ == n,
{
    let t = c.table();
    let pe = public_entries(t);
    lemma_public_entries(t);
    assert forall|n: Seq<char>| public_refs(c.equations()).contains(n) implies exists|k: int|
        0 <= k < pe.len() && #[trigger] pe[k].name@ == n by {
        assert(publics_of(t).contains(n));
        let i = choose|i: int| 0 <= i < t.len() && #[trigger] t[i].name@ == n && t[i].role is PublicInput;
        assert(pe.contains(t[i]));
        let k = choose|k: int| 0 <= k < pe.len() && pe[k] == t[i];
        assert(pe[k].name@ == n);
    }
    assert forall|n: Seq<char>| (exists|k: int| 0 <= k < pe.len() && #[trigger] pe[k].name@ == n) implies public_refs(
        c.equations(),
    ).contains(n) by {
        let k = choose|k: int| 0 <= k < pe.len() && #[trigger] pe[k].name@ == n;
        assert(public_entry_of(t, pe[k]));
        let i = choose|i: int| 0 <= i < t.len() && t[i] == pe[k] && t[i].role is PublicInput;
        assert(t[i].name@ == n);
        assert(publics_of(t).contains(n));
    }
}

/// The value an update list gives `n`: that of the last update naming it.
pub open spec fn latest(ups: Seq<(String, u64)>, n: Seq<char>) -> u64 {
    last_value(ups, n, 0)
}

proof fn lemma_last_value(ups: Seq<(String, u64)>, n: Seq<char>, v: u64)
    ensures
        mentions(ups, n) ==> last_value(ups, n, v) == latest(ups, n),
        !mentions(ups, n) ==> last_value(ups, n, v) == v,
    decreases ups.len(),
{
    if ups.len() > 0 {
        let s = ups.drop_last();
        lemma_last_value(s, n, v);
        lemma_last_value(s, n, 0);
        if ups.last().0@ != n {
            if mentions(ups, n) {
                let k = choose|k: int| 0 <= k < ups.len() && #[trigger] ups[k].0@ == n;
                assert(s[k].0@ == n);
            }
            if mentions(s, n) {
                let k = choose|k: int| 0 <= k < s.len() && #[trigger] s[k].0@ == n;
                assert(ups[k].0@ == n);
            }
        } else {
            assert(ups[ups.len() - 1].0@ == n);
        }
    }
}

/// Supplying values twice: each variable ends with the value of the last update
/// naming it in the second list, or else with the value the first list left;
/// no variable changes its name or its role.
pub proof fn lemma_set_vals_twice(t: Seq<Var>, u1: Seq<(String, u64)>, u2: Seq<(String, u64)>)
    ensures
        updated(updated(t, u1), u2).len() == t.len(),
        forall|i: int|
            0 <= i < t.len() ==> {
                let v = #[trigger] updated(updated(t, u1), u2)[i];
                &&& v.name == t[i].name
                &&& (v.role is PublicInput <==> t[i].role is PublicInput)
                &&& mentions(u2, t[i].name@) ==> v.role.value_spec() == latest(u2, t[i].name@)
                &&& !mentions(u2, t[i].name@) ==> v.role.value_spec() == updated(t, u1)[i].role.value_spec()
            },
{
    let t1 = updated(t, u1);
    let t2 = updated(t1, u2);
    assert forall|i: int| 0 <= i < t.len() implies {
        let v = #[trigger] t2[i];
        &&& v.name == t[i].name
        &&& (v.role is PublicInput <==> t[i].role is PublicInput)
        &&& mentions(u2, t[i].name@) ==> v.role.value_spec() == latest(u2, t[i].name@)
        &&& !mentions(u2, t[i].name@) ==> v.role.value_spec() == t1[i].role.value_spec()
    } by {
        lemma_last_value(u2, t[i].name@, t1[i].role.value_spec());
        match t[i].role {
            WitnessOrPublic::Witness(_) => {},
            WitnessOrPublic::PublicInput(_) => {},
        }
    }
}

/// Lowering reads nothing but the equations and the table: lowering a circuit
/// twice with no change of values between, or lowering two circuits with the
/// same equations and values, gives the same gates, selector for selector.
pub proof fn lemma_lowering_is_deterministic(c1: &PlangCircuit, c2: &PlangCircuit)
    requires
        c1.equations() == c2.equations(),
        c1.table() == c2.table(),
    ensures
        c1.lowered() == c2.lowered(),
{
}

/// Every list of equations lowers to one gate per equation, in equation order:
/// there are as many gates as equations, and gate `i` is the one of the
/// `i`-th equation (`gadget` returns exactly these gates, and `padded_gates`
/// sizes them as `2^(n + 1)`).
pub proof fn lemma_one_gate_per_equation(c: &PlangCircuit)
    ensures
        c.lowered().len() == c.equations().len(),
        forall|i: int|
            0 <= i < c.equations().len() ==> #[trigger] c.lowered()[i] == lower_expr(
                c.equations()[i],
                c.table(),
            ),
{
}

} // verus!

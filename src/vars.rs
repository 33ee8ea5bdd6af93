use vstd::prelude::*;

use crate::expr::{ExprModel, PlangExpr};
use crate::rules::{expr_names, expr_views, name_seq, views};

verus! {

/// The role of a variable, with its current value.
#[derive(Debug, Clone, Copy, PartialEq, Eq)]
pub enum WitnessOrPublic {
    /// A private value, placed on a wire.
    Witness(u64),
    /// A value known to prover and verifier, folded into a gate's constant.
    PublicInput(u64),
}

impl WitnessOrPublic {
    pub open spec fn value_spec(self) -> u64 {
        match self {
            WitnessOrPublic::Witness(v) => v,
            WitnessOrPublic::PublicInput(v) => v,
        }
    }

    /// The value, whatever the role.
    pub fn value(&self) -> (r: u64)
        ensures
            r == self.value_spec(),
    {
        match self {
            WitnessOrPublic::Witness(v) => *v,
            WitnessOrPublic::PublicInput(v) => *v,
        }
    }

    /// The same role holding `v`.
    pub fn with_value(&self, v: u64) -> (r: WitnessOrPublic)
        ensures
            r is PublicInput <==> self is PublicInput,
            r.value_spec() == v,
    {
        match self {
            WitnessOrPublic::Witness(_) => WitnessOrPublic::Witness(v),
            WitnessOrPublic::PublicInput(_) => WitnessOrPublic::PublicInput(v),
        }
    }
}

/// One entry of the variable table.
#[derive(Debug)]
pub struct Var {
    pub name: String,
    pub role: WitnessOrPublic,
}

/// `a` comes before `b` when `a[i..]` and `b[i..]` are compared character by
/// character, a proper prefix first.
pub open spec fn lt_from(a: Seq<char>, b: Seq<char>, i: int) -> bool
    decreases a.len() - i,
{
    if i < 0 || i >= a.len() {
        0 <= i < b.len()
    } else if i >= b.len() {
        false
    } else if a[i] != b[i] {
        (a[i] as u32) < (b[i] as u32)
    } else {
        lt_from(a, b, i + 1)
    }
}

/// The lexicographic order of names by character code.
pub open spec fn name_lt(a: Seq<char>, b: Seq<char>) -> bool {
    lt_from(a, b, 0)
}

proof fn lemma_lt_from_irreflexive(a: Seq<char>, i: int)
    requires
        0 <= i,
    ensures
        !lt_from(a, a, i),
    decreases a.len() - i,
{
    if i < a.len() {
        lemma_lt_from_irreflexive(a, i + 1);
    }
}

proof fn lemma_lt_from_transitive(a: Seq<char>, b: Seq<char>, c: Seq<char>, i: int)
    requires
        0 <= i,
        lt_from(a, b, i),
        lt_from(b, c, i),
    ensures
        lt_from(a, c, i),
    decreases a.len() - i,
{
    if i < a.len() && i < b.len() && i < c.len() && a[i] == b[i] && b[i] == c[i] {
        lemma_lt_from_transitive(a, b, c, i + 1);
    }
}

proof fn lemma_lt_from_total(a: Seq<char>, b: Seq<char>, i: int)
    requires
        0 <= i <= a.len(),
        i <= b.len(),
        a.subrange(0, i) == b.subrange(0, i),
        !lt_from(a, b, i),
        !lt_from(b, a, i),
    ensures
        a == b,
    decreases a.len() - i,
{
    if i < a.len() {
        assert(i < b.len());
        if a[i] != b[i] {
            let u = a[i] as u32;
            let w = b[i] as u32;
            vstd::utf8::char_u32_cast(a[i], u);
            vstd::utf8::char_u32_cast(b[i], w);
        }
        assert(a[i] == b[i]);
        assert(a.subrange(0, i + 1) =~= a.subrange(0, i).push(a[i]));
        assert(b.subrange(0, i + 1) =~= b.subrange(0, i).push(b[i]));
        lemma_lt_from_total(a, b, i + 1);
    } else {
        assert(a =~= a.subrange(0, i));
        assert(b =~= b.subrange(0, i));
    }
}

pub proof fn lemma_name_lt_irreflexive(a: Seq<char>)
    ensures
        !name_lt(a, a),
{
    lemma_lt_from_irreflexive(a, 0);
}

pub proof fn lemma_name_lt_transitive(a: Seq<char>, b: Seq<char>, c: Seq<char>)
    requires
        name_lt(a, b),
        name_lt(b, c),
    ensures
        name_lt(a, c),
{
    lemma_lt_from_transitive(a, b, c, 0);
}

pub proof fn lemma_name_lt_total(a: Seq<char>, b: Seq<char>)
    requires
        !name_lt(a, b),
        !name_lt(b, a),
    ensures
        a == b,
{
    assert(a.subrange(0, 0) =~= b.subrange(0, 0));
    lemma_lt_from_total(a, b, 0);
}

/// Whether `a` comes before `b` by character code.
pub fn name_less(a: &String, b: &String) -> (r: bool)
    ensures
        r == name_lt(a@, b@),
{
    let sa = a.as_str();
    let sb = b.as_str();
    let la: usize = sa.unicode_len();
    let lb: usize = sb.unicode_len();
    let mut i: usize = 0;
    while i < la && i < lb
        invariant
            la == a@.len(),
            lb == b@.len(),
            sa@ == a@,
            sb@ == b@,
            i <= la,
            i <= lb,
            name_lt(a@, b@) == lt_from(a@, b@, i as int),
        decreases la - i,
    {
        let ca = sa.get_char(i);
        let cb = sb.get_char(i);
        if ca != cb {
            return (ca as u32) < (cb as u32);
        }
        i = i + 1;
    }
    i < lb && i >= la
}

/// The names of a table are strictly increasing, hence distinct.
pub open spec fn sorted(t: Seq<Var>) -> bool {
    forall|i: int, j: int| 0 <= i < j < t.len() ==> name_lt(#[trigger] t[i].name@, #[trigger] t[j].name@)
}

/// The names a table holds.
pub open spec fn names_of(t: Seq<Var>) -> Set<Seq<char>> {
    Set::new(|n: Seq<char>| exists|i: int| 0 <= i < t.len() && #[trigger] t[i].name@ == n)
}

/// The names a table holds as public inputs.
pub open spec fn publics_of(t: Seq<Var>) -> Set<Seq<char>> {
    Set::new(
        |n: Seq<char>|
            exists|i: int| 0 <= i < t.len() && #[trigger] t[i].name@ == n && t[i].role is PublicInput,
    )
}

/// The names some equation of `xs` references.
pub open spec fn referenced(xs: Seq<ExprModel>) -> Set<Seq<char>> {
    Set::new(
        |n: Seq<char>| exists|i: int| 0 <= i < xs.len() && #[trigger] name_seq(xs[i]).contains(n),
    )
}

/// The name of an equation's public input.
pub open spec fn public_name(e: ExprModel) -> Option<Seq<char>> {
    match e.public {
        Some(p) => Some(p.var@),
        None => None,
    }
}

/// The names some equation of `xs` takes as its public input.
pub open spec fn public_refs(xs: Seq<ExprModel>) -> Set<Seq<char>> {
    Set::new(
        |n: Seq<char>|
            exists|i: int|
                0 <= i < xs.len() && public_name(#[trigger] xs[i]) == Some(n),
    )
}

/// The table holds each referenced name once, in name order, as a public input
/// exactly when some equation takes it as its public input.
pub open spec fn derived_from(t: Seq<Var>, xs: Seq<ExprModel>) -> bool {
    &&& sorted(t)
    &&& names_of(t) == referenced(xs)
    &&& publics_of(t) == public_refs(xs)
}

/// The index of the entry named `n`.
pub open spec fn index_of(t: Seq<Var>, n: Seq<char>) -> int {
    choose|i: int| 0 <= i < t.len() && t[i].name@ == n
}

/// The value of the variable named `n`.
pub open spec fn value_of(t: Seq<Var>, n: Seq<char>) -> int {
    t[index_of(t, n)].role.value_spec() as int
}

pub proof fn lemma_sorted_unique(t: Seq<Var>, i: int, j: int)
    requires
        sorted(t),
        0 <= i < t.len(),
        0 <= j < t.len(),
        t[i].name@ == t[j].name@,
    ensures
        i == j,
{
    if i < j {
        lemma_name_lt_irreflexive(t[i].name@);
    } else if j < i {
        lemma_name_lt_irreflexive(t[i].name@);
    }
}

/// In a sorted table, the entry named `t[i].name` is the one at `i`.
pub proof fn lemma_index_of(t: Seq<Var>, i: int)
    requires
        sorted(t),
        0 <= i < t.len(),
    ensures
        index_of(t, t[i].name@) == i,
{
    let k = index_of(t, t[i].name@);
    lemma_sorted_unique(t, i, k);
}

/// The position of the entry named `n`, if any.
pub fn find_var(t: &Vec<Var>, n: &String) -> (r: Option<usize>)
    requires
        sorted(t@),
    ensures
        r matches Some(i) ==> i < t@.len() && t@[i as int].name@ == n@ && index_of(t@, n@)
            == i,
        r is None ==> !names_of(t@).contains(n@),
{
    let mut i: usize = 0;
    while i < t.len()
        invariant
            sorted(t@),
            i <= t@.len(),
            forall|j: int| 0 <= j < i ==> t@[j].name@ != n@,
        decreases t.len() - i,
    {
        if t[i].name == *n {
            proof {
                lemma_index_of(t@, i as int);
            }
            return Some(i);
        }
        i = i + 1;
    }
    None
}

/// Adds `n` to a table of zero values, as a public input when `public` is set;
/// a name already present keeps its entry, and becomes a public input when
/// `public` is set.
fn insert_var(t: &mut Vec<Var>, n: &String, public: bool)
    requires
        sorted(old(t)@),
        forall|i: int| 0 <= i < old(t)@.len() ==> (#[trigger] old(t)@[i]).role.value_spec() == 0,
    ensures
        sorted(final(t)@),
        forall|i: int| 0 <= i < final(t)@.len() ==> (#[trigger] final(t)@[i]).role.value_spec() == 0,
        names_of(final(t)@) == names_of(old(t)@).insert(n@),
        publics_of(final(t)@) == if public {
            publics_of(old(t)@).insert(n@)
        } else {
            publics_of(old(t)@)
        },
{
    let ghost t0 = t@;
    let mut k: usize = 0;
    while k < t.len() && name_less(&t[k].name, n)
        invariant
            t@ == t0,
            k <= t@.len(),
            forall|j: int| 0 <= j < k ==> name_lt(#[trigger] t@[j].name@, n@),
        decreases t.len() - k,
    {
        k = k + 1;
    }
    if k < t.len() && t[k].name == *n {
        if public {
            let name = t[k].name.clone();
            t.set(k, Var { name, role: WitnessOrPublic::PublicInput(0) });
            assert forall|i: int| 0 <= i < t@.len() implies #[trigger] t@[i].name@ == t0[i].name@ by {}
            assert(t0[k as int].name@ == n@);
            assert(names_of(t0).contains(n@));
            assert forall|m: Seq<char>| names_of(t0).contains(m) implies names_of(t@).contains(m) by {
                let i = choose|i: int| 0 <= i < t0.len() && #[trigger] t0[i].name@ == m;
                assert(t@[i].name@ == m);
            }
            assert forall|m: Seq<char>| names_of(t@).contains(m) implies names_of(t0).contains(m) by {
                let i = choose|i: int| 0 <= i < t@.len() && #[trigger] t@[i].name@ == m;
                assert(t0[i].name@ == m);
            }
            assert(names_of(t@) =~= names_of(t0).insert(n@));
            assert(publics_of(t@) =~= publics_of(t0).insert(n@)) by {
                assert forall|m: Seq<char>| publics_of(t0).contains(m) implies publics_of(t@).contains(m) by {
                    let i = choose|i: int| 0 <= i < t0.len() && #[trigger] t0[i].name@ == m && t0[i].role is PublicInput;
                    if i != k {
                        assert(t@[i].name@ == m);
                    }
                }
                assert forall|m: Seq<char>| publics_of(t@).contains(m) && m != n@ implies publics_of(t0).contains(m) by {
                    let i = choose|i: int| 0 <= i < t@.len() && #[trigger] t@[i].name@ == m && t@[i].role is PublicInput;
                    assert(t0[i].name@ == m);
                }
                assert(t@[k as int].name@ == n@);
            }
        } else {
            assert(names_of(t@) =~= names_of(t0).insert(n@));
        }
    } else {
        let role = if public {
            WitnessOrPublic::PublicInput(0)
        } else {
            WitnessOrPublic::Witness(0)
        };
        let name = n.clone();
        proof {
            if k < t0.len() {
                if !name_lt(n@, t0[k as int].name@) {
                    lemma_name_lt_total(n@, t0[k as int].name@);
                }
            }
        }
        t.insert(k, Var { name, role });
        assert(t@ == t0.insert(k as int, Var { name, role }));
        assert forall|i: int, j: int| 0 <= i < j < t@.len() implies name_lt(
            #[trigger] t@[i].name@,
            #[trigger] t@[j].name@,
        ) by {
            if j == k {
            } else if i == k {
                if j > k + 1 {
                    lemma_name_lt_transitive(n@, t0[k as int].name@, t0[j - 1].name@);
                }
            } else if i < k && j > k {
                assert(name_lt(t0[i].name@, n@));
            }
        }
        assert(names_of(t@) =~= names_of(t0).insert(n@)) by {
            assert forall|m: Seq<char>| names_of(t0).contains(m) implies names_of(t@).contains(
                m,
            ) by {
                let i = choose|i: int| 0 <= i < t0.len() && #[trigger] t0[i].name@ == m;
                if i < k {
                    assert(t@[i].name@ == m);
                } else {
                    assert(t@[i + 1].name@ == m);
                }
            }
            assert(t@[k as int].name@ == n@);
        }
        assert(publics_of(t@) =~= if public {
            publics_of(t0).insert(n@)
        } else {
            publics_of(t0)
        }) by {
            assert forall|m: Seq<char>| publics_of(t0).contains(m) implies publics_of(
                t@,
            ).contains(m) by {
                let i = choose|i: int|
                    0 <= i < t0.len() && #[trigger] t0[i].name@ == m && t0[i].role is PublicInput;
                if i < k {
                    assert(t@[i].name@ == m);
                } else {
                    assert(t@[i + 1].name@ == m);
                }
            }
            if !public {
                assert forall|m: Seq<char>| publics_of(t@).contains(m) implies publics_of(
                    t0,
                ).contains(m) by {
                    let i = choose|i: int|
                        0 <= i < t@.len() && #[trigger] t@[i].name@ == m && t@[i].role is PublicInput;
                    if i < k {
                        assert(t0[i].name@ == m);
                    } else if i > k {
                        assert(t0[i - 1].name@ == m);
                    }
                }
            } else {
                assert(t@[k as int].name@ == n@);
            }
        }
    }
}

/// The public input of an equation, as a set of at most one name.
pub open spec fn public_set(e: ExprModel) -> Set<Seq<char>> {
    match public_name(e) {
        Some(n) => set![n],
        None => Set::empty(),
    }
}

/// Adds the names of one equation to a table of zero values.
fn insert_expr(t: &mut Vec<Var>, e: &PlangExpr)
    requires
        sorted(old(t)@),
        forall|i: int| 0 <= i < old(t)@.len() ==> (#[trigger] old(t)@[i]).role.value_spec() == 0,
    ensures
        sorted(final(t)@),
        forall|i: int| 0 <= i < final(t)@.len() ==> (#[trigger] final(t)@[i]).role.value_spec() == 0,
        names_of(final(t)@) == names_of(old(t)@).union(name_seq(e@).to_set()),
        publics_of(final(t)@) == publics_of(old(t)@).union(public_set(e@)),
{
    let names = expr_names(e);
    let ghost t0 = t@;
    let ghost ns = views(names@);
    let mut i: usize = 0;
    while i < names.len()
        invariant
            ns == views(names@),
            ns == name_seq(e@),
            i <= names@.len(),
            sorted(t@),
            forall|j: int| 0 <= j < t@.len() ==> (#[trigger] t@[j]).role.value_spec() == 0,
            names_of(t@) == names_of(t0).union(ns.take(i as int).to_set()),
            publics_of(t@) == publics_of(t0).union(
                if i > 0 {
                    public_set(e@)
                } else {
                    Set::empty()
                },
            ),
        decreases names.len() - i,
    {
        let public = i == 0 && e.public.is_some();
        let ghost before = t@;
        insert_var(t, &names[i], public);
        proof {
            assert(ns[i as int] == names@[i as int]@);
            assert(ns.take(i + 1) =~= ns.take(i as int).push(ns[i as int]));
            ns.take(i as int).lemma_push_to_set_commute(ns[i as int]);
            assert(names_of(t@) =~= names_of(t0).union(ns.take(i + 1).to_set()));
            if i == 0 {
                if public {
                    assert(ns[0] == e.public->0.var@);
                    assert(publics_of(t@) =~= publics_of(t0).union(public_set(e@)));
                } else {
                    assert(publics_of(t@) =~= publics_of(t0).union(public_set(e@)));
                }
            }
        }
        i = i + 1;
    }
    assert(ns.take(i as int) =~= ns);
    proof {
        if names@.len() == 0 {
            assert(public_set(e@) =~= Set::empty());
        }
    }
}

/// The variable table of a list of equations: every referenced name with a zero
/// value, a public input when some equation takes it as its public input, a
/// witness otherwise.
pub fn vars_from_exprs(exprs: &Vec<PlangExpr>) -> (r: Vec<Var>)
    ensures
        derived_from(r@, expr_views(exprs@)),
        forall|i: int| 0 <= i < r@.len() ==> (#[trigger] r@[i]).role.value_spec() == 0,
{
    let ghost xs = expr_views(exprs@);
    let mut t: Vec<Var> = Vec::new();
    let mut i: usize = 0;
    assert(names_of(t@) =~= referenced(xs.take(0)));
    assert(publics_of(t@) =~= public_refs(xs.take(0)));
    while i < exprs.len()
        invariant
            xs == expr_views(exprs@),
            i <= exprs@.len(),
            sorted(t@),
            forall|j: int| 0 <= j < t@.len() ==> (#[trigger] t@[j]).role.value_spec() == 0,
            names_of(t@) == referenced(xs.take(i as int)),
            publics_of(t@) == public_refs(xs.take(i as int)),
        decreases exprs.len() - i,
    {
        insert_expr(&mut t, &exprs[i]);
        proof {
            let ys = xs.take(i as int);
            let zs = xs.take(i + 1);
            assert(zs[i as int] == exprs@[i as int]@);
            assert forall|j: int| 0 <= j < i implies #[trigger] zs[j] == ys[j] by {}
            assert(referenced(zs) =~= referenced(ys).union(name_seq(exprs@[i as int]@).to_set())) by {
                assert forall|n: Seq<char>| referenced(zs).contains(n) implies referenced(ys).union(
                    name_seq(exprs@[i as int]@).to_set(),
                ).contains(n) by {
                    let j = choose|j: int| 0 <= j < zs.len() && #[trigger] name_seq(zs[j]).contains(n);
                    if j < i {
                        assert(name_seq(ys[j]).contains(n));
                    }
                }
                assert forall|n: Seq<char>| referenced(ys).contains(n) implies referenced(zs).contains(n) by {
                    let j = choose|j: int| 0 <= j < ys.len() && #[trigger] name_seq(ys[j]).contains(n);
                    assert(name_seq(zs[j]).contains(n));
                }
                assert forall|n: Seq<char>| name_seq(exprs@[i as int]@).to_set().contains(n) implies referenced(zs).contains(n) by {
                    assert(name_seq(zs[i as int]).contains(n));
                }
            }
            assert(public_refs(zs) =~= public_refs(ys).union(public_set(exprs@[i as int]@))) by {
                assert forall|n: Seq<char>| public_refs(zs).contains(n) implies public_refs(ys).union(
                    public_set(exprs@[i as int]@),
                ).contains(n) by {
                    let j = choose|j: int| 0 <= j < zs.len() && public_name(#[trigger] zs[j]) == Some(n);
                    if j < i {
                        assert(public_name(ys[j]) == Some(n));
                    }
                }
                assert forall|n: Seq<char>| public_refs(ys).contains(n) implies public_refs(zs).contains(n) by {
                    let j = choose|j: int| 0 <= j < ys.len() && public_name(#[trigger] ys[j]) == Some(n);
                    assert(public_name(zs[j]) == Some(n));
                }
                assert forall|n: Seq<char>| public_set(exprs@[i as int]@).contains(n) implies public_refs(zs).contains(n) by {
                    assert(public_name(zs[i as int]) == Some(n));
                }
            }
        }
        i = i + 1;
    }
    assert(xs.take(i as int) =~= xs);
    t
}

} // verus!

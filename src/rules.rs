use vstd::prelude::*;

use crate::error::Error;
use crate::expr::{BiTerm, ExprModel, PlangExpr};

verus! {

/// The operands of a quadratic term differ.
pub open spec fn tri_distinct(e: ExprModel) -> bool {
    e.tri matches Some(t) ==> t.lvar@ != t.rvar@
}

/// The names an equation places on wires: the quadratic operands, then the
/// linear-term variables in source order.
pub open spec fn wire_names(e: ExprModel) -> Seq<Seq<char>> {
    (match e.tri {
        Some(t) => seq![t.lvar@, t.rvar@],
        None => Seq::empty(),
    }) + e.bis.map_values(|b: BiTerm| b.var@)
}

/// Every name an equation references, the public input first.
pub open spec fn name_seq(e: ExprModel) -> Seq<Seq<char>> {
    (match e.public {
        Some(p) => seq![p.var@],
        None => Seq::empty(),
    }) + wire_names(e)
}

/// The distinct names an equation references.
pub open spec fn var_names(e: ExprModel) -> Set<Seq<char>> {
    name_seq(e).to_set()
}

/// The equation names fewer than five distinct variables.
pub open spec fn few_vars(e: ExprModel) -> bool {
    var_names(e).len() < 5
}

/// No two linear terms of the equation name the same variable.
pub open spec fn bis_distinct(e: ExprModel) -> bool {
    forall|i: int, j: int|
        0 <= i < j < e.bis.len() ==> #[trigger] e.bis[i].var@ != #[trigger] e.bis[j].var@
}

/// The public input is none of the equation's wire variables.
pub open spec fn public_singular(e: ExprModel) -> bool {
    e.public matches Some(p) ==> !wire_names(e).contains(p.var@)
}

/// The validation of a list of equations: each rule is a pass over the whole
/// list, and the first rule that some equation breaks gives the error.
pub open spec fn check_exprs(xs: Seq<ExprModel>) -> Result<(), Error> {
    if exists|i: int| 0 <= i < xs.len() && !tri_distinct(#[trigger] xs[i]) {
        Err(Error::SameTriVars)
    } else if exists|i: int| 0 <= i < xs.len() && !few_vars(#[trigger] xs[i]) {
        Err(Error::TooManyVars)
    } else if exists|i: int| 0 <= i < xs.len() && !bis_distinct(#[trigger] xs[i]) {
        Err(Error::RepeatedVars)
    } else if exists|i: int| 0 <= i < xs.len() && !public_singular(#[trigger] xs[i]) {
        Err(Error::PublicVarNotSingular)
    } else {
        Ok(())
    }
}

pub open spec fn views(v: Seq<String>) -> Seq<Seq<char>> {
    v.map_values(|s: String| s@)
}

pub open spec fn expr_views(v: Seq<PlangExpr>) -> Seq<ExprModel> {
    v.map_values(|e: PlangExpr| e@)
}

/// Whether `v` holds a string equal to `s`.
pub fn contains_name(v: &Vec<String>, s: &String) -> (r: bool)
    ensures
        r == views(v@).contains(s@),
{
    let mut i: usize = 0;
    while i < v.len()
        invariant
            i <= v@.len(),
            forall|j: int| 0 <= j < i ==> v@[j]@ != s@,
        decreases v.len() - i,
    {
        if v[i] == *s {
            assert(views(v@)[i as int] == s@);
            return true;
        }
        i = i + 1;
    }
    proof {
        if views(v@).contains(s@) {
            let j = choose|j: int| 0 <= j < views(v@).len() && views(v@)[j] == s@;
            assert(v@[j]@ == s@);
        }
    }
    false
}

/// The names an equation references, as strings, in the order of `name_seq`.
pub fn expr_names(e: &PlangExpr) -> (r: Vec<String>)
    ensures
        views(r@) == name_seq(e@),
{
    let mut r: Vec<String> = Vec::new();
    if let Some(p) = &e.public {
        r.push(p.var.clone());
    }
    if let Some(t) = &e.tri {
        r.push(t.lvar.clone());
        r.push(t.rvar.clone());
    }
    let ghost head = views(r@);
    let mut i: usize = 0;
    while i < e.bis.len()
        invariant
            i <= e.bis@.len(),
            head == (match e.public {
                Some(p) => seq![p.var@],
                None => Seq::<Seq<char>>::empty(),
            }) + (match e.tri {
                Some(t) => seq![t.lvar@, t.rvar@],
                None => Seq::<Seq<char>>::empty(),
            }),
            views(r@) == head + e.bis@.take(i as int).map_values(|b: BiTerm| b.var@),
        decreases e.bis.len() - i,
    {
        let ghost before = r@;
        r.push(e.bis[i].var.clone());
        assert(views(r@) =~= views(before).push(e.bis@[i as int].var@));
        assert(e.bis@.take(i + 1).map_values(|b: BiTerm| b.var@) =~= e.bis@.take(
            i as int,
        ).map_values(|b: BiTerm| b.var@).push(e.bis@[i as int].var@));
        assert(views(r@) =~= head + e.bis@.take(i + 1).map_values(|b: BiTerm| b.var@));
        i = i + 1;
    }
    assert(e.bis@.take(i as int) =~= e.bis@);
    assert(views(r@) =~= name_seq(e@));
    r
}

/// The number of distinct strings in `v`.
fn count_distinct(v: &Vec<String>) -> (r: usize)
    ensures
        r == views(v@).to_set().len(),
{
    let mut seen: Vec<String> = Vec::new();
    let mut i: usize = 0;
    while i < v.len()
        invariant
            i <= v@.len(),
            seen@.len() <= i,
            views(seen@).no_duplicates(),
            views(seen@).to_set() == views(v@).take(i as int).to_set(),
        decreases v.len() - i,
    {
        let ghost before = views(seen@);
        assert(views(v@).take(i + 1) =~= views(v@).take(i as int).push(v@[i as int]@));
        proof {
            views(v@).take(i as int).lemma_push_to_set_commute(v@[i as int]@);
        }
        if !contains_name(&seen, &v[i]) {
            seen.push(v[i].clone());
            assert(views(seen@) =~= before.push(v@[i as int]@));
            proof {
                before.lemma_push_to_set_commute(v@[i as int]@);
            }
        } else {
            assert(views(v@).take(i + 1).to_set() =~= views(v@).take(i as int).to_set());
        }
        i = i + 1;
    }
    assert(views(v@).take(i as int) =~= views(v@));
    proof {
        views(seen@).unique_seq_to_set();
    }
    seen.len()
}

/// Rejects a quadratic term whose operands are the same variable.
fn check_different_tri_vars(exprs: &Vec<PlangExpr>) -> (r: Result<(), Error>)
    ensures
        r is Ok <==> forall|i: int|
            0 <= i < exprs@.len() ==> tri_distinct(#[trigger] expr_views(exprs@)[i]),
        r is Err ==> r == Err::<(), Error>(Error::SameTriVars),
{
    let mut i: usize = 0;
    while i < exprs.len()
        invariant
            i <= exprs@.len(),
            forall|j: int| 0 <= j < exprs@.len() ==> #[trigger] expr_views(exprs@)[j] == exprs@[j]@,
            forall|j: int| 0 <= j < i ==> tri_distinct(#[trigger] expr_views(exprs@)[j]),
        decreases exprs.len() - i,
    {
        if let Some(t) = &exprs[i].tri {
            if t.lvar == t.rvar {
                assert(!tri_distinct(expr_views(exprs@)[i as int]));
                return Err(Error::SameTriVars);
            }
        }
        i = i + 1;
    }
    Ok(())
}

/// Rejects an equation that names five or more distinct variables.
fn check_less_than_5_vars(exprs: &Vec<PlangExpr>) -> (r: Result<(), Error>)
    ensures
        r is Ok <==> forall|i: int|
            0 <= i < exprs@.len() ==> few_vars(#[trigger] expr_views(exprs@)[i]),
        r is Err ==> r == Err::<(), Error>(Error::TooManyVars),
{
    let mut i: usize = 0;
    while i < exprs.len()
        invariant
            i <= exprs@.len(),
            forall|j: int| 0 <= j < exprs@.len() ==> #[trigger] expr_views(exprs@)[j] == exprs@[j]@,
            forall|j: int| 0 <= j < i ==> few_vars(#[trigger] expr_views(exprs@)[j]),
        decreases exprs.len() - i,
    {
        let names = expr_names(&exprs[i]);
        if count_distinct(&names) >= 5 {
            assert(!few_vars(expr_views(exprs@)[i as int]));
            return Err(Error::TooManyVars);
        }
        i = i + 1;
    }
    Ok(())
}

/// Rejects two linear terms of one equation that name the same variable.
fn check_no_repeat_vars_in_bis(exprs: &Vec<PlangExpr>) -> (r: Result<(), Error>)
    ensures
        r is Ok <==> forall|i: int|
            0 <= i < exprs@.len() ==> bis_distinct(#[trigger] expr_views(exprs@)[i]),
        r is Err ==> r == Err::<(), Error>(Error::RepeatedVars),
{
    let mut i: usize = 0;
    while i < exprs.len()
        invariant
            i <= exprs@.len(),
            forall|j: int| 0 <= j < exprs@.len() ==> #[trigger] expr_views(exprs@)[j] == exprs@[j]@,
            forall|j: int| 0 <= j < i ==> bis_distinct(#[trigger] expr_views(exprs@)[j]),
        decreases exprs.len() - i,
    {
        let bis = &exprs[i].bis;
        let mut k: usize = 1;
        while k < bis.len()
            invariant
                1 <= k <= bis@.len() || bis@.len() == 0,
                i < exprs@.len(),
                bis@ == exprs@[i as int].bis@,
                expr_views(exprs@)[i as int] == exprs@[i as int]@,
                forall|a: int, b: int| 0 <= a < b < k && b < bis@.len() ==> bis@[a].var@ != bis@[b].var@,
            decreases bis.len() - k,
        {
            let mut j: usize = 0;
            while j < k
                invariant
                    j <= k < bis@.len(),
                    i < exprs@.len(),
                    bis@ == exprs@[i as int].bis@,
                    expr_views(exprs@)[i as int] == exprs@[i as int]@,
                    forall|a: int| 0 <= a < j ==> bis@[a].var@ != bis@[k as int].var@,
                decreases k - j,
            {
                if bis[j].var == bis[k].var {
                    let ghost x = expr_views(exprs@)[i as int];
                    assert(x.bis[j as int].var@ == x.bis[k as int].var@);
                    assert(!bis_distinct(x));
                    return Err(Error::RepeatedVars);
                }
                j = j + 1;
            }
            k = k + 1;
        }
        i = i + 1;
    }
    Ok(())
}

/// Rejects a public input that is also a wire variable of its equation.
fn check_public_different_from_other_vars(exprs: &Vec<PlangExpr>) -> (r: Result<(), Error>)
    ensures
        r is Ok <==> forall|i: int|
            0 <= i < exprs@.len() ==> public_singular(#[trigger] expr_views(exprs@)[i]),
        r is Err ==> r == Err::<(), Error>(Error::PublicVarNotSingular),
{
    let mut i: usize = 0;
    while i < exprs.len()
        invariant
            i <= exprs@.len(),
            forall|j: int| 0 <= j < exprs@.len() ==> #[trigger] expr_views(exprs@)[j] == exprs@[j]@,
            forall|j: int| 0 <= j < i ==> public_singular(#[trigger] expr_views(exprs@)[j]),
        decreases exprs.len() - i,
    {
        if let Some(p) = &exprs[i].public {
            let names = expr_names(&exprs[i]);
            let ghost e = exprs@[i as int]@;
            assert(views(names@) == seq![p.var@] + wire_names(e));
            let mut k: usize = 1;
            while k < names.len()
                invariant
                    1 <= k <= names@.len(),
                    i < exprs@.len(),
                    e == exprs@[i as int]@,
                    e.public == Some(*p),
                    expr_views(exprs@)[i as int] == e,
                    views(names@) == seq![p.var@] + wire_names(e),
                    forall|a: int| 1 <= a < k ==> names@[a]@ != p.var@,
                decreases names.len() - k,
            {
                if names[k] == p.var {
                    assert(views(names@)[k as int] == names@[k as int]@);
                    assert(views(names@).len() == names@.len());
                    assert((seq![p.var@] + wire_names(e))[k as int] == wire_names(e)[k - 1]);
                    assert(wire_names(e)[k - 1] == p.var@);
                    assert(!public_singular(expr_views(exprs@)[i as int]));
                    return Err(Error::PublicVarNotSingular);
                }
                k = k + 1;
            }
            assert forall|a: int| 0 <= a < wire_names(e).len() implies wire_names(e)[a]
                != p.var@ by {
                assert(views(names@)[a + 1] == wire_names(e)[a]);
                assert(views(names@)[a + 1] == names@[a + 1]@);
            }
            assert(public_singular(expr_views(exprs@)[i as int]));
        }
        i = i + 1;
    }
    Ok(())
}

/// Runs the four validation passes, in order, over the whole list.
pub fn check_all(exprs: &Vec<PlangExpr>) -> (r: Result<(), Error>)
    ensures
        r == check_exprs(expr_views(exprs@)),
{
    let r1 = check_different_tri_vars(exprs);
    if r1.is_err() {
        return r1;
    }
    let r2 = check_less_than_5_vars(exprs);
    if r2.is_err() {
        return r2;
    }
    let r3 = check_no_repeat_vars_in_bis(exprs);
    if r3.is_err() {
        return r3;
    }
    let r4 = check_public_different_from_other_vars(exprs);
    if r4.is_err() {
        return r4;
    }
    Ok(())
}

} // verus!

use vstd::prelude::*;

verus! {

/// One typed node of a parsed equation, in source order.
#[derive(Debug, Clone, PartialEq, Eq)]
pub enum PlangNode {
    /// A sign; it applies to the term right after it. A term without a sign
    /// before it is positive.
    Sign { minus: bool },
    /// `coeff · lvar · rvar`; the coefficient token defaults to 1.
    Tri { coeff: Option<String>, lvar: String, rvar: String },
    /// `coeff · var`; the coefficient token defaults to 1.
    Bi { coeff: Option<String>, var: String },
    /// The public input the equation's left side equals.
    Var { name: String },
}

/// The output of the parser: one node sequence per equation, in source order.
#[derive(Debug, Clone)]
pub struct PlangGrammar {
    exprs: Vec<Vec<PlangNode>>,
}

impl PlangGrammar {
    /// Wraps the parsed node sequences of a source text.
    pub fn new(exprs: Vec<Vec<PlangNode>>) -> (r: PlangGrammar)
        ensures
            r.pairs_spec() == exprs@,
    {
        PlangGrammar { exprs }
    }

    pub closed spec fn pairs_spec(&self) -> Seq<Vec<PlangNode>> {
        self.exprs@
    }

    /// The node sequences, one per equation.
    pub fn pairs(&self) -> (r: &Vec<Vec<PlangNode>>)
        ensures
            r@ == self.pairs_spec(),
    {
        &self.exprs
    }
}

} // verus!

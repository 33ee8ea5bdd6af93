use vstd::prelude::*;

verus! {

/// What can go wrong while building a circuit or supplying its values.
#[derive(Debug, Clone, PartialEq, Eq)]
pub enum Error {
    /// A coefficient token is not an unsigned 64-bit decimal number.
    Int(String),
    /// A value was supplied for a variable the circuit does not have.
    NoSuchValue(String),
    /// An equation holds more than one quadratic term.
    TooManyTriTerms,
    /// A quadratic term multiplies a variable by itself.
    SameTriVars,
    /// An equation names five or more distinct variables.
    TooManyVars,
    /// Two linear terms of one equation name the same variable.
    RepeatedVars,
    /// The public input of an equation is also one of its wire variables.
    PublicVarNotSingular,
}

} // verus!

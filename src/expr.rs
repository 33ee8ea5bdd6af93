use vstd::prelude::*;

use crate::error::Error;
use crate::grammar::PlangNode;

verus! {

/// A quadratic term `± coeff · lvar · rvar`.
#[derive(Debug, PartialEq, Eq)]
pub struct TriTerm {
    pub minus: bool,
    pub coeff: u64,
    pub lvar: String,
    pub rvar: String,
}

/// A linear term `± coeff · var`.
#[derive(Debug, PartialEq, Eq)]
pub struct BiTerm {
    pub minus: bool,
    pub coeff: u64,
    pub var: String,
}

/// The public input `± var` that the left side of an equation equals.
#[derive(Debug, PartialEq, Eq)]
pub struct Public {
    pub minus: bool,
    pub var: String,
}

/// One equation: at most one quadratic term, linear terms in source order, and
/// an optional public input on the right side.
#[derive(Debug)]
pub struct PlangExpr {
    pub tri: Option<TriTerm>,
    pub bis: Vec<BiTerm>,
    pub public: Option<Public>,
}

/// The mathematical value of an equation.
pub struct ExprModel {
    pub tri: Option<TriTerm>,
    pub bis: Seq<BiTerm>,
    pub public: Option<Public>,
}

impl View for PlangExpr {
    type V = ExprModel;

    open spec fn view(&self) -> ExprModel {
        ExprModel { tri: self.tri, bis: self.bis@, public: self.public }
    }
}

pub open spec fn is_digit(c: char) -> bool {
    '0' <= c && c <= '9'
}

/// The number written by a sequence of decimal digits.
pub open spec fn digits_value(s: Seq<char>) -> nat
    decreases s.len(),
{
    if s.len() == 0 {
        0
    } else {
        digits_value(s.drop_last()) * 10 + ((s.last() as u32) - ('0' as u32)) as nat
    }
}

/// The digits of an unsigned literal: an optional leading `+` is dropped.
pub open spec fn unsigned_digits(s: Seq<char>) -> Seq<char> {
    if s.len() > 0 && s[0] == '+' {
        s.drop_first()
    } else {
        s
    }
}

/// `s` is an unsigned decimal literal whose value fits in `u64`.
pub open spec fn is_u64_literal(s: Seq<char>) -> bool {
    let d = unsigned_digits(s);
    &&& d.len() > 0
    &&& forall|i: int| 0 <= i < d.len() ==> is_digit(#[trigger] d[i])
    &&& digits_value(d) <= u64::MAX
}

/// A value of digits never falls below the value of a prefix of them.
proof fn lemma_digits_value_prefix(d: Seq<char>, k: int)
    requires
        0 <= k <= d.len(),
    ensures
        digits_value(d.take(k)) <= digits_value(d),
    decreases d.len() - k,
{
    if k < d.len() {
        lemma_digits_value_prefix(d.drop_last(), k);
        assert(d.drop_last().take(k) =~= d.take(k));
    } else {
        assert(d.take(k) =~= d);
    }
}

/// Reads an unsigned decimal number as `u64::from_str` does: an optional `+`
/// followed by one or more decimal digits whose value fits in `u64`.
fn parse_u64(s: &str) -> (r: Option<u64>)
    ensures
        r is Some <==> is_u64_literal(s@),
        r matches Some(v) ==> v == digits_value(unsigned_digits(s@)),
{
    let n: usize = s.unicode_len();
    if n == 0 {
        return None;
    }
    let start: usize = if s.get_char(0) == '+' {
        1
    } else {
        0
    };
    let ghost d = unsigned_digits(s@);
    assert(d =~= s@.subrange(start as int, n as int));
    if start == n {
        return None;
    }
    let mut v: u64 = 0;
    let mut i: usize = start;
    assert(d.take(0) =~= Seq::<char>::empty());
    while i < n
        invariant
            n == s@.len(),
            d == unsigned_digits(s@),
            d == s@.subrange(start as int, n as int),
            start <= i <= n,
            forall|k: int| 0 <= k < i - start ==> is_digit(#[trigger] d[k]),
            v == digits_value(d.take(i - start)),
        decreases n - i,
    {
        let c = s.get_char(i);
        assert(d[i - start] == c);
        if !(c >= '0' && c <= '9') {
            assert(!is_digit(d[i - start]));
            return None;
        }
        let digit: u64 = (c as u32 - '0' as u32) as u64;
        let ghost next = d.take(i - start + 1);
        assert(next.drop_last() =~= d.take(i - start));
        assert(next.last() == c);
        if v > (u64::MAX - digit) / 10 {
            proof {
                let m = u64::MAX as int;
                let vv = v as int;
                let dd = digit as int;
                assert(vv * 10 + dd > m) by (nonlinear_arith)
                    requires
                        vv > (m - dd) / 10,
                        0 <= dd <= 9,
                ;
                assert(digits_value(next) == v * 10 + digit);
                lemma_digits_value_prefix(d, i - start + 1);
            }
            return None;
        }
        v = v * 10 + digit;
        i = i + 1;
    }
    assert(d.take(n - start) =~= d);
    Some(v)
}

/// The coefficient a term's token stands for; `None` when it is no number.
pub open spec fn coeff_of(tok: Option<String>) -> Option<u64> {
    match tok {
        None => Some(1u64),
        Some(s) => if is_u64_literal(s@) {
            Some(digits_value(unsigned_digits(s@)) as u64)
        } else {
            None
        },
    }
}

/// What scanning a prefix of an equation's nodes has gathered.
pub struct ScanModel {
    pub minus: bool,
    pub tris: Seq<TriTerm>,
    pub bis: Seq<BiTerm>,
    pub public: Option<Public>,
}

/// One node's effect on the scan: a sign applies to the term right after it,
/// a term without a sign before it is positive, and a bad coefficient token
/// stops the scan.
pub open spec fn scan_step(st: ScanModel, node: PlangNode) -> Result<ScanModel, Error> {
    match node {
        PlangNode::Sign { minus } => Ok(ScanModel { minus, ..st }),
        PlangNode::Tri { coeff, lvar, rvar } => match coeff_of(coeff) {
            None => Err(Error::Int(coeff->0)),
            Some(c) => Ok(
                ScanModel {
                    minus: false,
                    tris: st.tris.push(TriTerm { minus: st.minus, coeff: c, lvar, rvar }),
                    ..st
                },
            ),
        },
        PlangNode::Bi { coeff, var } => match coeff_of(coeff) {
            None => Err(Error::Int(coeff->0)),
            Some(c) => Ok(
                ScanModel {
                    minus: false,
                    bis: st.bis.push(BiTerm { minus: st.minus, coeff: c, var }),
                    ..st
                },
            ),
        },
        PlangNode::Var { name } => Ok(
            ScanModel { minus: false, public: Some(Public { minus: st.minus, var: name }), ..st },
        ),
    }
}

/// The scan of a node sequence, from a positive sign and nothing gathered.
pub open spec fn scan_nodes(ns: Seq<PlangNode>) -> Result<ScanModel, Error>
    decreases ns.len(),
{
    if ns.len() == 0 {
        Ok(ScanModel { minus: false, tris: Seq::empty(), bis: Seq::empty(), public: None })
    } else {
        match scan_nodes(ns.drop_last()) {
            Err(e) => Err(e),
            Ok(st) => scan_step(st, ns.last()),
        }
    }
}

/// The equation a node sequence describes, or the first error met in it.
pub open spec fn scan_expr(ns: Seq<PlangNode>) -> Result<ExprModel, Error> {
    match scan_nodes(ns) {
        Err(e) => Err(e),
        Ok(st) => if st.tris.len() > 1 {
            Err(Error::TooManyTriTerms)
        } else {
            Ok(
                ExprModel {
                    tri: if st.tris.len() == 1 {
                        Some(st.tris[0])
                    } else {
                        None
                    },
                    bis: st.bis,
                    public: st.public,
                },
            )
        },
    }
}

/// The equations of a parse, or the error of the first equation that fails.
pub open spec fn scan_all(eqs: Seq<Vec<PlangNode>>) -> Result<Seq<ExprModel>, Error>
    decreases eqs.len(),
{
    if eqs.len() == 0 {
        Ok(Seq::empty())
    } else {
        match scan_all(eqs.drop_last()) {
            Err(e) => Err(e),
            Ok(xs) => match scan_expr(eqs.last()@) {
                Err(e) => Err(e),
                Ok(x) => Ok(xs.push(x)),
            },
        }
    }
}

/// Once a prefix of the nodes fails, the whole sequence fails the same way.
proof fn lemma_scan_nodes_err(ns: Seq<PlangNode>, i: int)
    requires
        0 <= i <= ns.len(),
        scan_nodes(ns.take(i)) is Err,
    ensures
        scan_nodes(ns) == scan_nodes(ns.take(i)),
    decreases ns.len() - i,
{
    if i < ns.len() {
        assert(ns.take(i + 1).drop_last() =~= ns.take(i));
        lemma_scan_nodes_err(ns, i + 1);
    } else {
        assert(ns.take(i) =~= ns);
    }
}

fn clone_string(s: &String) -> (r: String)
    ensures
        r == *s,
{
    s.clone()
}

/// The coefficient of a term, parsed from its token.
fn coeff_value(tok: &Option<String>) -> (r: Result<u64, Error>)
    ensures
        match coeff_of(*tok) {
            None => r == Err::<u64, Error>(Error::Int(tok->0)),
            Some(c) => r == Ok::<u64, Error>(c),
        },
{
    match tok {
        None => Ok(1),
        Some(s) => match parse_u64(s.as_str()) {
            Some(v) => Ok(v),
            None => Err(Error::Int(clone_string(s))),
        },
    }
}

impl PlangExpr {
    /// Builds the equation that a node sequence describes.
    pub fn from_nodes(nodes: &Vec<PlangNode>) -> (r: Result<PlangExpr, Error>)
        ensures
            match scan_expr(nodes@) {
                Ok(m) => r is Ok && r->Ok_0@ == m,
                Err(e) => r == Err::<PlangExpr, Error>(e),
            },
    {
        let mut minus = false;
        let mut tris: Vec<TriTerm> = Vec::new();
        let mut bis: Vec<BiTerm> = Vec::new();
        let mut public: Option<Public> = None;
        let n: usize = nodes.len();
        let mut i: usize = 0;
        while i < n
            invariant
                n == nodes@.len(),
                i <= n,
                scan_nodes(nodes@.take(i as int)) == Ok::<ScanModel, Error>(
                    ScanModel { minus, tris: tris@, bis: bis@, public },
                ),
            decreases n - i,
        {
            assert(nodes@.take(i + 1).drop_last() =~= nodes@.take(i as int));
            assert(nodes@.take(i + 1).last() == nodes@[i as int]);
            match &nodes[i] {
                PlangNode::Sign { minus: m } => {
                    minus = *m;
                },
                PlangNode::Tri { coeff, lvar, rvar } => {
                    let c = match coeff_value(coeff) {
                        Ok(c) => c,
                        Err(e) => {
                            proof {
                                lemma_scan_nodes_err(nodes@, i + 1);
                            }
                            return Err(e);
                        },
                    };
                    tris.push(
                        TriTerm {
                            minus,
                            coeff: c,
                            lvar: clone_string(lvar),
                            rvar: clone_string(rvar),
                        },
                    );
                    minus = false;
                },
                PlangNode::Bi { coeff, var } => {
                    let c = match coeff_value(coeff) {
                        Ok(c) => c,
                        Err(e) => {
                            proof {
                                lemma_scan_nodes_err(nodes@, i + 1);
                            }
                            return Err(e);
                        },
                    };
                    bis.push(BiTerm { minus, coeff: c, var: clone_string(var) });
                    minus = false;
                },
                PlangNode::Var { name } => {
                    public = Some(Public { minus, var: clone_string(name) });
                    minus = false;
                },
            }
            i = i + 1;
        }
        assert(nodes@.take(n as int) =~= nodes@);
        if tris.len() > 1 {
            return Err(Error::TooManyTriTerms);
        }
        let tri = tris.pop();
        Ok(PlangExpr { tri, bis, public })
    }
}

} // verus!

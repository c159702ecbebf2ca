//! Chained integer comparisons.

use vstd::prelude::*;
use crate::expr::{Expr, Term, list_view};
use crate::eval::{EvalError, res_view};

verus! {

/// The ordering that a chained comparison checks between neighbours.
#[derive(PartialEq, Eq, Structural, Clone, Copy)]
pub enum Cmp {
    Less,
    LessEq,
    Greater,
    GreaterEq,
}

/// Whether `a` and `b` stand in the ordering `c`.
pub open spec fn holds(c: Cmp, a: int, b: int) -> bool {
    match c {
        Cmp::Less => a < b,
        Cmp::LessEq => a <= b,
        Cmp::Greater => a > b,
        Cmp::GreaterEq => a >= b,
    }
}

/// The value of an integer term.
pub open spec fn int_of(t: Term) -> int {
    match t {
        Term::Integer(n) => n as int,
        _ => 0,
    }
}

/// Whether items `i` and `i + 1` stand in the ordering `c`.
pub open spec fn pair_holds(vals: Seq<Term>, c: Cmp, i: int) -> bool {
    holds(c, int_of(vals[i]), int_of(vals[i + 1]))
}

/// `true` when every neighbouring pair of integers satisfies `c`; an error
/// when an argument is not an integer.
pub open spec fn compare_spec(vals: Seq<Term>, c: Cmp) -> Result<Term, crate::eval::Fault> {
    if exists|i: int| 0 <= i < vals.len() && !(vals[i] is Integer) {
        Err(crate::eval::Fault::IllegalArgument("compare"@, "All arguments must be numbers"@))
    } else {
        Ok(Term::Boolean(forall|i: int| 0 <= i < vals.len() - 1 ==> #[trigger] pair_holds(vals, c, i)))
    }
}

/// Compares already evaluated arguments pairwise with `c`.
pub fn compare_integers(vals: &Vec<Expr>, c: Cmp) -> (r: Result<Expr, EvalError>)
    ensures
        res_view(r) == compare_spec(list_view(*vals), c),
{
    let ghost m = list_view(*vals);
    let mut ints: Vec<i64> = Vec::new();
    let mut i: usize = 0;
    while i < vals.len()
        invariant
            i <= vals.len(),
            m == list_view(*vals),
            m.len() == vals.len(),
            ints.len() == i,
            forall|j: int| 0 <= j < i ==> #[trigger] m[j] == Term::Integer(ints[j]),
        decreases vals.len() - i,
    {
        assert(m[i as int] == vals[i as int]@);
        match &vals[i] {
            Expr::Integer(n) => {
                assert(m[i as int] == Term::Integer(*n));
                ints.push(*n);
            },
            _ => {
                assert(!(m[i as int] is Integer));
                return Err(EvalError::IllegalArgument("compare", "All arguments must be numbers"));
            },
        }
        i += 1;
    }
    let mut k: usize = 1;
    while k < ints.len()
        invariant
            1 <= k,
            m == list_view(*vals),
            ints.len() == m.len(),
            forall|j: int| 0 <= j < m.len() ==> #[trigger] m[j] == Term::Integer(ints[j]),
            forall|j: int| 0 <= j < k - 1 ==> #[trigger] pair_holds(m, c, j),
        decreases ints.len() - k,
    {
        let a = ints[k - 1];
        let b = ints[k];
        assert(pair_holds(m, c, k - 1) == holds(c, a as int, b as int));
        let ok = match c {
            Cmp::Less => a < b,
            Cmp::LessEq => a <= b,
            Cmp::Greater => a > b,
            Cmp::GreaterEq => a >= b,
        };
        if !ok {
            assert(!pair_holds(m, c, k - 1));
            assert(!(forall|j: int| 0 <= j < m.len() - 1 ==> #[trigger] pair_holds(m, c, j)));
            assert(!exists|i: int| 0 <= i < m.len() && !(m[i] is Integer));
            return Ok(Expr::Boolean(false));
        }
        k += 1;
    }
    assert(!exists|i: int| 0 <= i < m.len() && !(m[i] is Integer));
    Ok(Expr::Boolean(true))
}

} // verus!

//! The textual form of expressions.

use vstd::prelude::*;
use crate::expr::{Expr, Term, list_view, lemma_list_view};

verus! {

/// The text of one decimal digit.
pub open spec fn digit_text(d: nat) -> Seq<char> {
    if d == 0 { "0"@ }
    else if d == 1 { "1"@ }
    else if d == 2 { "2"@ }
    else if d == 3 { "3"@ }
    else if d == 4 { "4"@ }
    else if d == 5 { "5"@ }
    else if d == 6 { "6"@ }
    else if d == 7 { "7"@ }
    else if d == 8 { "8"@ }
    else { "9"@ }
}

/// The decimal digits of `n`, without leading zeros.
pub open spec fn nat_text(n: nat) -> Seq<char>
    decreases n,
{
    if n < 10 {
        digit_text(n)
    } else {
        nat_text(n / 10) + digit_text(n % 10)
    }
}

/// The decimal form of `n`, with a minus sign when it is negative.
pub open spec fn int_text(n: int) -> Seq<char> {
    if n < 0 {
        "-"@ + nat_text((-n) as nat)
    } else {
        nat_text(n as nat)
    }
}

/// The parts joined with single spaces.
pub open spec fn join(parts: Seq<Seq<char>>) -> Seq<char>
    decreases parts.len(),
{
    if parts.len() == 0 {
        Seq::empty()
    } else if parts.len() == 1 {
        parts[0]
    } else {
        join(parts.drop_last()) + " "@ + parts.last()
    }
}

/// The text of an expression: integers and booleans as literals, lists in
/// parentheses with their items separated by spaces, closures and the unit
/// value as a placeholder.
pub open spec fn render(t: Term) -> Seq<char>
    decreases t,
{
    match t {
        Term::Integer(n) => int_text(n as int),
        Term::Boolean(b) => if b { "true"@ } else { "false"@ },
        Term::Op(o) => "Binary op "@ + o,
        Term::Keyword(k) => "["@ + k + "]"@,
        Term::Symbol(s) => s,
        Term::List(l) => "("@ + join(render_items(l)) + ")"@,
        _ => "-=-"@,
    }
}

/// The text of each item of a list.
pub open spec fn render_items(l: Seq<Term>) -> Seq<Seq<char>>
    decreases l,
{
    Seq::new(l.len(), |i: int| if 0 <= i < l.len() { render(l[i]) } else { Seq::empty() })
}

fn digit_str(d: u64) -> (r: &'static str)
    requires
        d < 10,
    ensures
        r@ == digit_text(d as nat),
{
    if d == 0 { "0" }
    else if d == 1 { "1" }
    else if d == 2 { "2" }
    else if d == 3 { "3" }
    else if d == 4 { "4" }
    else if d == 5 { "5" }
    else if d == 6 { "6" }
    else if d == 7 { "7" }
    else if d == 8 { "8" }
    else { "9" }
}

/// The decimal digits of a natural number.
pub fn nat_to_text(n: u64) -> (r: String)
    ensures
        r@ == nat_text(n as nat),
    decreases n,
{
    if n < 10 {
        String::from_str(digit_str(n))
    } else {
        let head = nat_to_text(n / 10);
        head.concat(digit_str(n % 10))
    }
}

/// The decimal form of an integer.
pub fn int_to_text(n: i64) -> (r: String)
    ensures
        r@ == int_text(n as int),
{
    if n < 0 {
        let m: u64 = (0i128 - (n as i128)) as u64;
        let digits = nat_to_text(m);
        String::from_str("-").concat(digits.as_str())
    } else {
        nat_to_text(n as u64)
    }
}

fn render_list(l: &Vec<Expr>) -> (r: String)
    ensures
        r@ == "("@ + join(render_items(list_view(*l))) + ")"@,
    decreases l, 1nat,
{
    let ghost m = list_view(*l);
    let mut acc = String::from_str("(");
    let mut i: usize = 0;
    while i < l.len()
        invariant
            i <= l.len(),
            m == list_view(*l),
            m.len() == l.len(),
            acc@ == "("@ + join(render_items(m).subrange(0, i as int)),
        decreases l.len() - i,
    {
        proof {
            assert(decreases_to!(l => l[i as int]));
        }
        let item = render_expr(&l[i]);
        let ghost before = acc@;
        if i > 0 {
            acc = acc.concat(" ");
        }
        acc = acc.concat(item.as_str());
        proof {
            let parts = render_items(m).subrange(0, i as int + 1);
            assert(parts.drop_last() =~= render_items(m).subrange(0, i as int));
            assert(render_items(m)[i as int] == item@);
            assert(parts.last() == item@);
            if i == 0 {
                assert(acc@ =~= "("@ + join(parts));
            } else {
                assert(acc@ =~= "("@ + join(parts));
            }
        }
        i += 1;
    }
    assert(render_items(m).subrange(0, i as int) =~= render_items(m));
    acc.concat(")")
}

/// The text of an expression, as `render` describes it.
pub fn render_expr(e: &Expr) -> (r: String)
    ensures
        r@ == render(e@),
    decreases e, 0nat,
{
    match e {
        Expr::Integer(n) => int_to_text(*n),
        Expr::Boolean(b) => if *b { String::from_str("true") } else { String::from_str("false") },
        Expr::Op(o) => String::from_str("Binary op ").concat(o.as_str()),
        Expr::Keyword(k) => String::from_str("[").concat(k.as_str()).concat("]"),
        Expr::Symbol(s) => s.clone(),
        Expr::List(l) => {
            proof {
                lemma_list_view(*l);
            }
            render_list(l)
        },
        _ => String::from_str("-=-"),
    }
}

} // verus!

//! Expressions: the syntax tree, which also serves as the runtime value.

use vstd::prelude::*;

verus! {

/// An expression of the language, before or after evaluation.
#[derive(Debug)]
pub enum Expr {
    Integer(i64),
    Boolean(bool),
    If,
    Op(String),
    Keyword(String),
    Symbol(String),
    List(Vec<Expr>),
    /// Parameters, body and the index of the captured frame.
    Lambda(Vec<String>, Vec<Expr>, usize),
    NoOp,
}

/// The mathematical model of an `Expr`: names are character sequences.
pub enum Term {
    Integer(i64),
    Boolean(bool),
    If,
    Op(Seq<char>),
    Keyword(Seq<char>),
    Symbol(Seq<char>),
    List(Seq<Term>),
    Lambda(Seq<Seq<char>>, Seq<Term>, nat),
    NoOp,
}

/// The model of a list of names.
pub open spec fn names_view(v: Vec<String>) -> Seq<Seq<char>> {
    Seq::new(v.len() as nat, |i: int| v[i]@)
}

/// The model of an expression.
pub open spec fn expr_view(e: Expr) -> Term
    decreases e,
{
    match e {
        Expr::Integer(n) => Term::Integer(n),
        Expr::Boolean(b) => Term::Boolean(b),
        Expr::If => Term::If,
        Expr::Op(s) => Term::Op(s@),
        Expr::Keyword(s) => Term::Keyword(s@),
        Expr::Symbol(s) => Term::Symbol(s@),
        Expr::List(l) => Term::List(Seq::new(l.len() as nat, |i: int|
            if 0 <= i < l.len() { expr_view(l[i]) } else { Term::NoOp })),
        Expr::Lambda(p, b, f) => Term::Lambda(names_view(p), Seq::new(b.len() as nat, |i: int|
            if 0 <= i < b.len() { expr_view(b[i]) } else { Term::NoOp }), f as nat),
        Expr::NoOp => Term::NoOp,
    }
}

impl View for Expr {
    type V = Term;

    open spec fn view(&self) -> Term {
        expr_view(*self)
    }
}

/// The model of a list of expressions.
pub open spec fn list_view(l: Vec<Expr>) -> Seq<Term> {
    Seq::new(l.len() as nat, |i: int| l[i]@)
}

/// Viewing a list expression views each of its elements.
pub proof fn lemma_list_view(l: Vec<Expr>)
    ensures
        Expr::List(l)@ == Term::List(list_view(l)),
{
    if let Term::List(s) = expr_view(Expr::List(l)) {
        assert(s =~= list_view(l));
    }
}

/// Viewing a closure views its parameter names and body.
pub proof fn lemma_lambda_view(p: Vec<String>, b: Vec<Expr>, f: usize)
    ensures
        Expr::Lambda(p, b, f)@ == Term::Lambda(names_view(p), list_view(b), f as nat),
{
    if let Term::Lambda(_, s, _) = expr_view(Expr::Lambda(p, b, f)) {
        assert(s =~= list_view(b));
    }
}

/// The model of an optional expression.
pub open spec fn opt_view(o: Option<Expr>) -> Option<Term> {
    match o {
        Some(e) => Some(e@),
        None => None,
    }
}

/// A copy of a list of names.
pub fn copy_names(v: &Vec<String>) -> (r: Vec<String>)
    ensures
        names_view(r) == names_view(*v),
{
    let mut r: Vec<String> = Vec::new();
    let mut i: usize = 0;
    while i < v.len()
        invariant
            i <= v.len(),
            r.len() == i,
            forall|j: int| 0 <= j < i ==> r[j]@ == v[j]@,
        decreases v.len() - i,
    {
        r.push(v[i].clone());
        i += 1;
    }
    assert(names_view(r) =~= names_view(*v));
    r
}

/// A copy of a list of expressions.
pub fn copy_list(v: &Vec<Expr>) -> (r: Vec<Expr>)
    ensures
        list_view(r) == list_view(*v),
    decreases v, 1nat,
{
    let mut r: Vec<Expr> = Vec::new();
    let mut i: usize = 0;
    while i < v.len()
        invariant
            i <= v.len(),
            r.len() == i,
            forall|j: int| 0 <= j < i ==> r[j]@ == v[j]@,
        decreases v.len() - i,
    {
        proof {
            assert(decreases_to!(v => v[i as int]));
        }
        r.push(v[i].deep_copy());
        i += 1;
    }
    assert(list_view(r) =~= list_view(*v));
    r
}

/// Whether two texts hold the same characters.
pub fn same_text(a: &str, b: &str) -> (r: bool)
    ensures
        r == (a@ == b@),
{
    let n = a.unicode_len();
    if n != b.unicode_len() {
        return false;
    }
    let mut i: usize = 0;
    while i < n
        invariant
            i <= n,
            n == a@.len(),
            n == b@.len(),
            forall|j: int| 0 <= j < i ==> a@[j] == b@[j],
        decreases n - i,
    {
        if a.get_char(i) != b.get_char(i) {
            return false;
        }
        i += 1;
    }
    assert(a@ =~= b@);
    true
}

/// Whether two lists of names are equal.
pub fn same_names(a: &Vec<String>, b: &Vec<String>) -> (r: bool)
    ensures
        r == (names_view(*a) == names_view(*b)),
{
    if a.len() != b.len() {
        assert(names_view(*a).len() != names_view(*b).len());
        return false;
    }
    let mut i: usize = 0;
    while i < a.len()
        invariant
            i <= a.len(),
            a.len() == b.len(),
            forall|j: int| 0 <= j < i ==> a[j]@ == b[j]@,
        decreases a.len() - i,
    {
        if a[i] != b[i] {
            assert(names_view(*a)[i as int] != names_view(*b)[i as int]);
            return false;
        }
        i += 1;
    }
    assert(names_view(*a) =~= names_view(*b));
    true
}

/// Whether two lists of expressions are equal element by element.
pub fn same_list(a: &Vec<Expr>, b: &Vec<Expr>) -> (r: bool)
    ensures
        r == (list_view(*a) == list_view(*b)),
    decreases a, 1nat,
{
    if a.len() != b.len() {
        assert(list_view(*a).len() != list_view(*b).len());
        return false;
    }
    let mut i: usize = 0;
    while i < a.len()
        invariant
            i <= a.len(),
            a.len() == b.len(),
            forall|j: int| 0 <= j < i ==> a[j]@ == b[j]@,
        decreases a.len() - i,
    {
        proof {
            assert(decreases_to!(a => a[i as int]));
        }
        if !a[i].same_as(&b[i]) {
            assert(list_view(*a)[i as int] != list_view(*b)[i as int]);
            return false;
        }
        i += 1;
    }
    assert(list_view(*a) =~= list_view(*b));
    true
}

impl Expr {
    /// Whether this expression equals `o` in every part.
    pub fn same_as(&self, o: &Expr) -> (r: bool)
        ensures
            r == (self@ == o@),
        decreases self, 0nat,
    {
        match (self, o) {
            (Expr::Integer(a), Expr::Integer(b)) => *a == *b,
            (Expr::Boolean(a), Expr::Boolean(b)) => *a == *b,
            (Expr::If, Expr::If) => true,
            (Expr::Op(a), Expr::Op(b)) => *a == *b,
            (Expr::Keyword(a), Expr::Keyword(b)) => *a == *b,
            (Expr::Symbol(a), Expr::Symbol(b)) => *a == *b,
            (Expr::List(a), Expr::List(b)) => {
                proof {
                    lemma_list_view(*a);
                    lemma_list_view(*b);
                }
                same_list(a, b)
            },
            (Expr::Lambda(pa, ba, fa), Expr::Lambda(pb, bb, fb)) => {
                proof {
                    lemma_lambda_view(*pa, *ba, *fa);
                    lemma_lambda_view(*pb, *bb, *fb);
                }
                *fa == *fb && same_names(pa, pb) && same_list(ba, bb)
            },
            (Expr::NoOp, Expr::NoOp) => true,
            _ => false,
        }
    }

    /// A copy of this expression, equal to it in every part.
    pub fn deep_copy(&self) -> (r: Expr)
        ensures
            r@ == self@,
        decreases self, 0nat,
    {
        match self {
            Expr::Integer(n) => Expr::Integer(*n),
            Expr::Boolean(b) => Expr::Boolean(*b),
            Expr::If => Expr::If,
            Expr::Op(s) => Expr::Op(s.clone()),
            Expr::Keyword(s) => Expr::Keyword(s.clone()),
            Expr::Symbol(s) => Expr::Symbol(s.clone()),
            Expr::List(l) => {
                let c = copy_list(l);
                proof {
                    lemma_list_view(c);
                    lemma_list_view(*l);
                }
                Expr::List(c)
            },
            Expr::Lambda(p, b, f) => {
                let pc = copy_names(p);
                let bc = copy_list(b);
                proof {
                    lemma_lambda_view(pc, bc, *f);
                    lemma_lambda_view(*p, *b, *f);
                }
                Expr::Lambda(pc, bc, *f)
            },
            Expr::NoOp => Expr::NoOp,
        }
    }
}

} // verus!

//! The evaluator: its semantics as spec functions, and the code proved
//! against them.

use vstd::prelude::*;
use crate::expr::{Expr, Term, list_view, names_view, lemma_list_view, lemma_lambda_view, same_text, copy_list};
use crate::scope::{Env, Scope, PassableScope};
use crate::render::{render, render_expr, nat_text, nat_to_text};
use crate::comparison::{Cmp, compare_spec, compare_integers};

verus! {

/// How deeply the evaluator may call itself before it gives up.
pub const MAX_RECURSION_DEPTH: usize = 1024;

/// What can go wrong while evaluating.
#[derive(Debug)]
pub enum EvalError {
    /// A variable that is not defined is being read.
    UndefinedVariable(String),
    /// A function that is not defined is being called.
    UndefinedFunction(String),
    /// A construct got the wrong number of arguments; it needs the given count.
    ArgumentCount(String, usize),
    /// A construct got an argument of the wrong kind: its name and the reason.
    IllegalArgument(&'static str, &'static str),
    /// A construct that is recognised but not supported.
    Unimplemented,
    /// Evaluation nested deeper than the given limit.
    MaximumRecursionDepthReached(usize),
    /// A state that the evaluator never reaches.
    Unreachable,
    /// A state that the evaluator never reaches.
    Internal,
}

/// The model of an `EvalError`.
pub enum Fault {
    UndefinedVariable(Seq<char>),
    UndefinedFunction(Seq<char>),
    ArgumentCount(Seq<char>, nat),
    IllegalArgument(Seq<char>, Seq<char>),
    Unimplemented,
    MaximumRecursionDepthReached(nat),
    Unreachable,
    Internal,
}

impl View for EvalError {
    type V = Fault;

    open spec fn view(&self) -> Fault {
        match self {
            EvalError::UndefinedVariable(s) => Fault::UndefinedVariable(s@),
            EvalError::UndefinedFunction(s) => Fault::UndefinedFunction(s@),
            EvalError::ArgumentCount(s, n) => Fault::ArgumentCount(s@, *n as nat),
            EvalError::IllegalArgument(a, b) => Fault::IllegalArgument(a@, b@),
            EvalError::Unimplemented => Fault::Unimplemented,
            EvalError::MaximumRecursionDepthReached(n) => Fault::MaximumRecursionDepthReached(*n as nat),
            EvalError::Unreachable => Fault::Unreachable,
            EvalError::Internal => Fault::Internal,
        }
    }
}

/// The model of an evaluation result.
pub open spec fn res_view(r: Result<Expr, EvalError>) -> Result<Term, Fault> {
    match r {
        Ok(e) => Ok(e@),
        Err(e) => Err(e@),
    }
}

/// The model of the result of evaluating several items.
pub open spec fn vals_view(r: Result<Vec<Expr>, EvalError>) -> Result<Seq<Term>, Fault> {
    match r {
        Ok(v) => Ok(list_view(v)),
        Err(e) => Err(e@),
    }
}

/// The error for an argument of the wrong kind.
pub open spec fn illegal(name: &str, why: &str) -> Fault {
    Fault::IllegalArgument(name@, why@)
}

// ---------------------------------------------------------------------------
// Built-in operators on evaluated arguments

/// Whether every value is an integer.
pub open spec fn all_ints(vals: Seq<Term>) -> bool {
    forall|i: int| 0 <= i < vals.len() ==> vals[i] is Integer
}

/// Whether every value is a boolean.
pub open spec fn all_bools(vals: Seq<Term>) -> bool {
    forall|i: int| 0 <= i < vals.len() ==> vals[i] is Boolean
}

/// The integer at position `i`.
pub open spec fn int_at(vals: Seq<Term>, i: int) -> int {
    match vals[i] {
        Term::Integer(n) => n as int,
        _ => 0,
    }
}

/// The boolean at position `i`.
pub open spec fn bool_at(vals: Seq<Term>, i: int) -> bool {
    match vals[i] {
        Term::Boolean(b) => b,
        _ => false,
    }
}

/// Integer division that rounds toward zero.
pub open spec fn trunc_div(x: int, d: int) -> int {
    if x == 0 {
        0
    } else if x > 0 && d > 0 {
        x / d
    } else if x < 0 && d < 0 {
        (-x) / (-d)
    } else if x < 0 {
        -((-x) / d)
    } else {
        -(x / (-d))
    }
}

/// Whether `v` fits in a 64-bit signed integer.
pub open spec fn fits(v: int) -> bool {
    i64::MIN <= v <= i64::MAX
}

/// One step of an arithmetic fold, or the error it raises.
pub open spec fn arith_step(name: Seq<char>, a: int, b: int) -> Result<int, Fault> {
    let v = if name == "+"@ {
        a + b
    } else if name == "-"@ {
        a - b
    } else if name == "*"@ {
        a * b
    } else {
        trunc_div(a, b)
    };
    if name == "/"@ && b == 0 {
        Err(illegal("/", "Division by zero"))
    } else if !fits(v) {
        Err(Fault::IllegalArgument(name, "Integer overflow"@))
    } else {
        Ok(v)
    }
}

/// The left fold of an arithmetic operator over the first `n` integers:
/// `+` and `*` start from 0 and 1, `-` and `/` from the first argument.
pub open spec fn arith_fold(name: Seq<char>, vals: Seq<Term>, n: nat) -> Result<int, Fault>
    decreases n,
{
    if n == 0 {
        Ok(if name == "*"@ { 1int } else { 0int })
    } else if n == 1 && (name == "-"@ || name == "/"@) {
        Ok(int_at(vals, 0))
    } else {
        match arith_fold(name, vals, (n - 1) as nat) {
            Ok(a) => arith_step(name, a, int_at(vals, n - 1)),
            Err(e) => Err(e),
        }
    }
}

/// Whether `name` is one of `+ - * /`.
pub open spec fn is_arith(name: Seq<char>) -> bool {
    name == "+"@ || name == "-"@ || name == "*"@ || name == "/"@
}

/// Whether items `i` and `i + 1` are equal.
pub open spec fn pair_equal(vals: Seq<Term>, i: int) -> bool {
    vals[i] == vals[i + 1]
}

/// The ordering that a comparison operator checks.
pub open spec fn cmp_of(name: Seq<char>) -> Option<Cmp> {
    if name == "<"@ {
        Some(Cmp::Less)
    } else if name == "<="@ {
        Some(Cmp::LessEq)
    } else if name == ">"@ {
        Some(Cmp::Greater)
    } else if name == ">="@ {
        Some(Cmp::GreaterEq)
    } else {
        None
    }
}

/// Whether `name` is one of the built-in operators.
pub open spec fn is_builtin(name: Seq<char>) -> bool {
    is_arith(name) || cmp_of(name) is Some || name == "="@ || name == "!="@
        || name == "and"@ || name == "or"@ || name == "not"@
}

/// The result of the built-in operator `name` on evaluated arguments.
pub open spec fn apply_op(name: Seq<char>, vals: Seq<Term>) -> Result<Term, Fault> {
    if is_arith(name) {
        if !all_ints(vals) {
            Err(Fault::IllegalArgument(name, "All arguments must be numbers"@))
        } else {
            match arith_fold(name, vals, vals.len()) {
                Ok(v) => Ok(Term::Integer(v as i64)),
                Err(e) => Err(e),
            }
        }
    } else if cmp_of(name) is Some {
        compare_spec(vals, cmp_of(name).unwrap())
    } else if name == "="@ {
        Ok(Term::Boolean(forall|i: int| 0 <= i < vals.len() - 1 ==> #[trigger] pair_equal(vals, i)))
    } else if name == "!="@ {
        Ok(Term::Boolean(vals.len() > 0 && !(forall|i: int| 0 <= i < vals.len() ==> #[trigger] vals[i] == vals[0])))
    } else if name == "and"@ || name == "or"@ {
        if !all_bools(vals) {
            Err(Fault::IllegalArgument(name, "All arguments must be booleans"@))
        } else if name == "and"@ {
            Ok(Term::Boolean(forall|i: int| 0 <= i < vals.len() ==> bool_at(vals, i)))
        } else {
            Ok(Term::Boolean(exists|i: int| 0 <= i < vals.len() && bool_at(vals, i)))
        }
    } else if name == "not"@ {
        match vals[0] {
            Term::Boolean(b) => Ok(Term::Boolean(!b)),
            _ => Err(illegal("not", "Argument must be a boolean")),
        }
    } else {
        Err(Fault::Unimplemented)
    }
}

// ---------------------------------------------------------------------------
// Closures

/// Whether every item is a symbol.
pub open spec fn all_symbols(l: Seq<Term>) -> bool {
    forall|i: int| 0 <= i < l.len() ==> l[i] is Symbol
}

/// The names of a list of symbols.
pub open spec fn symbol_names(l: Seq<Term>) -> Seq<Seq<char>> {
    Seq::new(l.len(), |i: int| match l[i] {
        Term::Symbol(s) => s,
        _ => Seq::empty(),
    })
}

/// The closure that a form `(lambda (params...) (body...))` makes in frame `cur`.
pub open spec fn lambda_of(t: Term, cur: nat) -> Result<Term, Fault> {
    match t {
        Term::List(l) => {
            if l.len() != 3 {
                Err(Fault::ArgumentCount("lambda"@, 3))
            } else if l[0] != Term::Keyword("lambda"@) {
                Err(illegal("lambda", "Missing lambda"))
            } else {
                match l[1] {
                    Term::List(ps) => {
                        if !all_symbols(ps) {
                            Err(illegal("lambda", "Function arguments must be symbols"))
                        } else {
                            match l[2] {
                                Term::List(body) => Ok(Term::Lambda(symbol_names(ps), body, cur)),
                                _ => Err(illegal("lambda", "Function body must be an evaluable list")),
                            }
                        }
                    },
                    _ => Err(illegal("lambda", "Function arguments must be a list of symbols")),
                }
            }
        },
        _ => Err(illegal("defun", "Function must be a lambda form")),
    }
}

/// The first `n` parameters bound, in order, in the current frame.
pub open spec fn bind_all(s: Env, ps: Seq<Seq<char>>, vals: Seq<Term>, n: nat) -> Env
    decreases n,
{
    if n == 0 {
        s
    } else {
        bind_all(s, ps, vals, (n - 1) as nat).set(ps[n - 1], vals[n - 1])
    }
}

// ---------------------------------------------------------------------------
// Evaluation

/// What is left of the depth budget; every nested evaluation uses some.
pub open spec fn fuel(d: nat) -> int {
    MAX_RECURSION_DEPTH + 2 - d
}

/// Evaluates `l[i..]` left to right at depth `d`, threading the environment;
/// the first error ends the walk.
pub open spec fn eval_seq(l: Seq<Term>, i: nat, s: Env, d: nat) -> (Result<Seq<Term>, Fault>, Env)
    decreases fuel(d), l.len() - i,
{
    if i >= l.len() {
        (Ok(Seq::empty()), s)
    } else {
        let (r, s1) = eval(l[i as int], s, d);
        match r {
            Err(e) => (Err(e), s1),
            Ok(v) => {
                let (rest, s2) = eval_seq(l, i + 1, s1, d);
                match rest {
                    Err(e) => (Err(e), s2),
                    Ok(vs) => (Ok(seq![v] + vs), s2),
                }
            },
        }
    }
}

/// The result of evaluating `t` in environment `s` at depth `d`, and the
/// environment afterwards.
pub open spec fn eval(t: Term, s: Env, d: nat) -> (Result<Term, Fault>, Env)
    decreases fuel(d), 0int,
{
    if d > MAX_RECURSION_DEPTH {
        (Err(Fault::MaximumRecursionDepthReached(MAX_RECURSION_DEPTH as nat)), s)
    } else {
        match t {
            Term::List(l) => {
                if l.len() == 0 {
                    (Ok(Term::List(Seq::empty())), s)
                } else {
                    match l[0] {
                        Term::Op(name) => {
                            if l.len() < 2 {
                                (Err(Fault::ArgumentCount(name, 2)), s)
                            } else if !is_builtin(name) {
                                (Err(Fault::Unimplemented), s)
                            } else if name == "not"@ && l.len() != 2 {
                                (Err(Fault::ArgumentCount("not"@, 1)), s)
                            } else {
                                let (r, s1) = eval_seq(l, 1, s, d + 1);
                                match r {
                                    Err(e) => (Err(e), s1),
                                    Ok(vals) => (apply_op(name, vals), s1),
                                }
                            }
                        },
                        Term::If => {
                            if l.len() != 4 {
                                (Err(Fault::ArgumentCount("if"@, 4)), s)
                            } else {
                                let (c, s1) = eval(l[1], s, d + 1);
                                match c {
                                    Err(e) => (Err(e), s1),
                                    Ok(Term::Boolean(true)) => eval(l[2], s1, d + 1),
                                    Ok(Term::Boolean(false)) => eval(l[3], s1, d + 1),
                                    Ok(_) => (Err(illegal("if", "Condition must evaluate to bool")), s1),
                                }
                            }
                        },
                        Term::Keyword(k) => {
                            if k == "def"@ {
                                if l.len() != 3 {
                                    (Err(Fault::ArgumentCount("def"@, 3)), s)
                                } else {
                                    match l[1] {
                                        Term::Symbol(name) => {
                                            let (r, s1) = eval(l[2], s, d + 1);
                                            match r {
                                                Err(e) => (Err(e), s1),
                                                Ok(v) => (Ok(Term::NoOp), s1.set(name, v)),
                                            }
                                        },
                                        _ => (Err(illegal("def", "Variable name must be a symbol")), s),
                                    }
                                }
                            } else if k == "defun"@ {
                                if l.len() != 3 {
                                    (Err(Fault::ArgumentCount("defun"@, 3)), s)
                                } else {
                                    match l[1] {
                                        Term::Symbol(name) => match lambda_of(l[2], s.current) {
                                            Err(e) => (Err(e), s),
                                            Ok(c) => (Ok(Term::NoOp), s.set(name, c)),
                                        },
                                        _ => (Err(illegal("defun", "Function name must be a symbol")), s),
                                    }
                                }
                            } else if k == "lambda"@ {
                                (lambda_of(t, s.current), s)
                            } else if k == "print"@ {
                                if l.len() != 2 {
                                    (Err(Fault::ArgumentCount("print"@, 1)), s)
                                } else {
                                    let (r, s1) = eval(l[1], s, d + 1);
                                    match r {
                                        Err(e) => (Err(e), s1),
                                        Ok(v) => (Ok(v), s1.emit(render(v))),
                                    }
                                }
                            } else {
                                (Err(Fault::Unimplemented), s)
                            }
                        },
                        Term::Symbol(name) => match s.get(name) {
                            None => (Err(Fault::UndefinedFunction(name)), s),
                            Some(Term::Lambda(ps, body, cap)) => {
                                if l.len() - 1 != ps.len() {
                                    (Err(Fault::ArgumentCount(name, ps.len())), s)
                                } else {
                                    let (r, s1) = eval_seq(l, 1, s, d + 1);
                                    match r {
                                        Err(e) => (Err(e), s1),
                                        Ok(vals) => {
                                            let s2 = s1.push_frame(cap).with_current(s1.frames.len());
                                            let s3 = bind_all(s2, ps, vals, ps.len());
                                            let (res, s4) = eval(Term::List(body), s3, d + 1);
                                            (res, s4.with_current(s.current))
                                        },
                                    }
                                }
                            },
                            Some(_) => (Err(Fault::UndefinedFunction(name)), s),
                        },
                        _ => {
                            let (r, s1) = eval_seq(l, 0, s, d + 1);
                            match r {
                                Err(e) => (Err(e), s1),
                                Ok(vals) => (Ok(Term::List(vals)), s1),
                            }
                        },
                    }
                }
            },
            Term::Integer(n) => (Ok(Term::Integer(n)), s),
            Term::Boolean(b) => (Ok(Term::Boolean(b)), s),
            Term::Symbol(name) => match s.get(name) {
                None => (Err(Fault::UndefinedVariable(name)), s),
                Some(Term::Lambda(_, _, _)) => (Err(Fault::Unimplemented), s),
                Some(v) => (Ok(v), s),
            },
            Term::Lambda(_, _, _) => (Ok(Term::NoOp), s),
            _ => (Err(Fault::Unimplemented), s),
        }
    }
}

// ---------------------------------------------------------------------------
// Executable operators

/// The names of the built-in forms, spelled out.
proof fn lemma_names()
    ensures
        "+"@ == seq!['+'],
        "-"@ == seq!['-'],
        "*"@ == seq!['*'],
        "/"@ == seq!['/'],
        "<"@ == seq!['<'],
        "<="@ == seq!['<', '='],
        ">"@ == seq!['>'],
        ">="@ == seq!['>', '='],
        "="@ == seq!['='],
        "!="@ == seq!['!', '='],
        "and"@ == seq!['a', 'n', 'd'],
        "or"@ == seq!['o', 'r'],
        "not"@ == seq!['n', 'o', 't'],
        "def"@ == seq!['d', 'e', 'f'],
        "defun"@ == seq!['d', 'e', 'f', 'u', 'n'],
        "lambda"@ == seq!['l', 'a', 'm', 'b', 'd', 'a'],
        "print"@ == seq!['p', 'r', 'i', 'n', 't'],
{
    reveal_strlit("+");
    reveal_strlit("-");
    reveal_strlit("*");
    reveal_strlit("/");
    reveal_strlit("<");
    reveal_strlit("<=");
    reveal_strlit(">");
    reveal_strlit(">=");
    reveal_strlit("=");
    reveal_strlit("!=");
    reveal_strlit("and");
    reveal_strlit("or");
    reveal_strlit("not");
    reveal_strlit("def");
    reveal_strlit("defun");
    reveal_strlit("lambda");
    reveal_strlit("print");
    assert("+"@ =~= seq!['+']);
    assert("-"@ =~= seq!['-']);
    assert("*"@ =~= seq!['*']);
    assert("/"@ =~= seq!['/']);
    assert("<"@ =~= seq!['<']);
    assert("<="@ =~= seq!['<', '=']);
    assert(">"@ =~= seq!['>']);
    assert(">="@ =~= seq!['>', '=']);
    assert("="@ =~= seq!['=']);
    assert("!="@ =~= seq!['!', '=']);
    assert("and"@ =~= seq!['a', 'n', 'd']);
    assert("or"@ =~= seq!['o', 'r']);
    assert("not"@ =~= seq!['n', 'o', 't']);
    assert("def"@ =~= seq!['d', 'e', 'f']);
    assert("defun"@ =~= seq!['d', 'e', 'f', 'u', 'n']);
    assert("lambda"@ =~= seq!['l', 'a', 'm', 'b', 'd', 'a']);
    assert("print"@ =~= seq!['p', 'r', 'i', 'n', 't']);
}

/// The keywords differ from one another.
proof fn lemma_keyword_names()
    ensures
        "def"@ != "defun"@,
        "def"@ != "lambda"@,
        "def"@ != "print"@,
        "defun"@ != "lambda"@,
        "defun"@ != "print"@,
        "lambda"@ != "print"@,
{
    lemma_names();
    assert("def"@.len() == 3);
    assert("defun"@.len() == 5);
    assert("lambda"@.len() == 6);
    assert("print"@.len() == 5);
    assert("defun"@[0] != "print"@[0]);
}

/// The names of the arithmetic operators differ from one another.
proof fn lemma_arith_names()
    ensures
        "+"@ != "-"@,
        "+"@ != "*"@,
        "+"@ != "/"@,
        "-"@ != "*"@,
        "-"@ != "/"@,
        "*"@ != "/"@,
{
    lemma_names();
    assert(seq!['+'][0] != seq!['-'][0]);
    assert(seq!['+'][0] != seq!['*'][0]);
    assert(seq!['+'][0] != seq!['/'][0]);
    assert(seq!['-'][0] != seq!['*'][0]);
    assert(seq!['-'][0] != seq!['/'][0]);
    assert(seq!['*'][0] != seq!['/'][0]);
}

/// Once a prefix of an arithmetic fold fails, the whole fold fails the same way.
proof fn lemma_fold_err(name: Seq<char>, vals: Seq<Term>, k: nat, n: nat)
    requires
        1 <= k <= n,
        arith_fold(name, vals, k) is Err,
    ensures
        arith_fold(name, vals, n) == arith_fold(name, vals, k),
    decreases n - k,
{
    if n > k {
        lemma_fold_err(name, vals, k, (n - 1) as nat);
    }
}

/// Checks that every argument is an integer and collects them.
fn integers_of(vals: &Vec<Expr>) -> (r: Option<Vec<i64>>)
    ensures
        r is None <==> !all_ints(list_view(*vals)),
        r matches Some(v) ==> v.len() == vals.len()
            && forall|j: int| 0 <= j < v.len() ==> #[trigger] list_view(*vals)[j] == Term::Integer(v[j]),
{
    let ghost m = list_view(*vals);
    let mut ints: Vec<i64> = Vec::new();
    let mut i: usize = 0;
    while i < vals.len()
        invariant
            i <= vals.len(),
            m == list_view(*vals),
            m.len() == vals.len(),
            ints.len() == i,
            forall|j: int| 0 <= j < i ==> #[trigger] m[j] == Term::Integer(ints[j]),
        decreases vals.len() - i,
    {
        assert(m[i as int] == vals[i as int]@);
        match &vals[i] {
            Expr::Integer(n) => {
                assert(m[i as int] == Term::Integer(*n));
                ints.push(*n);
            },
            _ => {
                assert(!(m[i as int] is Integer));
                return None;
            },
        }
        i += 1;
    }
    Some(ints)
}

/// `+ - * /` folded over already evaluated arguments.
fn arithmetic(op: &'static str, vals: &Vec<Expr>) -> (r: Result<Expr, EvalError>)
    requires
        is_arith(op@),
    ensures
        res_view(r) == apply_op(op@, list_view(*vals)),
{
    let ghost m = list_view(*vals);
    let ints = match integers_of(vals) {
        Some(v) => v,
        None => {
            return Err(EvalError::IllegalArgument(op, "All arguments must be numbers"));
        },
    };
    proof {
        lemma_arith_names();
    }
    let add = same_text(op, "+");
    let sub = same_text(op, "-");
    let mul = same_text(op, "*");
    let div = !add && !sub && !mul;
    let mut acc: i64 = if mul { 1 } else { 0 };
    let mut i: usize = 0;
    while i < ints.len()
        invariant
            i <= ints.len(),
            ints.len() == m.len(),
            m == list_view(*vals),
            forall|j: int| 0 <= j < ints.len() ==> #[trigger] m[j] == Term::Integer(ints[j]),
            is_arith(op@),
            add == (op@ == "+"@),
            sub == (op@ == "-"@),
            mul == (op@ == "*"@),
            div == (op@ == "/"@),
            "+"@ != "-"@, "+"@ != "*"@, "+"@ != "/"@, "-"@ != "*"@, "-"@ != "/"@, "*"@ != "/"@,
            arith_fold(op@, m, i as nat) == Ok::<int, Fault>(acc as int),
        decreases ints.len() - i,
    {
        let v = ints[i];
        assert(int_at(m, i as int) == v as int);
        if i == 0 && (sub || div) {
            acc = v;
        } else {
            let next = if add {
                acc.checked_add(v)
            } else if sub {
                acc.checked_sub(v)
            } else if mul {
                acc.checked_mul(v)
            } else {
                if v == 0 {
                    proof {
                        lemma_fold_err(op@, m, (i + 1) as nat, m.len());
                    }
                    return Err(EvalError::IllegalArgument("/", "Division by zero"));
                }
                acc.checked_div(v)
            };
            match next {
                Some(x) => {
                    acc = x;
                },
                None => {
                    proof {
                        lemma_fold_err(op@, m, (i + 1) as nat, m.len());
                    }
                    return Err(EvalError::IllegalArgument(op, "Integer overflow"));
                },
            }
        }
        i += 1;
    }
    Ok(Expr::Integer(acc))
}

/// Whether every neighbouring pair of values is equal.
fn all_equal(vals: &Vec<Expr>) -> (r: bool)
    ensures
        r == forall|i: int| 0 <= i < list_view(*vals).len() - 1 ==> #[trigger] pair_equal(list_view(*vals), i),
{
    let ghost m = list_view(*vals);
    let mut k: usize = 1;
    while k < vals.len()
        invariant
            1 <= k,
            m == list_view(*vals),
            m.len() == vals.len(),
            forall|j: int| 0 <= j < k - 1 ==> #[trigger] pair_equal(m, j),
        decreases vals.len() - k,
    {
        if !vals[k - 1].same_as(&vals[k]) {
            assert(!pair_equal(m, k - 1));
            return false;
        }
        k += 1;
    }
    true
}

/// Whether some value differs from the first one.
fn any_differs(vals: &Vec<Expr>) -> (r: bool)
    ensures
        r == (list_view(*vals).len() > 0
            && !(forall|i: int| 0 <= i < list_view(*vals).len() ==> #[trigger] list_view(*vals)[i] == list_view(*vals)[0])),
{
    let ghost m = list_view(*vals);
    if vals.len() == 0 {
        return false;
    }
    let mut k: usize = 0;
    while k < vals.len()
        invariant
            m == list_view(*vals),
            m.len() == vals.len(),
            vals.len() > 0,
            forall|j: int| 0 <= j < k ==> #[trigger] m[j] == m[0],
        decreases vals.len() - k,
    {
        if !vals[k].same_as(&vals[0]) {
            assert(m[k as int] != m[0]);
            return true;
        }
        k += 1;
    }
    false
}

/// `and` and `or` folded over already evaluated arguments.
fn logic(op: &'static str, conj: bool, vals: &Vec<Expr>) -> (r: Result<Expr, EvalError>)
    requires
        conj ==> op@ == "and"@,
        !conj ==> op@ == "or"@,
    ensures
        res_view(r) == if !all_bools(list_view(*vals)) {
            Err(Fault::IllegalArgument(op@, "All arguments must be booleans"@))
        } else if conj {
            Ok(Term::Boolean(forall|i: int| 0 <= i < list_view(*vals).len() ==> bool_at(list_view(*vals), i)))
        } else {
            Ok(Term::Boolean(exists|i: int| 0 <= i < list_view(*vals).len() && bool_at(list_view(*vals), i)))
        },
{
    let ghost m = list_view(*vals);
    let mut i: usize = 0;
    let mut acc: bool = conj;
    while i < vals.len()
        invariant
            i <= vals.len(),
            m == list_view(*vals),
            m.len() == vals.len(),
            forall|j: int| 0 <= j < i ==> #[trigger] m[j] is Boolean,
            conj ==> (acc == forall|j: int| 0 <= j < i ==> bool_at(m, j)),
            !conj ==> (acc == exists|j: int| 0 <= j < i && bool_at(m, j)),
        decreases vals.len() - i,
    {
        assert(m[i as int] == vals[i as int]@);
        match &vals[i] {
            Expr::Boolean(b) => {
                assert(bool_at(m, i as int) == *b);
                if conj {
                    acc = acc && *b;
                } else {
                    acc = acc || *b;
                }
            },
            _ => {
                assert(!(m[i as int] is Boolean));
                return Err(EvalError::IllegalArgument(op, "All arguments must be booleans"));
            },
        }
        i += 1;
    }
    Ok(Expr::Boolean(acc))
}

/// The built-in operator `name` applied to already evaluated arguments.
fn apply_builtin(name: &String, vals: &Vec<Expr>) -> (r: Result<Expr, EvalError>)
    requires
        vals.len() >= 1,
    ensures
        res_view(r) == apply_op(name@, list_view(*vals)),
{
    let n = name.as_str();
    if same_text(n, "+") {
        arithmetic("+", vals)
    } else if same_text(n, "-") {
        arithmetic("-", vals)
    } else if same_text(n, "*") {
        arithmetic("*", vals)
    } else if same_text(n, "/") {
        arithmetic("/", vals)
    } else if same_text(n, "<") {
        compare_integers(vals, Cmp::Less)
    } else if same_text(n, "<=") {
        compare_integers(vals, Cmp::LessEq)
    } else if same_text(n, ">") {
        compare_integers(vals, Cmp::Greater)
    } else if same_text(n, ">=") {
        compare_integers(vals, Cmp::GreaterEq)
    } else if same_text(n, "=") {
        Ok(Expr::Boolean(all_equal(vals)))
    } else if same_text(n, "!=") {
        Ok(Expr::Boolean(any_differs(vals)))
    } else if same_text(n, "and") {
        logic("and", true, vals)
    } else if same_text(n, "or") {
        logic("or", false, vals)
    } else if same_text(n, "not") {
        let ghost m = list_view(*vals);
        assert(m[0] == vals[0]@);
        match &vals[0] {
            Expr::Boolean(b) => Ok(Expr::Boolean(!*b)),
            _ => Err(EvalError::IllegalArgument("not", "Argument must be a boolean")),
        }
    } else {
        Err(EvalError::Unimplemented)
    }
}

/// Whether `name` is one of the built-in operators.
fn is_builtin_name(name: &String) -> (r: bool)
    ensures
        r == is_builtin(name@),
{
    let n = name.as_str();
    same_text(n, "+") || same_text(n, "-") || same_text(n, "*") || same_text(n, "/")
        || same_text(n, "<") || same_text(n, "<=") || same_text(n, ">") || same_text(n, ">=")
        || same_text(n, "=") || same_text(n, "!=") || same_text(n, "and") || same_text(n, "or")
        || same_text(n, "not")
}

// ---------------------------------------------------------------------------
// The evaluator

/// The state that every evaluation step leaves behind.
pub open spec fn steps_to(before: Env, after: Env) -> bool {
    &&& after.wf()
    &&& after.current == before.current
    &&& before.frames.len() <= after.frames.len()
}

/// The values of a walk that began with the values `done`.
pub open spec fn prefixed(done: Seq<Term>, r: (Result<Seq<Term>, Fault>, Env)) -> (Result<Seq<Term>, Fault>, Env) {
    match r.0 {
        Ok(vs) => (Ok(done + vs), r.1),
        Err(e) => (Err(e), r.1),
    }
}

/// Evaluates `list[i..]` left to right at depth `depth`.
fn evaluate_from(list: &Vec<Expr>, i: usize, env: &mut PassableScope, depth: usize) -> (r: Result<Vec<Expr>, EvalError>)
    requires
        old(env)@.wf(),
        depth <= MAX_RECURSION_DEPTH + 1,
        i <= list.len(),
    ensures
        (vals_view(r), final(env)@) == eval_seq(list_view(*list), i as nat, old(env)@, depth as nat),
        steps_to(old(env)@, final(env)@),
    decreases fuel(depth as nat), 1int, 0int,
{
    let ghost m = list_view(*list);
    let ghost s0 = env@;
    let mut out: Vec<Expr> = Vec::new();
    let mut k: usize = i;
    assert(list_view(out) =~= Seq::<Term>::empty());
    assert(prefixed(Seq::empty(), eval_seq(m, i as nat, s0, depth as nat)) =~~= eval_seq(m, i as nat, s0, depth as nat));
    while k < list.len()
        invariant
            i <= k <= list.len(),
            m == list_view(*list),
            m.len() == list.len(),
            depth <= MAX_RECURSION_DEPTH + 1,
            env@.wf(),
            s0 == old(env)@,
            steps_to(s0, env@),
            eval_seq(m, i as nat, s0, depth as nat) == prefixed(list_view(out), eval_seq(m, k as nat, env@, depth as nat)),
        decreases list.len() - k,
    {
        assert(m[k as int] == list[k as int]@);
        let ghost before = list_view(out);
        let ghost sk = env@;
        let v = match evaluate_expr(&list[k], env, depth) {
            Ok(v) => v,
            Err(e) => {
                return Err(e);
            },
        };
        let ghost rest = eval_seq(m, (k + 1) as nat, env@, depth as nat);
        out.push(v);
        assert(list_view(out) =~= before.push(v@));
        assert(prefixed(before, eval_seq(m, k as nat, sk, depth as nat)) =~~= prefixed(list_view(out), rest)) by {
            if let Ok(vs) = rest.0 {
                assert(before + (seq![v@] + vs) =~= list_view(out) + vs);
            }
        }
        k += 1;
    }
    assert(list_view(out) + Seq::<Term>::empty() =~= list_view(out));
    Ok(out)
}

/// Evaluates an expression at depth `depth`.
fn evaluate_expr(expr: &Expr, env: &mut PassableScope, depth: usize) -> (r: Result<Expr, EvalError>)
    requires
        old(env)@.wf(),
    ensures
        (res_view(r), final(env)@) == eval(expr@, old(env)@, depth as nat),
        steps_to(old(env)@, final(env)@),
    decreases fuel(depth as nat), 0int, 3int,
{
    if depth > MAX_RECURSION_DEPTH {
        return Err(EvalError::MaximumRecursionDepthReached(MAX_RECURSION_DEPTH));
    }
    match expr {
        Expr::List(list) => {
            proof {
                lemma_list_view(*list);
            }
            evaluate_list(list, env, depth)
        },
        Expr::Integer(n) => Ok(Expr::Integer(*n)),
        Expr::Boolean(b) => Ok(Expr::Boolean(*b)),
        Expr::Symbol(name) => match env.get(name.as_str()) {
            None => Err(EvalError::UndefinedVariable(name.clone())),
            Some(Expr::Lambda(p, b, f)) => {
                proof {
                    lemma_lambda_view(p, b, f);
                }
                Err(EvalError::Unimplemented)
            },
            Some(v) => Ok(v),
        },
        Expr::Lambda(_, _, _) => Ok(Expr::NoOp),
        _ => Err(EvalError::Unimplemented),
    }
}

/// Evaluates a list expression at depth `depth`.
fn evaluate_list(list: &Vec<Expr>, env: &mut PassableScope, depth: usize) -> (r: Result<Expr, EvalError>)
    requires
        old(env)@.wf(),
        depth <= MAX_RECURSION_DEPTH,
    ensures
        (res_view(r), final(env)@) == eval(Term::List(list_view(*list)), old(env)@, depth as nat),
        steps_to(old(env)@, final(env)@),
    decreases fuel(depth as nat), 0int, 2int,
{
    let ghost m = list_view(*list);
    if list.len() == 0 {
        let r: Vec<Expr> = Vec::new();
        proof {
            lemma_list_view(r);
        }
        assert(list_view(r) =~= Seq::<Term>::empty());
        return Ok(Expr::List(r));
    }
    assert(m[0] == list[0]@);
    match &list[0] {
        Expr::Op(_) => evaluate_binary_op(list, env, depth),
        Expr::If => {
            if list.len() != 4 {
                return Err(EvalError::ArgumentCount(String::from_str("if"), 4));
            }
            assert(m[1] == list[1]@);
            assert(m[2] == list[2]@);
            assert(m[3] == list[3]@);
            let c = match evaluate_expr(&list[1], env, depth + 1) {
                Ok(c) => c,
                Err(e) => {
                    return Err(e);
                },
            };
            match c {
                Expr::Boolean(true) => evaluate_expr(&list[2], env, depth + 1),
                Expr::Boolean(false) => evaluate_expr(&list[3], env, depth + 1),
                _ => Err(EvalError::IllegalArgument("if", "Condition must evaluate to bool")),
            }
        },
        Expr::Keyword(_) => evaluate_keyword(list, env, depth),
        Expr::Symbol(_) => evaluate_call(list, env, depth),
        _ => {
            match evaluate_from(list, 0, env, depth + 1) {
                Err(e) => Err(e),
                Ok(vals) => {
                    proof {
                        lemma_list_view(vals);
                    }
                    Ok(Expr::List(vals))
                },
            }
        },
    }
}

/// Evaluates a call of a built-in operator.
fn evaluate_binary_op(list: &Vec<Expr>, env: &mut PassableScope, depth: usize) -> (r: Result<Expr, EvalError>)
    requires
        old(env)@.wf(),
        depth <= MAX_RECURSION_DEPTH,
        list.len() >= 1,
        list[0] is Op,
    ensures
        (res_view(r), final(env)@) == eval(Term::List(list_view(*list)), old(env)@, depth as nat),
        steps_to(old(env)@, final(env)@),
    decreases fuel(depth as nat), 0int, 0int,
{
    let ghost m = list_view(*list);
    assert(m[0] == list[0]@);
    let name = match &list[0] {
        Expr::Op(name) => name,
        _ => {
            return Err(EvalError::Unreachable);
        },
    };
    if list.len() < 2 {
        return Err(EvalError::ArgumentCount(name.clone(), 2));
    }
    if !is_builtin_name(name) {
        return Err(EvalError::Unimplemented);
    }
    if same_text(name.as_str(), "not") && list.len() != 2 {
        return Err(EvalError::ArgumentCount(String::from_str("not"), 1));
    }
    match evaluate_from(list, 1, env, depth + 1) {
        Err(e) => Err(e),
        Ok(vals) => {
            assert(list_view(vals).len() == m.len() - 1) by {
                lemma_seq_len(m, 1, old(env)@, (depth + 1) as nat);
            }
            apply_builtin(name, &vals)
        },
    }
}

/// `eval_seq` yields one value for each remaining item.
proof fn lemma_seq_len(l: Seq<Term>, i: nat, s: Env, d: nat)
    requires
        i <= l.len(),
    ensures
        eval_seq(l, i, s, d).0 matches Ok(vs) ==> vs.len() == l.len() - i,
    decreases l.len() - i,
{
    if i < l.len() {
        let (r, s1) = eval(l[i as int], s, d);
        if r is Ok {
            lemma_seq_len(l, i + 1, s1, d);
        }
    }
}

/// Evaluates a form headed by a keyword: `def`, `defun`, `lambda` or `print`.
fn evaluate_keyword(list: &Vec<Expr>, env: &mut PassableScope, depth: usize) -> (r: Result<Expr, EvalError>)
    requires
        old(env)@.wf(),
        depth <= MAX_RECURSION_DEPTH,
        list.len() >= 1,
        list[0] is Keyword,
    ensures
        (res_view(r), final(env)@) == eval(Term::List(list_view(*list)), old(env)@, depth as nat),
        steps_to(old(env)@, final(env)@),
    decreases fuel(depth as nat), 0int, 1int,
{
    let ghost m = list_view(*list);
    assert(m[0] == list[0]@);
    let k = match &list[0] {
        Expr::Keyword(k) => k.as_str(),
        _ => {
            return Err(EvalError::Unreachable);
        },
    };
    if same_text(k, "def") {
        evaluate_def(list, env, depth)
    } else if same_text(k, "defun") {
        evaluate_defun(list, env)
    } else if same_text(k, "lambda") {
        let items = copy_list(list);
        proof {
            lemma_list_view(items);
        }
        let whole = Expr::List(items);
        evaluate_lambda(&whole, env)
    } else if same_text(k, "print") {
        evaluate_print(list, env, depth)
    } else {
        Err(EvalError::Unimplemented)
    }
}

/// Evaluates `(def name value)`: binds the value in the current frame.
fn evaluate_def(list: &Vec<Expr>, env: &mut PassableScope, depth: usize) -> (r: Result<Expr, EvalError>)
    requires
        old(env)@.wf(),
        depth <= MAX_RECURSION_DEPTH,
        list.len() >= 1,
        list[0]@ == Term::Keyword("def"@),
    ensures
        (res_view(r), final(env)@) == eval(Term::List(list_view(*list)), old(env)@, depth as nat),
        steps_to(old(env)@, final(env)@),
    decreases fuel(depth as nat), 0int, 0int,
{
    let ghost m = list_view(*list);
    assert(m[0] == list[0]@);
    if list.len() != 3 {
        return Err(EvalError::ArgumentCount(String::from_str("def"), 3));
    }
    assert(m[1] == list[1]@);
    assert(m[2] == list[2]@);
    let name = match &list[1] {
        Expr::Symbol(name) => name.clone(),
        _ => {
            return Err(EvalError::IllegalArgument("def", "Variable name must be a symbol"));
        },
    };
    let value = match evaluate_expr(&list[2], env, depth + 1) {
        Ok(v) => v,
        Err(e) => {
            return Err(e);
        },
    };
    env.set(name, value);
    Ok(Expr::NoOp)
}

/// Evaluates `(defun name (lambda ...))`: binds the closure in the current frame.
fn evaluate_defun(list: &Vec<Expr>, env: &mut PassableScope) -> (r: Result<Expr, EvalError>)
    requires
        old(env)@.wf(),
        list.len() >= 1,
        list[0]@ == Term::Keyword("defun"@),
    ensures
        forall|d: nat| d <= MAX_RECURSION_DEPTH ==>
            (res_view(r), final(env)@) == #[trigger] eval(Term::List(list_view(*list)), old(env)@, d),
        steps_to(old(env)@, final(env)@),
{
    let ghost m = list_view(*list);
    assert(m[0] == list[0]@);
    proof {
        lemma_keyword_names();
    }
    if list.len() != 3 {
        return Err(EvalError::ArgumentCount(String::from_str("defun"), 3));
    }
    assert(m[1] == list[1]@);
    assert(m[2] == list[2]@);
    let name = match &list[1] {
        Expr::Symbol(name) => name.clone(),
        _ => {
            return Err(EvalError::IllegalArgument("defun", "Function name must be a symbol"));
        },
    };
    let closure = match evaluate_lambda(&list[2], env) {
        Ok(c) => c,
        Err(e) => {
            return Err(e);
        },
    };
    env.set(name, closure);
    Ok(Expr::NoOp)
}

/// The names in a list of symbols, or `None` when an item is not a symbol.
fn symbol_list(ps: &Vec<Expr>) -> (r: Option<Vec<String>>)
    ensures
        r is None <==> !all_symbols(list_view(*ps)),
        r matches Some(names) ==> names_view(names) == symbol_names(list_view(*ps)),
{
    let ghost pm = list_view(*ps);
    let mut names: Vec<String> = Vec::new();
    let mut i: usize = 0;
    while i < ps.len()
        invariant
            i <= ps.len(),
            pm == list_view(*ps),
            pm.len() == ps.len(),
            names.len() == i,
            forall|j: int| 0 <= j < i ==> #[trigger] pm[j] == Term::Symbol(names[j]@),
        decreases ps.len() - i,
    {
        assert(pm[i as int] == ps[i as int]@);
        match &ps[i] {
            Expr::Symbol(p) => {
                names.push(p.clone());
            },
            _ => {
                assert(!all_symbols(pm));
                return None;
            },
        }
        i += 1;
    }
    assert(all_symbols(pm));
    assert(names_view(names) =~= symbol_names(pm));
    Some(names)
}

/// Builds the closure of a form `(lambda (params...) (body...))`, capturing
/// the current frame.
fn evaluate_lambda(expr: &Expr, env: &PassableScope) -> (r: Result<Expr, EvalError>)
    ensures
        res_view(r) == lambda_of(expr@, env@.current),
{
    let list = match expr {
        Expr::List(l) => l,
        _ => {
            return Err(EvalError::IllegalArgument("defun", "Function must be a lambda form"));
        },
    };
    proof {
        lemma_list_view(*list);
    }
    let ghost m = list_view(*list);
    if list.len() != 3 {
        return Err(EvalError::ArgumentCount(String::from_str("lambda"), 3));
    }
    assert(m[0] == list[0]@);
    assert(m[1] == list[1]@);
    assert(m[2] == list[2]@);
    let is_lambda = match &list[0] {
        Expr::Keyword(k) => same_text(k.as_str(), "lambda"),
        _ => false,
    };
    if !is_lambda {
        return Err(EvalError::IllegalArgument("lambda", "Missing lambda"));
    }
    let params = match &list[1] {
        Expr::List(ps) => {
            proof {
                lemma_list_view(*ps);
            }
            match symbol_list(ps) {
                Some(names) => names,
                None => {
                    return Err(EvalError::IllegalArgument("lambda", "Function arguments must be symbols"));
                },
            }
        },
        _ => {
            return Err(EvalError::IllegalArgument("lambda", "Function arguments must be a list of symbols"));
        },
    };
    let body = match &list[2] {
        Expr::List(b) => {
            proof {
                lemma_list_view(*b);
            }
            copy_list(b)
        },
        _ => {
            return Err(EvalError::IllegalArgument("lambda", "Function body must be an evaluable list"));
        },
    };
    let cur = env.current_frame();
    proof {
        lemma_lambda_view(params, body, cur);
    }
    Ok(Expr::Lambda(params, body, cur))
}

/// Evaluates `(print value)`: records the value's text and returns the value.
fn evaluate_print(list: &Vec<Expr>, env: &mut PassableScope, depth: usize) -> (r: Result<Expr, EvalError>)
    requires
        old(env)@.wf(),
        depth <= MAX_RECURSION_DEPTH,
        list.len() >= 1,
        list[0]@ == Term::Keyword("print"@),
    ensures
        (res_view(r), final(env)@) == eval(Term::List(list_view(*list)), old(env)@, depth as nat),
        steps_to(old(env)@, final(env)@),
    decreases fuel(depth as nat), 0int, 0int,
{
    let ghost m = list_view(*list);
    assert(m[0] == list[0]@);
    proof {
        lemma_keyword_names();
    }
    if list.len() != 2 {
        return Err(EvalError::ArgumentCount(String::from_str("print"), 1));
    }
    assert(m[1] == list[1]@);
    let v = match evaluate_expr(&list[1], env, depth + 1) {
        Ok(v) => v,
        Err(e) => {
            return Err(e);
        },
    };
    env.emit(render_expr(&v));
    Ok(v)
}

/// Calls the closure bound to the list's head with the evaluated arguments.
fn evaluate_call(list: &Vec<Expr>, env: &mut PassableScope, depth: usize) -> (r: Result<Expr, EvalError>)
    requires
        old(env)@.wf(),
        depth <= MAX_RECURSION_DEPTH,
        list.len() >= 1,
        list[0] is Symbol,
    ensures
        (res_view(r), final(env)@) == eval(Term::List(list_view(*list)), old(env)@, depth as nat),
        steps_to(old(env)@, final(env)@),
    decreases fuel(depth as nat), 0int, 0int,
{
    let ghost m = list_view(*list);
    let ghost s0 = env@;
    assert(m[0] == list[0]@);
    let name = match &list[0] {
        Expr::Symbol(name) => name,
        _ => {
            return Err(EvalError::Unreachable);
        },
    };
    let (params, body, cap) = match env.get(name.as_str()) {
        None => {
            return Err(EvalError::UndefinedFunction(name.clone()));
        },
        Some(Expr::Lambda(p, b, f)) => {
            proof {
                lemma_lambda_view(p, b, f);
            }
            (p, b, f)
        },
        Some(_) => {
            return Err(EvalError::UndefinedFunction(name.clone()));
        },
    };
    if list.len() - 1 != params.len() {
        return Err(EvalError::ArgumentCount(name.clone(), params.len()));
    }
    let vals = match evaluate_from(list, 1, env, depth + 1) {
        Ok(v) => v,
        Err(e) => {
            return Err(e);
        },
    };
    proof {
        lemma_seq_len(m, 1, s0, (depth + 1) as nat);
    }
    let ghost s1 = env@;
    let caller = env.current_frame();
    env.enter(cap);
    let ghost s2 = env@;
    let ghost pv = names_view(params);
    let ghost vv = list_view(vals);
    let mut i: usize = 0;
    while i < params.len()
        invariant
            i <= params.len(),
            params.len() == vals.len(),
            pv == names_view(params),
            vv == list_view(vals),
            env@ == bind_all(s2, pv, vv, i as nat),
            env@.wf(),
            env@.current == s1.frames.len(),
            env@.frames.len() == s1.frames.len() + 1,
        decreases params.len() - i,
    {
        env.set(params[i].clone(), vals[i].deep_copy());
        i += 1;
    }
    let body_expr = Expr::List(body);
    proof {
        lemma_list_view(body);
    }
    let r = evaluate_expr(&body_expr, env, depth + 1);
    env.restore(caller);
    r
}

/// Evaluates an expression in an environment, starting at depth zero.
pub fn evaluate(expr: &Expr, env: &mut PassableScope) -> (r: Result<Expr, EvalError>)
    requires
        old(env)@.wf(),
    ensures
        (res_view(r), final(env)@) == eval(expr@, old(env)@, 0),
        steps_to(old(env)@, final(env)@),
{
    evaluate_expr(expr, env, 0)
}

/// The message that describes an error to a person.
pub open spec fn fault_text(f: Fault) -> Seq<char> {
    match f {
        Fault::UndefinedVariable(name) => "Undefined variable: "@ + name,
        Fault::UndefinedFunction(name) => "Undefined function: "@ + name,
        Fault::ArgumentCount(name, n) => "Invalid argument count for "@ + name + ", "@ + nat_text(n) + " needed"@,
        Fault::IllegalArgument(name, why) => "Illegal argument in "@ + name + ": "@ + why,
        Fault::Unimplemented => "Internal error (Unimplemented)"@,
        Fault::MaximumRecursionDepthReached(n) => "Maximum recursion depth ("@ + nat_text(n) + ") exceeded"@,
        Fault::Unreachable => "Internal error (Unreachable)"@,
        Fault::Internal => "Internal error"@,
    }
}

impl EvalError {
    /// A message for a person.
    pub fn message(&self) -> (r: String)
        ensures
            r@ == fault_text(self@),
    {
        match self {
            EvalError::UndefinedVariable(name) => String::from_str("Undefined variable: ").concat(name.as_str()),
            EvalError::UndefinedFunction(name) => String::from_str("Undefined function: ").concat(name.as_str()),
            EvalError::ArgumentCount(name, n) => {
                let count = nat_to_text(*n as u64);
                String::from_str("Invalid argument count for ").concat(name.as_str()).concat(", ").concat(
                    count.as_str(),
                ).concat(" needed")
            },
            EvalError::IllegalArgument(name, why) => String::from_str("Illegal argument in ").concat(*name).concat(
                ": ",
            ).concat(*why),
            EvalError::Unimplemented => String::from_str("Internal error (Unimplemented)"),
            EvalError::MaximumRecursionDepthReached(n) => {
                let count = nat_to_text(*n as u64);
                String::from_str("Maximum recursion depth (").concat(count.as_str()).concat(") exceeded")
            },
            EvalError::Unreachable => String::from_str("Internal error (Unreachable)"),
            EvalError::Internal => String::from_str("Internal error"),
        }
    }
}

} // verus!

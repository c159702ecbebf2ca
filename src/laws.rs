//! Laws of the language, proved from the semantics.

use vstd::prelude::*;
use crate::expr::Term;
use crate::scope::{Env, FrameView, lookup, key_index, assign};
use crate::eval::{eval, eval_seq, bind_all, fuel, apply_op, arith_fold, arith_step, is_builtin, fits, trunc_div, Fault, illegal, MAX_RECURSION_DEPTH};

verus! {

/// The form `(op a b)` on two integer literals.
pub open spec fn binary(op: Seq<char>, a: i64, b: i64) -> Term {
    Term::List(seq![Term::Op(op), Term::Integer(a), Term::Integer(b)])
}

/// An integer result, or the overflow error of operator `op`.
pub open spec fn int_result(v: int, op: Seq<char>) -> Result<Term, Fault> {
    if fits(v) {
        Ok(Term::Integer(v as i64))
    } else {
        Err(Fault::IllegalArgument(op, "Integer overflow"@))
    }
}

proof fn lemma_binary(op: Seq<char>, a: i64, b: i64, s: Env)
    requires
        is_builtin(op),
        op != "not"@,
    ensures
        eval(binary(op, a, b), s, 0) == (apply_op(op, seq![Term::Integer(a), Term::Integer(b)]), s),
{
    let l = seq![Term::Op(op), Term::Integer(a), Term::Integer(b)];
    assert(l.len() == 3);
    assert(l[0] == Term::Op(op));
    assert(l[1] == Term::Integer(a));
    assert(l[2] == Term::Integer(b));
    assert(eval(Term::Integer(a), s, 1) == (Ok::<Term, Fault>(Term::Integer(a)), s));
    assert(eval(Term::Integer(b), s, 1) == (Ok::<Term, Fault>(Term::Integer(b)), s));
    assert(eval_seq(l, 3, s, 1) == (Ok::<Seq<Term>, Fault>(Seq::empty()), s));
    assert(seq![Term::Integer(b)] + Seq::<Term>::empty() =~= seq![Term::Integer(b)]);
    assert(eval_seq(l, 2, s, 1) == (Ok::<Seq<Term>, Fault>(seq![Term::Integer(b)]), s));
    assert(seq![Term::Integer(a)] + seq![Term::Integer(b)] =~= seq![Term::Integer(a), Term::Integer(b)]);
    assert(eval_seq(l, 1, s, 1) == (Ok::<Seq<Term>, Fault>(seq![Term::Integer(a), Term::Integer(b)]), s));
}

proof fn lemma_op_names()
    ensures
        "+"@ != "-"@, "+"@ != "*"@, "+"@ != "/"@, "-"@ != "*"@, "-"@ != "/"@, "*"@ != "/"@,
        "+"@ != "not"@, "-"@ != "not"@, "*"@ != "not"@, "/"@ != "not"@,
{
    reveal_strlit("+");
    reveal_strlit("-");
    reveal_strlit("*");
    reveal_strlit("/");
    reveal_strlit("not");
    assert("+"@[0] != "-"@[0]);
    assert("+"@[0] != "*"@[0]);
    assert("+"@[0] != "/"@[0]);
    assert("-"@[0] != "*"@[0]);
    assert("-"@[0] != "/"@[0]);
    assert("*"@[0] != "/"@[0]);
}

/// For all integers `a` and `b`: `(+ a b)` is `a + b`, `(- a b)` is `a - b`,
/// `(* a b)` is `a * b`, and `(/ a b)` with `b` not zero is the quotient
/// rounded toward zero. A result that does not fit in 64 bits, and a
/// division by zero, is a reported error. The environment is left as it was.
pub proof fn law_arithmetic(a: i64, b: i64, s: Env)
    ensures
        eval(binary("+"@, a, b), s, 0) == (int_result(a + b, "+"@), s),
        eval(binary("-"@, a, b), s, 0) == (int_result(a - b, "-"@), s),
        eval(binary("*"@, a, b), s, 0) == (int_result(a * b, "*"@), s),
        b != 0 ==> eval(binary("/"@, a, b), s, 0) == (int_result(trunc_div(a as int, b as int), "/"@), s),
        b == 0 ==> eval(binary("/"@, a, b), s, 0) == (Err::<Term, Fault>(illegal("/", "Division by zero")), s),
{
    lemma_op_names();
    let vals = seq![Term::Integer(a), Term::Integer(b)];
    lemma_binary("+"@, a, b, s);
    lemma_binary("-"@, a, b, s);
    lemma_binary("*"@, a, b, s);
    lemma_binary("/"@, a, b, s);
    assert(vals[0] == Term::Integer(a));
    assert(vals[1] == Term::Integer(b));
    assert(arith_fold("+"@, vals, 0) == Ok::<int, Fault>(0));
    assert(arith_fold("*"@, vals, 0) == Ok::<int, Fault>(1));
    assert(arith_fold("+"@, vals, 1) == arith_step("+"@, 0, a as int));
    assert(arith_fold("*"@, vals, 1) == arith_step("*"@, 1, a as int));
    assert(arith_fold("-"@, vals, 1) == Ok::<int, Fault>(a as int));
    assert(arith_fold("/"@, vals, 1) == Ok::<int, Fault>(a as int));
}

/// `(if true x y)` evaluates `x` alone and `(if false x y)` evaluates `y`
/// alone: the other branch is never evaluated, so none of its effects
/// (a `print`, a `def`) happens.
pub proof fn law_if_branch(x: Term, y: Term, s: Env, d: nat)
    requires
        d < MAX_RECURSION_DEPTH,
    ensures
        eval(Term::List(seq![Term::If, Term::Boolean(true), x, y]), s, d) == eval(x, s, d + 1),
        eval(Term::List(seq![Term::If, Term::Boolean(false), x, y]), s, d) == eval(y, s, d + 1),
{
    let lt = seq![Term::If, Term::Boolean(true), x, y];
    let lf = seq![Term::If, Term::Boolean(false), x, y];
    assert(lt.len() == 4 && lt[0] == Term::If && lt[1] == Term::Boolean(true) && lt[2] == x);
    assert(lf.len() == 4 && lf[0] == Term::If && lf[1] == Term::Boolean(false) && lf[3] == y);
    assert(eval(Term::Boolean(true), s, d + 1) == (Ok::<Term, Fault>(Term::Boolean(true)), s));
    assert(eval(Term::Boolean(false), s, d + 1) == (Ok::<Term, Fault>(Term::Boolean(false)), s));
}

/// Adding a frame changes no lookup that starts in an older frame.
proof fn lemma_lookup_push(frames: Seq<FrameView>, x: FrameView, i: int, name: Seq<char>)
    requires
        0 <= i < frames.len(),
    ensures
        lookup(frames.push(x), i, name) == lookup(frames, i, name),
    decreases i,
{
    assert(frames.push(x)[i] == frames[i]);
    if let Some(p) = frames[i].parent {
        if p < i {
            lemma_lookup_push(frames, x, p as int, name);
        }
    }
}

/// The closure `(lambda () (f))`, which calls `f` and nothing else.
pub open spec fn self_call(f: Seq<char>, cap: nat) -> Term {
    Term::Lambda(Seq::empty(), seq![Term::Symbol(f)], cap)
}

/// A closure that only calls itself never returns a value: whatever the
/// depth the call starts at, it ends with the recursion-limit error.
pub proof fn law_runaway_recursion(f: Seq<char>, cap: nat, s: Env, d: nat)
    requires
        cap < s.frames.len(),
        s.get(f) == Some(self_call(f, cap)),
        lookup(s.frames, cap as int, f) == Some(self_call(f, cap)),
        d <= MAX_RECURSION_DEPTH + 1,
    ensures
        eval(Term::List(seq![Term::Symbol(f)]), s, d).0
            == Err::<Term, Fault>(Fault::MaximumRecursionDepthReached(MAX_RECURSION_DEPTH as nat)),
    decreases MAX_RECURSION_DEPTH + 1 - d,
{
    let l = seq![Term::Symbol(f)];
    assert(l.len() == 1 && l[0] == Term::Symbol(f));
    if d <= MAX_RECURSION_DEPTH {
        assert(eval_seq(l, 1, s, d + 1) == (Ok::<Seq<Term>, Fault>(Seq::empty()), s));
        let s2 = s.push_frame(cap).with_current(s.frames.len());
        assert(bind_all(s2, Seq::empty(), Seq::empty(), 0) == s2);
        let fresh = FrameView { entities: Seq::empty(), parent: Some(cap) };
        assert(s2.frames == s.frames.push(fresh));
        lemma_lookup_push(s.frames, fresh, cap as int, f);
        assert(key_index(fresh.entities, f, 0) is None);
        assert(s2.get(f) == lookup(s2.frames, cap as int, f));
        law_runaway_recursion(f, cap, s2, d + 1);
    }
}

/// Evaluation keeps the current frame and never removes a frame.
proof fn lemma_eval_keeps(t: Term, s: Env, d: nat)
    requires
        s.current < s.frames.len(),
    ensures
        eval(t, s, d).1.current == s.current,
        s.frames.len() <= eval(t, s, d).1.frames.len(),
    decreases fuel(d), 0int,
{
    if d <= MAX_RECURSION_DEPTH {
        if let Term::List(l) = t {
            if l.len() > 0 {
                match l[0] {
                    Term::Op(_) => {
                        if l.len() >= 2 {
                            lemma_seq_keeps(l, 1, s, d + 1);
                        }
                    },
                    Term::If => {
                        if l.len() == 4 {
                            lemma_eval_keeps(l[1], s, d + 1);
                            let s1 = eval(l[1], s, d + 1).1;
                            lemma_eval_keeps(l[2], s1, d + 1);
                            lemma_eval_keeps(l[3], s1, d + 1);
                        }
                    },
                    Term::Keyword(_) => {
                        if l.len() >= 2 {
                            lemma_eval_keeps(l[1], s, d + 1);
                        }
                        if l.len() >= 3 {
                            lemma_eval_keeps(l[2], s, d + 1);
                        }
                    },
                    Term::Symbol(name) => {
                        lemma_seq_keeps(l, 1, s, d + 1);
                        if let Some(Term::Lambda(ps, body, cap)) = s.get(name) {
                            let (r, s1) = eval_seq(l, 1, s, d + 1);
                            if let Ok(vals) = r {
                                let s2 = s1.push_frame(cap).with_current(s1.frames.len());
                                lemma_bind_keeps(s2, ps, vals, ps.len());
                                let s3 = bind_all(s2, ps, vals, ps.len());
                                lemma_eval_keeps(Term::List(body), s3, d + 1);
                            }
                        }
                    },
                    _ => {
                        lemma_seq_keeps(l, 0, s, d + 1);
                    },
                }
            }
        }
    }
}

proof fn lemma_seq_keeps(l: Seq<Term>, i: nat, s: Env, d: nat)
    requires
        s.current < s.frames.len(),
    ensures
        eval_seq(l, i, s, d).1.current == s.current,
        s.frames.len() <= eval_seq(l, i, s, d).1.frames.len(),
    decreases fuel(d), l.len() - i,
{
    if i < l.len() {
        lemma_eval_keeps(l[i as int], s, d);
        let s1 = eval(l[i as int], s, d).1;
        lemma_seq_keeps(l, i + 1, s1, d);
    }
}

proof fn lemma_bind_keeps(s: Env, ps: Seq<Seq<char>>, vals: Seq<Term>, n: nat)
    requires
        s.current < s.frames.len(),
    ensures
        bind_all(s, ps, vals, n).current == s.current,
        bind_all(s, ps, vals, n).frames.len() == s.frames.len(),
    decreases n,
{
    if n > 0 {
        lemma_bind_keeps(s, ps, vals, (n - 1) as nat);
    }
}

proof fn lemma_key_update(ents: Seq<(Seq<char>, Term)>, name: Seq<char>, v: Term, k: nat, i: nat)
    requires
        i <= k < ents.len(),
        key_index(ents, name, i) == Some(k),
    ensures
        key_index(ents.update(k as int, (name, v)), name, i) == Some(k),
    decreases k - i,
{
    if i < k {
        lemma_key_update(ents, name, v, k, i + 1);
    }
}

proof fn lemma_key_push(ents: Seq<(Seq<char>, Term)>, name: Seq<char>, v: Term, i: nat)
    requires
        i <= ents.len(),
        key_index(ents, name, i) is None,
    ensures
        key_index(ents.push((name, v)), name, i) == Some(ents.len()),
    decreases ents.len() - i,
{
    if i < ents.len() {
        lemma_key_push(ents, name, v, i + 1);
    }
}

/// A name bound in the current frame is found there at once.
pub proof fn lemma_get_after_set(s: Env, name: Seq<char>, v: Term)
    requires
        s.current < s.frames.len(),
    ensures
        s.set(name, v).get(name) == Some(v),
{
    let ents = s.frames[s.current as int].entities;
    match key_index(ents, name, 0) {
        Some(k) => {
            lemma_key_index_bound(ents, name, 0);
            lemma_key_update(ents, name, v, k, 0);
        },
        None => {
            lemma_key_push(ents, name, v, 0);
        },
    }
}

proof fn lemma_key_index_bound(ents: Seq<(Seq<char>, Term)>, name: Seq<char>, i: nat)
    ensures
        key_index(ents, name, i) matches Some(k) ==> i <= k < ents.len(),
    decreases ents.len() - i,
{
    if i < ents.len() {
        lemma_key_index_bound(ents, name, i + 1);
    }
}

/// The form `(def name e)`.
pub open spec fn def_form(name: Seq<char>, e: Term) -> Term {
    Term::List(seq![Term::Keyword("def"@), Term::Symbol(name), e])
}

/// A definition persists: once `(def name e)` has given `name` the value of
/// `e`, any later evaluation of `name` in the environment it left behind
/// gives that value (a closure excepted: it can only be called).
pub proof fn law_definition_persists(name: Seq<char>, e: Term, s: Env, d: nat, later: nat)
    requires
        s.current < s.frames.len(),
        d < MAX_RECURSION_DEPTH,
        later <= MAX_RECURSION_DEPTH,
    ensures
        eval(e, s, d + 1).0 matches Ok(v) ==> (eval(def_form(name, e), s, d).0 == Ok::<Term, Fault>(Term::NoOp)
            && (!(v is Lambda) ==> eval(Term::Symbol(name), eval(def_form(name, e), s, d).1, later).0
                == Ok::<Term, Fault>(v))),
{
    let l = seq![Term::Keyword("def"@), Term::Symbol(name), e];
    assert(l.len() == 3 && l[0] == Term::Keyword("def"@) && l[1] == Term::Symbol(name) && l[2] == e);
    lemma_eval_keeps(e, s, d + 1);
    let (r, s1) = eval(e, s, d + 1);
    if let Ok(v) = r {
        lemma_get_after_set(s1, name, v);
    }
}

/// Closures are lexically scoped and see their frame as it is now: the
/// frame that a call of a closure without parameters runs in resolves every
/// name exactly as the captured frame does at the time of the call, so a
/// later `def` in that frame is seen, and the caller's frames are not
/// consulted.
pub proof fn law_call_scope(s: Env, cap: nat, name: Seq<char>)
    requires
        cap < s.frames.len(),
    ensures
        s.push_frame(cap).with_current(s.frames.len()).get(name) == lookup(s.frames, cap as int, name),
{
    let fresh = FrameView { entities: Seq::empty(), parent: Some(cap) };
    assert(s.push_frame(cap).frames == s.frames.push(fresh));
    lemma_lookup_push(s.frames, fresh, cap as int, name);
    assert(key_index(fresh.entities, name, 0) is None);
}

} // verus!

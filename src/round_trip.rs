//! Rendering a value and reading the text back gives the value again.

use vstd::prelude::*;
use crate::expr::Term;
use crate::lexer::{Lexeme, lex_from, word_end, after_word, lemma_word_end, is_space, is_paren, is_digit,
    all_digits, digits_value, int_literal, classify, is_op_word, is_keyword_word};
use crate::render::{render, render_items, join, int_text, nat_text, digit_text};
use crate::eval::fits;
use crate::parser::{ParseState, ParseError, step, run, add_item, parse_tokens};

verus! {

/// Terms built from integers and booleans by forming lists.
pub open spec fn plain(t: Term) -> bool
    decreases t,
{
    match t {
        Term::Integer(_) => true,
        Term::Boolean(_) => true,
        Term::List(l) => plain_prefix(l, l.len()),
        _ => false,
    }
}

/// Whether the first `n` items of `l` are plain.
pub open spec fn plain_prefix(l: Seq<Term>, n: nat) -> bool
    decreases l, n,
{
    if n == 0 || n > l.len() {
        n == 0
    } else {
        plain_prefix(l, (n - 1) as nat) && plain(l[n - 1])
    }
}

proof fn lemma_plain_items(l: Seq<Term>, n: nat)
    requires
        n <= l.len(),
        plain_prefix(l, n),
    ensures
        forall|i: int| 0 <= i < n ==> #[trigger] plain(l[i]),
    decreases n,
{
    if n > 0 {
        lemma_plain_items(l, (n - 1) as nat);
    }
}

/// The parts one after the other.
pub open spec fn concat_parts(ps: Seq<Seq<Lexeme>>) -> Seq<Lexeme>
    decreases ps.len(),
{
    if ps.len() == 0 {
        Seq::empty()
    } else {
        concat_parts(ps.drop_last()) + ps.last()
    }
}

/// The tokens that spell a plain term.
pub open spec fn toks(t: Term) -> Seq<Lexeme>
    decreases t,
{
    match t {
        Term::Integer(n) => seq![Lexeme::Integer(n)],
        Term::Boolean(b) => seq![Lexeme::Boolean(b)],
        Term::List(l) => seq![Lexeme::OpenParen] + concat_parts(item_toks(l)) + seq![Lexeme::CloseParen],
        _ => Seq::empty(),
    }
}

/// The tokens of each item of a list.
pub open spec fn item_toks(l: Seq<Term>) -> Seq<Seq<Lexeme>>
    decreases l,
{
    Seq::new(l.len(), |i: int| if 0 <= i < l.len() { toks(l[i]) } else { Seq::empty() })
}

/// The parser's state after the first `n` of `ts`, starting from `st`.
pub open spec fn run_from(st: ParseState, ts: Seq<Lexeme>, n: nat) -> ParseState
    decreases n,
{
    if n == 0 {
        st
    } else {
        step(run_from(st, ts, (n - 1) as nat), ts[n - 1])
    }
}

/// A state whose innermost open list is `top`, inside the lists `base`.
pub open spec fn open_with(base: Seq<Seq<Term>>, top: Seq<Term>) -> ParseState {
    ParseState { stack: base.push(top), done: None, extra: false }
}

proof fn lemma_run_prefix(st: ParseState, x: Seq<Lexeme>, y: Seq<Lexeme>, n: nat)
    requires
        n <= x.len(),
        n <= y.len(),
        x.subrange(0, n as int) == y.subrange(0, n as int),
    ensures
        run_from(st, x, n) == run_from(st, y, n),
    decreases n,
{
    if n > 0 {
        assert(x.subrange(0, n - 1) =~= x.subrange(0, n as int).subrange(0, n - 1));
        assert(y.subrange(0, n - 1) =~= y.subrange(0, n as int).subrange(0, n - 1));
        lemma_run_prefix(st, x, y, (n - 1) as nat);
        assert(x[n - 1] == x.subrange(0, n as int)[n - 1]);
        assert(y[n - 1] == y.subrange(0, n as int)[n - 1]);
    }
}

proof fn lemma_run_append(st: ParseState, a: Seq<Lexeme>, b: Seq<Lexeme>, k: nat)
    requires
        k <= b.len(),
    ensures
        run_from(st, a + b, a.len() + k) == run_from(run_from(st, a, a.len()), b, k),
    decreases k,
{
    if k == 0 {
        assert((a + b).subrange(0, a.len() as int) =~= a.subrange(0, a.len() as int));
        lemma_run_prefix(st, a + b, a, a.len());
    } else {
        lemma_run_append(st, a, b, (k - 1) as nat);
        assert((a + b)[a.len() + k - 1] == b[k - 1]);
    }
}

/// Reading the tokens of a plain term appends the term to the innermost
/// open list.
proof fn lemma_read_term(t: Term, st: ParseState)
    requires
        plain(t),
        st.done is None,
        st.stack.len() >= 1,
    ensures
        run_from(st, toks(t), toks(t).len()) == (ParseState { stack: add_item(st.stack, t), done: None, extra: false }),
    decreases t, 0nat,
{
    match t {
        Term::List(l) => {
            let items = concat_parts(item_toks(l));
            let open = seq![Lexeme::OpenParen];
            let close = seq![Lexeme::CloseParen];
            assert(toks(t) == open + items + close);
            lemma_plain_items(l, l.len());
            let st1 = run_from(st, open, 1);
            assert(run_from(st, open, 0) == st);
            assert(st1 == open_with(st.stack, Seq::empty()));
            lemma_read_items(l, l.len(), st.stack);
            assert(item_toks(l).subrange(0, l.len() as int) =~= item_toks(l));
            let st2 = run_from(st1, items, items.len());
            assert(l.subrange(0, l.len() as int) =~= l);
            assert(st2 == open_with(st.stack, l));
            lemma_run_append(st, open, items, items.len());
            lemma_run_append(st, open + items, close, 1);
            assert(run_from(st2, close, 0) == st2);
            assert(st2.stack.drop_last() =~= st.stack);
        },
        _ => {
            assert(run_from(st, toks(t), 0) == st);
        },
    }
}

/// Reading the tokens of the first `k` items of `l` into a fresh list.
proof fn lemma_read_items(l: Seq<Term>, k: nat, base: Seq<Seq<Term>>)
    requires
        k <= l.len(),
        forall|i: int| 0 <= i < l.len() ==> #[trigger] plain(l[i]),
    ensures
        run_from(open_with(base, Seq::empty()), concat_parts(item_toks(l).subrange(0, k as int)),
            concat_parts(item_toks(l).subrange(0, k as int)).len())
            == open_with(base, l.subrange(0, k as int)),
    decreases l, k,
{
    let st0 = open_with(base, Seq::empty());
    if k == 0 {
        assert(item_toks(l).subrange(0, 0) =~= Seq::<Seq<Lexeme>>::empty());
        assert(l.subrange(0, 0) =~= Seq::<Term>::empty());
    } else {
        let prev = item_toks(l).subrange(0, k - 1);
        let cur = item_toks(l).subrange(0, k as int);
        assert(cur.drop_last() =~= prev);
        assert(cur.last() == toks(l[k - 1]));
        lemma_read_items(l, (k - 1) as nat, base);
        let mid = open_with(base, l.subrange(0, k - 1));
        lemma_run_append(st0, concat_parts(prev), toks(l[k - 1]), toks(l[k - 1]).len());
        assert(plain(l[k - 1]));
        lemma_read_term(l[k - 1], mid);
        assert(l.subrange(0, k - 1).push(l[k - 1]) =~= l.subrange(0, k as int));
        assert(add_item(mid.stack, l[k - 1]) =~= base.push(l.subrange(0, k as int)));
    }
}

proof fn lemma_run_shift(ts: Seq<Lexeme>, n: nat)
    requires
        1 <= n <= ts.len(),
    ensures
        run(ts, n) == run_from(open_with(Seq::empty(), Seq::empty()), ts.subrange(1, ts.len() as int), (n - 1) as nat),
    decreases n,
{
    assert(open_with(Seq::empty(), Seq::empty()).stack =~= seq![Seq::<Term>::empty()]);
    if n > 1 {
        lemma_run_shift(ts, (n - 1) as nat);
        assert(ts.subrange(1, ts.len() as int)[n - 2] == ts[n - 1]);
    }
}

/// Parsing the tokens of a plain term gives the term back.
pub proof fn lemma_parse_toks(t: Term)
    requires
        plain(t),
    ensures
        parse_tokens(toks(t)) == Ok::<Term, ParseError>(t),
{
    if let Term::List(l) = t {
        let items = concat_parts(item_toks(l));
        let ts = toks(t);
        let init = open_with(Seq::empty(), Seq::empty());
        lemma_plain_items(l, l.len());
        assert(ts == seq![Lexeme::OpenParen] + items + seq![Lexeme::CloseParen]);
        assert(ts[0] == Lexeme::OpenParen);
        lemma_run_shift(ts, ts.len());
        let rest = ts.subrange(1, ts.len() as int);
        assert(rest =~= items + seq![Lexeme::CloseParen]);
        lemma_read_items(l, l.len(), Seq::empty());
        assert(item_toks(l).subrange(0, l.len() as int) =~= item_toks(l));
        assert(l.subrange(0, l.len() as int) =~= l);
        lemma_run_append(init, items, seq![Lexeme::CloseParen], 1);
        let st2 = run_from(init, items, items.len());
        assert(run_from(st2, seq![Lexeme::CloseParen], 0) == st2);
        assert(st2.stack.drop_last() =~= Seq::<Seq<Term>>::empty());
    } else {
        assert(toks(t).len() == 1);
    }
}

// ---------------------------------------------------------------------------
// Lexing rendered text

/// Position `e`, or the one after it where `e` holds a space.
pub open spec fn skip_space(s: Seq<char>, e: nat) -> nat {
    if e < s.len() && is_space(s[e as int]) { e + 1 } else { e }
}

proof fn lemma_lex_space(s: Seq<char>, k: nat)
    requires
        k < s.len(),
        is_space(s[k as int]),
    ensures
        lex_from(s, k) == lex_from(s, k + 1),
{
    lemma_word_end(s, k);
}

proof fn lemma_word_span(s: Seq<char>, i: nat, e: nat)
    requires
        i <= e <= s.len(),
        forall|k: int| i <= k < e ==> !is_space(#[trigger] s[k]) && !is_paren(s[k]),
        e == s.len() || is_space(s[e as int]) || is_paren(s[e as int]),
    ensures
        word_end(s, i) == e,
    decreases e - i,
{
    if i < e {
        lemma_word_span(s, i + 1, e);
    }
}

proof fn lemma_digit_text(d: nat)
    requires
        d < 10,
    ensures
        digit_text(d).len() == 1,
        is_digit(digit_text(d)[0]),
        (digit_text(d)[0] as u32 - '0' as u32) as nat == d,
{
    reveal_strlit("0");
    reveal_strlit("1");
    reveal_strlit("2");
    reveal_strlit("3");
    reveal_strlit("4");
    reveal_strlit("5");
    reveal_strlit("6");
    reveal_strlit("7");
    reveal_strlit("8");
    reveal_strlit("9");
}

proof fn lemma_nat_text(m: nat)
    ensures
        nat_text(m).len() >= 1,
        all_digits(nat_text(m)),
        digits_value(nat_text(m)) == m,
    decreases m,
{
    if m < 10 {
        lemma_digit_text(m);
        assert(nat_text(m).drop_last() =~= Seq::<char>::empty());
        assert(digits_value(Seq::<char>::empty()) == 0);
    } else {
        lemma_nat_text(m / 10);
        lemma_digit_text(m % 10);
        let x = nat_text(m / 10);
        let y = x + digit_text(m % 10);
        assert(y.drop_last() =~= x);
        assert(y.last() == digit_text(m % 10)[0]);
        assert(m == (m / 10) * 10 + m % 10);
        assert(all_digits(y)) by {
            assert forall|k: int| 0 <= k < y.len() implies is_digit(#[trigger] y[k]) by {
                if k < x.len() {
                    assert(y[k] == x[k]);
                }
            }
        }
    }
}

/// The words that the lexer treats specially start with a character that
/// no rendered integer starts with.
proof fn lemma_special_words(w: Seq<char>)
    requires
        w.len() >= 1,
        is_digit(w[0]) || (w[0] == '-' && w.len() >= 2),
    ensures
        w != "if"@, w != "true"@, w != "false"@, !is_op_word(w), !is_keyword_word(w),
{
    reveal_strlit("if");
    reveal_strlit("true");
    reveal_strlit("false");
    reveal_strlit("+");
    reveal_strlit("-");
    reveal_strlit("*");
    reveal_strlit("/");
    reveal_strlit("=");
    reveal_strlit("!=");
    reveal_strlit("<");
    reveal_strlit("<=");
    reveal_strlit(">");
    reveal_strlit(">=");
    reveal_strlit("and");
    reveal_strlit("or");
    reveal_strlit("not");
    reveal_strlit("def");
    reveal_strlit("defun");
    reveal_strlit("lambda");
    reveal_strlit("print");
    reveal_strlit("len");
    reveal_strlit("concat");
}

proof fn lemma_int_word(n: i64)
    ensures
        int_text(n as int).len() >= 1,
        forall|k: int| 0 <= k < int_text(n as int).len() ==> !is_space(#[trigger] int_text(n as int)[k])
            && !is_paren(int_text(n as int)[k]),
        classify(int_text(n as int)) == Lexeme::Integer(n),
{
    let w = int_text(n as int);
    reveal_strlit("-");
    if n < 0 {
        let m = (-(n as int)) as nat;
        lemma_nat_text(m);
        assert(w.drop_first() =~= nat_text(m));
        assert(w[0] == '-');
        assert forall|k: int| 0 <= k < w.len() implies !is_space(#[trigger] w[k]) && !is_paren(w[k]) by {
            if k > 0 {
                assert(w[k] == nat_text(m)[k - 1]);
                assert(is_digit(nat_text(m)[k - 1]));
            }
        }
        lemma_special_words(w);
        assert(fits(-(m as int)));
    } else {
        lemma_nat_text(n as nat);
        assert(is_digit(w[0]));
        assert forall|k: int| 0 <= k < w.len() implies !is_space(#[trigger] w[k]) && !is_paren(w[k]) by {
            assert(is_digit(w[k]));
        }
        lemma_special_words(w);
    }
}

proof fn lemma_bool_word(b: bool)
    ensures
        render(Term::Boolean(b)).len() >= 1,
        forall|k: int| 0 <= k < render(Term::Boolean(b)).len() ==> !is_space(#[trigger] render(Term::Boolean(b))[k])
            && !is_paren(render(Term::Boolean(b))[k]),
        classify(render(Term::Boolean(b))) == Lexeme::Boolean(b),
{
    reveal_strlit("if");
    reveal_strlit("true");
    reveal_strlit("false");
    reveal_strlit("+");
    reveal_strlit("-");
    reveal_strlit("*");
    reveal_strlit("/");
    reveal_strlit("=");
    reveal_strlit("!=");
    reveal_strlit("<");
    reveal_strlit("<=");
    reveal_strlit(">");
    reveal_strlit(">=");
    reveal_strlit("and");
    reveal_strlit("or");
    reveal_strlit("not");
    reveal_strlit("def");
    reveal_strlit("defun");
    reveal_strlit("lambda");
    reveal_strlit("print");
    reveal_strlit("len");
    reveal_strlit("concat");
}

/// Lexing the text of a plain term that stands at position `i` of `s`,
/// followed by a space, a closing parenthesis or the end.
proof fn lemma_lex_term(t: Term, s: Seq<char>, i: nat)
    requires
        plain(t),
        i + render(t).len() <= s.len(),
        s.subrange(i as int, (i + render(t).len()) as int) == render(t),
        i + render(t).len() == s.len() || is_space(s[(i + render(t).len()) as int]) || s[(i + render(t).len()) as int] == ')',
    ensures
        lex_from(s, i) == toks(t) + lex_from(s, skip_space(s, i + render(t).len())),
    decreases t, 0nat,
{
    let r = render(t);
    let e = (i + r.len()) as nat;
    match t {
        Term::List(l) => {
            lemma_plain_items(l, l.len());
            let parts = render_items(l);
            let body = join(parts);
            assert(r == "("@ + body + ")"@);
            reveal_strlit("(");
            reveal_strlit(")");
            assert(s[i as int] == r[0]);
            assert(r[0] == '(');
            assert(s[e - 1] == r[r.len() - 1]);
            assert(r[r.len() - 1] == ')');
            assert(r.subrange(1, r.len() - 1) =~= body);
            assert(s.subrange((i + 1) as int, (e - 1) as int) =~= r.subrange(1, r.len() - 1));
            // the opening parenthesis
            assert(lex_from(s, i) == seq![Lexeme::OpenParen] + lex_from(s, i + 1));
            lemma_lex_items(l, s, (i + 1) as nat);
            let inner = concat_parts(item_toks(l));
            // the closing parenthesis
            assert(lex_from(s, (e - 1) as nat) == seq![Lexeme::CloseParen] + lex_from(s, e));
            if e < s.len() && is_space(s[e as int]) {
                lemma_lex_space(s, e);
            }
            assert(toks(t) == seq![Lexeme::OpenParen] + inner + seq![Lexeme::CloseParen]);
            assert(lex_from(s, i) =~= toks(t) + lex_from(s, skip_space(s, e)));
        },
        _ => {
            if let Term::Integer(n) = t {
                lemma_int_word(n);
            } else if let Term::Boolean(b) = t {
                lemma_bool_word(b);
            }
            assert forall|k: int| i <= k < e implies !is_space(#[trigger] s[k]) && !is_paren(s[k]) by {
                assert(s[k] == r[k - i]);
            }
            assert(s[i as int] == r[0]);
            lemma_word_span(s, i, e);
            lemma_word_end(s, i);
            assert(s.subrange(i as int, e as int) == r);
            assert(after_word(s, i) == skip_space(s, e));
        },
    }
}

/// Lexing the items of a list, which stand at position `i0` of `s` joined
/// by single spaces and followed by a closing parenthesis.
proof fn lemma_lex_items(l: Seq<Term>, s: Seq<char>, i0: nat)
    requires
        forall|k: int| 0 <= k < l.len() ==> #[trigger] plain(l[k]),
        i0 + join(render_items(l)).len() < s.len(),
        s.subrange(i0 as int, (i0 + join(render_items(l)).len()) as int) == join(render_items(l)),
        s[(i0 + join(render_items(l)).len()) as int] == ')',
    ensures
        lex_from(s, i0) == concat_parts(item_toks(l)) + lex_from(s, i0 + join(render_items(l)).len()),
    decreases l, 1nat,
{
    let parts = render_items(l);
    let n = l.len();
    if n == 0 {
        assert(item_toks(l) =~= Seq::<Seq<Lexeme>>::empty());
        assert(concat_parts(item_toks(l)) + lex_from(s, i0) =~= lex_from(s, i0));
    } else {
        lemma_lex_prefix(l, s, i0, n);
        assert(parts.subrange(0, n as int) =~= parts);
        assert(item_toks(l).subrange(0, n as int) =~= item_toks(l));
    }
}

/// Where item `k - 1` of a joined list stands in `s`, and what follows it.
proof fn lemma_item_place(parts: Seq<Seq<char>>, s: Seq<char>, i0: nat, k: nat)
    requires
        1 <= k <= parts.len(),
        i0 + join(parts).len() < s.len(),
        s.subrange(i0 as int, (i0 + join(parts).len()) as int) == join(parts),
        s[(i0 + join(parts).len()) as int] == ')',
    ensures
        ({
            let jk = join(parts.subrange(0, k as int));
            let start = if k == 1 { i0 as int } else { i0 as int + join(parts.subrange(0, k - 1)).len() + 1 };
            &&& start + parts[k - 1].len() == i0 as int + jk.len()
            &&& i0 as int + jk.len() <= i0 + join(parts).len()
            &&& s.subrange(start, i0 as int + jk.len()) == parts[k - 1]
            &&& k > 1 ==> s[start - 1] == ' '
            &&& k < parts.len() ==> s[i0 as int + jk.len()] == ' '
            &&& k == parts.len() ==> s[i0 as int + jk.len()] == ')'
        }),
{
    let full = join(parts);
    reveal_strlit(" ");
    assert(parts.subrange(0, parts.len() as int) =~= parts);
    lemma_join_prefix(parts, k, parts.len());
    let jk = join(parts.subrange(0, k as int));
    if k == 1 {
        assert(parts.subrange(0, 1).len() == 1);
        assert(jk == parts[0]);
        assert(s.subrange(i0 as int, i0 as int + jk.len()) =~= full.subrange(0, jk.len() as int));
    } else {
        lemma_join_step(parts, (k - 1) as nat);
        let jp = join(parts.subrange(0, k - 1));
        assert(jk == jp + " "@ + parts[k - 1]);
        assert(s[i0 as int + jp.len()] == full[jp.len() as int]);
        assert(full[jp.len() as int] == jk[jp.len() as int]);
        assert(s.subrange(i0 as int + jp.len() + 1, i0 as int + jk.len()) =~= jk.subrange(jp.len() as int + 1, jk.len() as int));
        assert(jk.subrange(jp.len() as int + 1, jk.len() as int) =~= parts[k - 1]);
    }
    if k < parts.len() {
        lemma_join_prefix(parts, k + 1, parts.len());
        lemma_join_step(parts, k);
        assert(s[i0 as int + jk.len()] == full[jk.len() as int]);
        assert(full[jk.len() as int] == join(parts.subrange(0, k as int + 1))[jk.len() as int]);
    } else {
        assert(jk == full);
    }
}

/// The first `k` items, as `lemma_lex_items` describes them.
proof fn lemma_lex_prefix(l: Seq<Term>, s: Seq<char>, i0: nat, k: nat)
    requires
        1 <= k <= l.len(),
        forall|j: int| 0 <= j < l.len() ==> #[trigger] plain(l[j]),
        i0 + join(render_items(l)).len() < s.len(),
        s.subrange(i0 as int, (i0 + join(render_items(l)).len()) as int) == join(render_items(l)),
        s[(i0 + join(render_items(l)).len()) as int] == ')',
    ensures
        lex_from(s, i0) == concat_parts(item_toks(l).subrange(0, k as int))
            + lex_from(s, skip_space(s, i0 + join(render_items(l).subrange(0, k as int)).len())),
    decreases l, 0nat, k,
{
    let parts = render_items(l);
    lemma_item_place(parts, s, i0, k);
    let start: nat = if k == 1 { i0 } else { (i0 + join(parts.subrange(0, k - 1)).len() + 1) as nat };
    assert(render(l[k - 1]) == parts[k - 1]);
    lemma_lex_term(l[k - 1], s, start);
    let tk = item_toks(l).subrange(0, k as int);
    assert(tk.drop_last() =~= item_toks(l).subrange(0, k - 1));
    assert(tk.last() == toks(l[k - 1]));
    if k == 1 {
        assert(item_toks(l).subrange(0, 0) =~= Seq::<Seq<Lexeme>>::empty());
        assert(concat_parts(tk) =~= toks(l[0]));
    } else {
        lemma_lex_prefix(l, s, i0, (k - 1) as nat);
        lemma_item_place(parts, s, i0, (k - 1) as nat);
        assert(skip_space(s, i0 + join(parts.subrange(0, k - 1)).len()) == start);
        assert(concat_parts(tk) == concat_parts(item_toks(l).subrange(0, k - 1)) + toks(l[k - 1]));
        assert(lex_from(s, i0) =~= concat_parts(tk) + lex_from(s, skip_space(s, i0 + join(parts.subrange(0, k as int)).len())));
    }
}

proof fn lemma_join_step(parts: Seq<Seq<char>>, k: nat)
    requires
        1 <= k < parts.len(),
    ensures
        join(parts.subrange(0, k as int + 1)) == join(parts.subrange(0, k as int)) + " "@ + parts[k as int],
{
    assert(parts.subrange(0, k as int + 1).drop_last() =~= parts.subrange(0, k as int));
}

/// A join of the first `k` parts begins the join of the first `m`.
proof fn lemma_join_prefix(parts: Seq<Seq<char>>, k: nat, m: nat)
    requires
        1 <= k <= m <= parts.len(),
    ensures
        join(parts.subrange(0, k as int)).len() <= join(parts.subrange(0, m as int)).len(),
        join(parts.subrange(0, m as int)).subrange(0, join(parts.subrange(0, k as int)).len() as int)
            == join(parts.subrange(0, k as int)),
    decreases m - k,
{
    if k < m {
        lemma_join_prefix(parts, k, (m - 1) as nat);
        lemma_join_step(parts, (m - 1) as nat);
        let a = join(parts.subrange(0, k as int));
        let b = join(parts.subrange(0, m - 1));
        assert(join(parts.subrange(0, m as int)).subrange(0, a.len() as int) =~= b.subrange(0, a.len() as int));
    } else {
        let a = join(parts.subrange(0, k as int));
        assert(a.subrange(0, a.len() as int) =~= a);
    }
}

/// Rendering a value built from integers, booleans and lists, then lexing
/// and parsing the text, gives the value back.
pub proof fn law_round_trip(t: Term)
    requires
        plain(t),
    ensures
        parse_tokens(lex_from(render(t), 0)) == Ok::<Term, ParseError>(t),
{
    let s = render(t);
    assert(s.subrange(0, s.len() as int) =~= s);
    lemma_lex_term(t, s, 0);
    assert(lex_from(s, s.len()) == Seq::<Lexeme>::empty());
    assert(lex_from(s, 0) =~= toks(t));
    lemma_parse_toks(t);
}

} // verus!

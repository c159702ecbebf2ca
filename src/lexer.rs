//! The lexer: from text to a flat sequence of tokens.

use vstd::prelude::*;
use crate::expr::same_text;
use crate::eval::fits;

verus! {

/// A token of the language.
#[derive(Debug)]
pub enum Token {
    OpenParen,
    CloseParen,
    Integer(i64),
    Boolean(bool),
    If,
    BinaryOp(String),
    Keyword(String),
    Symbol(String),
}

/// The model of a `Token`.
pub enum Lexeme {
    OpenParen,
    CloseParen,
    Integer(i64),
    Boolean(bool),
    If,
    BinaryOp(Seq<char>),
    Keyword(Seq<char>),
    Symbol(Seq<char>),
}

impl View for Token {
    type V = Lexeme;

    open spec fn view(&self) -> Lexeme {
        match self {
            Token::OpenParen => Lexeme::OpenParen,
            Token::CloseParen => Lexeme::CloseParen,
            Token::Integer(n) => Lexeme::Integer(*n),
            Token::Boolean(b) => Lexeme::Boolean(*b),
            Token::If => Lexeme::If,
            Token::BinaryOp(s) => Lexeme::BinaryOp(s@),
            Token::Keyword(s) => Lexeme::Keyword(s@),
            Token::Symbol(s) => Lexeme::Symbol(s@),
        }
    }
}

/// The model of a list of tokens.
pub open spec fn tokens_view(v: Vec<Token>) -> Seq<Lexeme> {
    Seq::new(v.len() as nat, |i: int| v[i]@)
}

/// White space in the sense of Unicode's `White_Space` property.
pub open spec fn is_space(c: char) -> bool {
    let u = c as u32;
    (9 <= u <= 13) || u == 32 || u == 0x85 || u == 0xA0 || u == 0x1680
        || (0x2000 <= u <= 0x200A) || u == 0x2028 || u == 0x2029 || u == 0x202F
        || u == 0x205F || u == 0x3000
}

/// Whether `c` is a parenthesis.
pub open spec fn is_paren(c: char) -> bool {
    c == '(' || c == ')'
}

/// Where the word that starts at `i` ends: at the first space or
/// parenthesis, or at the end of the text.
pub open spec fn word_end(s: Seq<char>, i: nat) -> nat
    decreases s.len() - i,
{
    if i >= s.len() || is_space(s[i as int]) || is_paren(s[i as int]) {
        i
    } else {
        word_end(s, i + 1)
    }
}

/// A word ends at or after its start, and at a space, a parenthesis or the end.
pub proof fn lemma_word_end(s: Seq<char>, i: nat)
    ensures
        i <= word_end(s, i),
        i < s.len() ==> word_end(s, i) <= s.len(),
        word_end(s, i) < s.len() ==> is_space(s[word_end(s, i) as int]) || is_paren(s[word_end(s, i) as int]),
        forall|k: int| i <= k < word_end(s, i) ==> !is_space(#[trigger] s[k]) && !is_paren(s[k]),
    decreases s.len() - i,
{
    if !(i >= s.len() || is_space(s[i as int]) || is_paren(s[i as int])) {
        lemma_word_end(s, i + 1);
    }
}

/// Whether `c` is a decimal digit.
pub open spec fn is_digit(c: char) -> bool {
    '0' as u32 <= c as u32 <= '9' as u32
}

/// Whether every character is a decimal digit.
pub open spec fn all_digits(d: Seq<char>) -> bool {
    forall|i: int| 0 <= i < d.len() ==> is_digit(#[trigger] d[i])
}

/// The number that a sequence of decimal digits spells.
pub open spec fn digits_value(d: Seq<char>) -> nat
    decreases d.len(),
{
    if d.len() == 0 {
        0
    } else {
        digits_value(d.drop_last()) * 10 + ((d.last() as u32 - '0' as u32) as nat)
    }
}

/// The integer that a word spells, as decimal digits after an optional
/// sign, where it fits in 64 bits.
pub open spec fn int_literal(w: Seq<char>) -> Option<i64> {
    let signed = w.len() > 0 && (w[0] == '-' || w[0] == '+');
    let d = if signed { w.drop_first() } else { w };
    if d.len() == 0 || !all_digits(d) {
        None
    } else {
        let v = if w[0] == '-' { -(digits_value(d) as int) } else { digits_value(d) as int };
        if fits(v) { Some(v as i64) } else { None }
    }
}

/// The words that name built-in operators.
pub open spec fn is_op_word(w: Seq<char>) -> bool {
    w == "+"@ || w == "-"@ || w == "*"@ || w == "/"@ || w == "="@ || w == "!="@
        || w == "<"@ || w == "<="@ || w == ">"@ || w == ">="@
        || w == "and"@ || w == "or"@ || w == "not"@
}

/// The words that name special forms.
pub open spec fn is_keyword_word(w: Seq<char>) -> bool {
    w == "def"@ || w == "defun"@ || w == "lambda"@ || w == "print"@ || w == "len"@ || w == "concat"@
}

/// The token that a word stands for.
pub open spec fn classify(w: Seq<char>) -> Lexeme {
    if w == "if"@ {
        Lexeme::If
    } else if is_op_word(w) {
        Lexeme::BinaryOp(w)
    } else if w == "true"@ {
        Lexeme::Boolean(true)
    } else if w == "false"@ {
        Lexeme::Boolean(false)
    } else if is_keyword_word(w) {
        Lexeme::Keyword(w)
    } else {
        match int_literal(w) {
            Some(n) => Lexeme::Integer(n),
            None => Lexeme::Symbol(w),
        }
    }
}

/// Where lexing goes on after the word that starts at `i`: one space
/// after the word is consumed with it.
pub open spec fn after_word(s: Seq<char>, i: nat) -> nat {
    let j = word_end(s, i);
    if j < s.len() && is_space(s[j as int]) { j + 1 } else { j }
}

/// The tokens of `s[i..]`.
pub open spec fn lex_from(s: Seq<char>, i: nat) -> Seq<Lexeme>
    decreases s.len() - i,
{
    if i >= s.len() {
        Seq::empty()
    } else if s[i as int] == '(' {
        seq![Lexeme::OpenParen] + lex_from(s, i + 1)
    } else if s[i as int] == ')' {
        seq![Lexeme::CloseParen] + lex_from(s, i + 1)
    } else {
        let j = word_end(s, i);
        let next = after_word(s, i);
        if next <= i || next > s.len() {
            Seq::empty()
        } else if j == i {
            lex_from(s, next)
        } else {
            seq![classify(s.subrange(i as int, j as int))] + lex_from(s, next)
        }
    }
}

/// Lexing never stops early: past a word, the position always moves on.
pub proof fn lemma_after_word(s: Seq<char>, i: nat)
    requires
        i < s.len(),
        !is_paren(s[i as int]),
    ensures
        i < after_word(s, i) <= s.len(),
{
    lemma_word_end(s, i);
}

fn is_space_char(c: char) -> (r: bool)
    ensures
        r == is_space(c),
{
    let u = c as u32;
    (9 <= u && u <= 13) || u == 32 || u == 0x85 || u == 0xA0 || u == 0x1680
        || (0x2000 <= u && u <= 0x200A) || u == 0x2028 || u == 0x2029 || u == 0x202F
        || u == 0x205F || u == 0x3000
}

proof fn lemma_digits_mono(d: Seq<char>, k: int)
    requires
        0 <= k <= d.len(),
    ensures
        digits_value(d.subrange(0, k)) <= digits_value(d),
    decreases d.len(),
{
    if k < d.len() {
        lemma_digits_mono(d.drop_last(), k);
        assert(d.drop_last().subrange(0, k) =~= d.subrange(0, k));
    } else {
        assert(d.subrange(0, k) =~= d);
    }
}

/// The integer that a word spells, as `int_literal` describes it.
pub fn parse_int(w: &str) -> (r: Option<i64>)
    ensures
        r == int_literal(w@),
{
    let n = w.unicode_len();
    if n == 0 {
        return None;
    }
    let first = w.get_char(0);
    let neg = first == '-';
    let start: usize = if first == '-' || first == '+' { 1 } else { 0 };
    let ghost d = w@.subrange(start as int, n as int);
    assert(start == 1 ==> d =~= w@.drop_first());
    assert(start == 0 ==> d =~= w@);
    if start == n {
        return None;
    }
    let mut acc: i128 = 0;
    let mut i: usize = start;
    while i < n
        invariant
            start <= i <= n,
            n == w@.len(),
            d == w@.subrange(start as int, n as int),
            all_digits(d.subrange(0, i - start)),
            acc as int == digits_value(d.subrange(0, i - start)),
            acc <= 0x8000_0000_0000_0000,
            n > 0,
            first == w@[0],
            neg == (first == '-'),
            (start == 1) == (first == '-' || first == '+'),
            start <= 1,
            start == 1 ==> d == w@.drop_first(),
            start == 0 ==> d == w@,
            d.len() > 0,
        decreases n - i,
    {
        let c = w.get_char(i);
        let ghost k = i - start;
        assert(d[k as int] == c);
        if !((c as u32) >= ('0' as u32) && (c as u32) <= ('9' as u32)) {
            assert(!all_digits(d));
            return None;
        }
        let dv = (c as u32 - '0' as u32) as i128;
        assert(d.subrange(0, k + 1).drop_last() =~= d.subrange(0, k));
        assert(d.subrange(0, k + 1).last() == c);
        acc = acc * 10 + dv;
        assert(acc as int == digits_value(d.subrange(0, k + 1)));
        assert(all_digits(d.subrange(0, k + 1)));
        if acc > 0x8000_0000_0000_0000 {
            proof {
                lemma_digits_mono(d, k + 1);
                assert(digits_value(d) > 0x8000_0000_0000_0000);
                assert(!fits(digits_value(d) as int));
                assert(!fits(-(digits_value(d) as int)));
            }
            return None;
        }
        i += 1;
    }
    assert(d.subrange(0, (n - start) as int) =~= d);
    let v: i128 = if neg { -acc } else { acc };
    if v < -0x8000_0000_0000_0000i128 || v > 0x7fff_ffff_ffff_ffffi128 {
        None
    } else {
        Some(v as i64)
    }
}

fn is_op_text(w: &str) -> (r: bool)
    ensures
        r == is_op_word(w@),
{
    same_text(w, "+") || same_text(w, "-") || same_text(w, "*") || same_text(w, "/")
        || same_text(w, "=") || same_text(w, "!=") || same_text(w, "<") || same_text(w, "<=")
        || same_text(w, ">") || same_text(w, ">=") || same_text(w, "and") || same_text(w, "or")
        || same_text(w, "not")
}

fn is_keyword_text(w: &str) -> (r: bool)
    ensures
        r == is_keyword_word(w@),
{
    same_text(w, "def") || same_text(w, "defun") || same_text(w, "lambda") || same_text(w, "print")
        || same_text(w, "len") || same_text(w, "concat")
}

/// The token that a word stands for, as `classify` describes it.
fn classify_word(w: &str) -> (r: Token)
    ensures
        r@ == classify(w@),
{
    if same_text(w, "if") {
        Token::If
    } else if is_op_text(w) {
        Token::BinaryOp(String::from_str(w))
    } else if same_text(w, "true") {
        Token::Boolean(true)
    } else if same_text(w, "false") {
        Token::Boolean(false)
    } else if is_keyword_text(w) {
        Token::Keyword(String::from_str(w))
    } else {
        match parse_int(w) {
            Some(n) => Token::Integer(n),
            None => Token::Symbol(String::from_str(w)),
        }
    }
}

/// Splits text into tokens: parentheses, and words separated by white space.
pub fn lex(input: &str) -> (r: Vec<Token>)
    ensures
        tokens_view(r) == lex_from(input@, 0),
{
    let ghost s = input@;
    let n = input.unicode_len();
    let mut tokens: Vec<Token> = Vec::new();
    let mut i: usize = 0;
    while i < n
        invariant
            i <= n,
            n == s.len(),
            s == input@,
            lex_from(s, 0) == tokens_view(tokens) + lex_from(s, i as nat),
        decreases n - i,
    {
        let c = input.get_char(i);
        let ghost before = tokens_view(tokens);
        if c == '(' {
            tokens.push(Token::OpenParen);
            assert(tokens_view(tokens) =~= before.push(Lexeme::OpenParen));
            assert(before + lex_from(s, i as nat) =~= tokens_view(tokens) + lex_from(s, (i + 1) as nat));
            i += 1;
        } else if c == ')' {
            tokens.push(Token::CloseParen);
            assert(tokens_view(tokens) =~= before.push(Lexeme::CloseParen));
            assert(before + lex_from(s, i as nat) =~= tokens_view(tokens) + lex_from(s, (i + 1) as nat));
            i += 1;
        } else {
            let mut j: usize = i;
            while j < n && !is_space_char(input.get_char(j)) && input.get_char(j) != '(' && input.get_char(j) != ')'
                invariant
                    i <= j <= n,
                    n == s.len(),
                    s == input@,
                    word_end(s, i as nat) == word_end(s, j as nat),
                decreases n - j,
            {
                j += 1;
            }
            proof {
                lemma_after_word(s, i as nat);
            }
            let next = if j < n && is_space_char(input.get_char(j)) { j + 1 } else { j };
            assert(next as nat == after_word(s, i as nat));
            if j > i {
                let w = input.substring_char(i, j);
                let t = classify_word(w);
                tokens.push(t);
                assert(tokens_view(tokens) =~= before.push(t@));
                assert(before + lex_from(s, i as nat) =~= tokens_view(tokens) + lex_from(s, next as nat));
            }
            i = next;
        }
    }
    assert(tokens_view(tokens) + lex_from(s, i as nat) =~= tokens_view(tokens));
    tokens
}

} // verus!

//! Hints offered while a line is typed at the interactive prompt.

use vstd::prelude::*;
use crate::expr::same_text;

verus! {

/// A hint: the text shown after the cursor, and how many of its leading
/// characters a completion accepts.
pub struct CommandHint {
    display: String,
    complete_up_to: usize,
}

impl CommandHint {
    pub closed spec fn text(&self) -> Seq<char> {
        self.display@
    }

    pub closed spec fn complete_len(&self) -> nat {
        self.complete_up_to as nat
    }

    /// A hint showing `text` whose completion accepts `complete_up_to`,
    /// which `text` starts with.
    pub fn new(text: &str, complete_up_to: &str) -> (r: CommandHint)
        requires
            complete_up_to@.len() <= text@.len(),
            text@.subrange(0, complete_up_to@.len() as int) == complete_up_to@,
        ensures
            r.text() == text@,
            r.complete_len() == complete_up_to@.len(),
    {
        CommandHint { display: String::from_str(text), complete_up_to: complete_up_to.unicode_len() }
    }

    /// The hint without its first `strip_chars` characters.
    pub fn suffix(&self, strip_chars: usize) -> (r: CommandHint)
        requires
            strip_chars <= self.text().len(),
        ensures
            r.text() == self.text().subrange(strip_chars as int, self.text().len() as int),
            r.complete_len() == if self.complete_len() >= strip_chars { self.complete_len() - strip_chars } else { 0 },
    {
        let n = self.display.as_str().unicode_len();
        let rest = self.display.as_str().substring_char(strip_chars, n);
        CommandHint {
            display: String::from_str(rest),
            complete_up_to: self.complete_up_to.saturating_sub(strip_chars),
        }
    }

    /// The text shown.
    pub fn display(&self) -> (r: &str)
        ensures
            r@ == self.text(),
    {
        self.display.as_str()
    }

    /// The text that accepting the hint inserts, if any.
    pub fn completion(&self) -> (r: Option<String>)
        ensures
            self.complete_len() > 0 && self.complete_len() <= self.text().len() ==> (r matches Some(c)
                && c@ == self.text().subrange(0, self.complete_len() as int)),
            self.complete_len() == 0 || self.complete_len() > self.text().len() ==> r is None,
    {
        let n = self.display.as_str().unicode_len();
        if self.complete_up_to > 0 && self.complete_up_to <= n {
            Some(String::from_str(self.display.as_str().substring_char(0, self.complete_up_to)))
        } else {
            None
        }
    }
}

/// Whether `line` is a prefix of `text`.
fn starts_with(text: &str, line: &str) -> (r: bool)
    ensures
        r == (line@.len() <= text@.len() && text@.subrange(0, line@.len() as int) == line@),
{
    let n = line.unicode_len();
    if n > text.unicode_len() {
        return false;
    }
    same_text(text.substring_char(0, n), line)
}

/// Whether two hints show the same text and complete the same length.
pub open spec fn same_hint(a: CommandHint, b: CommandHint) -> bool {
    a.text() == b.text() && a.complete_len() == b.complete_len()
}

/// Whether no two of the hints are the same.
pub open spec fn distinct_hints(h: Seq<CommandHint>) -> bool {
    forall|i: int, j: int| 0 <= i < j < h.len() ==> !same_hint(#[trigger] h[i], #[trigger] h[j])
}

/// Whether some hint in `a` is the same as `h`.
pub open spec fn has_same(h: CommandHint, a: Seq<CommandHint>) -> bool {
    exists|j: int| 0 <= j < a.len() && same_hint(h, #[trigger] a[j])
}

/// Whether each hint in `b` is the same as some hint in `a`.
pub open spec fn covers(a: Seq<CommandHint>, b: Seq<CommandHint>) -> bool {
    forall|i: int| 0 <= i < b.len() ==> #[trigger] has_same(b[i], a)
}

/// The hints that the prompt offers.
pub fn command_hints() -> (r: Vec<CommandHint>)
    ensures
        r.len() == 1,
        r[0].text() == "exit"@,
        r[0].complete_len() == "exit"@.len(),
        distinct_hints(r@),
{
    let mut v: Vec<CommandHint> = Vec::new();
    proof {
        reveal_strlit("exit");
        assert("exit"@.subrange(0, 4) =~= "exit"@);
    }
    v.push(CommandHint::new("exit", "exit"));
    v
}

impl CommandHint {
    /// A copy of this hint.
    pub fn copy(&self) -> (r: CommandHint)
        ensures
            same_hint(r, *self),
    {
        CommandHint { display: self.display.clone(), complete_up_to: self.complete_up_to }
    }

    /// Whether this hint is the same as `o`.
    pub fn same_as(&self, o: &CommandHint) -> (r: bool)
        ensures
            r == same_hint(*self, *o),
    {
        self.display == o.display && self.complete_up_to == o.complete_up_to
    }
}

/// Offers hints while a line is typed; no hint is offered twice.
pub struct CommandHinter {
    hints: Vec<CommandHint>,
}

impl CommandHinter {
    pub closed spec fn hints(&self) -> Seq<CommandHint> {
        self.hints@
    }

    /// A hinter offering each of `hints` once: a hint that is the same as
    /// an earlier one is dropped.
    pub fn new(hints: Vec<CommandHint>) -> (r: CommandHinter)
        ensures
            distinct_hints(r.hints()),
            covers(r.hints(), hints@),
            covers(hints@, r.hints()),
    {
        let mut kept: Vec<CommandHint> = Vec::new();
        let mut i: usize = 0;
        while i < hints.len()
            invariant
                i <= hints.len(),
                distinct_hints(kept@),
                forall|a: int| 0 <= a < i ==> #[trigger] has_same(hints@[a], kept@),
                covers(hints@, kept@),
            decreases hints.len() - i,
        {
            let mut j: usize = 0;
            let mut found = false;
            while j < kept.len()
                invariant
                    j <= kept.len(),
                    i < hints.len(),
                    distinct_hints(kept@),
                    forall|a: int| 0 <= a < i ==> #[trigger] has_same(hints@[a], kept@),
                    covers(hints@, kept@),
                    found ==> has_same(hints@[i as int], kept@),
                    !found ==> forall|b: int| 0 <= b < j ==> !same_hint(hints@[i as int], #[trigger] kept@[b]),
                decreases kept.len() - j,
            {
                if kept[j].same_as(&hints[i]) {
                    assert(same_hint(hints@[i as int], kept@[j as int]));
                    found = true;
                }
                j += 1;
            }
            if !found {
                let c = hints[i].copy();
                let ghost old_kept = kept@;
                kept.push(c);
                assert(kept@[kept.len() - 1] == c);
                assert forall|a: int| 0 <= a <= i implies #[trigger] has_same(hints@[a], kept@) by {
                    if a == i {
                        assert(same_hint(hints@[a], kept@[kept.len() - 1]));
                    } else {
                        assert(has_same(hints@[a], old_kept));
                        let b = choose|b: int| 0 <= b < old_kept.len() && same_hint(hints@[a], old_kept[b]);
                        assert(kept@[b] == old_kept[b]);
                    }
                }
                assert forall|b: int| 0 <= b < kept.len() implies #[trigger] has_same(kept@[b], hints@) by {
                    if b == kept.len() - 1 {
                        assert(same_hint(kept@[b], hints@[i as int]));
                    } else {
                        assert(kept@[b] == old_kept[b]);
                        assert(has_same(old_kept[b], hints@));
                    }
                }
                assert(distinct_hints(kept@)) by {
                    assert forall|x: int, y: int| 0 <= x < y < kept@.len() implies !same_hint(#[trigger] kept@[x], #[trigger] kept@[y]) by {
                        if y == kept.len() - 1 {
                            assert(!same_hint(hints@[i as int], old_kept[x]));
                        } else {
                            assert(kept@[x] == old_kept[x] && kept@[y] == old_kept[y]);
                        }
                    }
                }
            }
            i += 1;
        }
        let r = CommandHinter { hints: kept };
        assert(r.hints() == kept@);
        r
    }

    /// The rest of the first hint that extends `line`, when the cursor `pos`
    /// stands at the end of a non-empty line; the hint's first `pos`
    /// characters, which the line already holds, are left out.
    pub fn hint(&self, line: &str, pos: usize) -> (r: Option<CommandHint>)
        ensures
            line@.len() == 0 || pos != line@.len() ==> r is None,
            r matches Some(h) ==> (exists|i: int| 0 <= i < self.hints().len()
                && line@.len() <= self.hints()[i].text().len()
                && #[trigger] self.hints()[i].text().subrange(0, line@.len() as int) == line@
                && h.text() == self.hints()[i].text().subrange(pos as int, self.hints()[i].text().len() as int)
                && h.complete_len() == if self.hints()[i].complete_len() >= pos {
                    self.hints()[i].complete_len() - pos
                } else {
                    0
                }),
            r is None && line@.len() > 0 && pos == line@.len() ==> forall|i: int| 0 <= i < self.hints().len() ==>
                !(line@.len() <= self.hints()[i].text().len()
                && #[trigger] self.hints()[i].text().subrange(0, line@.len() as int) == line@),
    {
        let n = line.unicode_len();
        if n == 0 || pos != n {
            return None;
        }
        let mut i: usize = 0;
        while i < self.hints.len()
            invariant
                i <= self.hints.len(),
                n == line@.len(),
                n > 0,
                pos == n,
                forall|j: int| 0 <= j < i ==> !(line@.len() <= self.hints()[j].text().len()
                    && #[trigger] self.hints()[j].text().subrange(0, line@.len() as int) == line@),
            decreases self.hints.len() - i,
        {
            let h = &self.hints[i];
            if starts_with(h.display(), line) {
                let r = h.suffix(pos);
                assert(self.hints()[i as int] == *h);
                assert(self.hints()[i as int].text().subrange(0, line@.len() as int) == line@);
                return Some(r);
            }
            i += 1;
        }
        None
    }
}

} // verus!

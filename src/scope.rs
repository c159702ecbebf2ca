//! Environments: an arena of frames, each with bindings and a parent link.

use vstd::prelude::*;
use crate::expr::{Expr, Term, opt_view, same_text};

verus! {

/// The model of one frame: its bindings in order of creation and its parent.
pub struct FrameView {
    pub entities: Seq<(Seq<char>, Term)>,
    pub parent: Option<nat>,
}

/// The model of an environment: every frame ever created, the frame that
/// evaluation currently runs in, and the lines written by `print`.
pub struct Env {
    pub frames: Seq<FrameView>,
    pub current: nat,
    pub printed: Seq<Seq<char>>,
}

/// The position of the first binding of `name`, searching from `i` on.
pub open spec fn key_index(ents: Seq<(Seq<char>, Term)>, name: Seq<char>, i: nat) -> Option<nat>
    decreases ents.len() - i,
{
    if i >= ents.len() {
        None
    } else if ents[i as int].0 == name {
        Some(i)
    } else {
        key_index(ents, name, i + 1)
    }
}

/// Bindings after `name` is bound to `value`: an existing binding is
/// overwritten in place, otherwise a new one is appended.
pub open spec fn assign(ents: Seq<(Seq<char>, Term)>, name: Seq<char>, value: Term) -> Seq<(Seq<char>, Term)> {
    match key_index(ents, name, 0) {
        Some(k) => ents.update(k as int, (name, value)),
        None => ents.push((name, value)),
    }
}

/// Looks `name` up in frame `i`, then along its chain of parents.
pub open spec fn lookup(frames: Seq<FrameView>, i: int, name: Seq<char>) -> Option<Term>
    decreases i,
{
    if !(0 <= i < frames.len()) {
        None
    } else {
        match key_index(frames[i].entities, name, 0) {
            Some(k) => Some(frames[i].entities[k as int].1),
            None => match frames[i].parent {
                Some(p) => if p < i { lookup(frames, p as int, name) } else { None },
                None => None,
            },
        }
    }
}

impl Env {
    /// Every parent precedes its child, and the current frame exists.
    pub open spec fn wf(self) -> bool {
        &&& self.current < self.frames.len()
        &&& forall|i: int| 0 <= i < self.frames.len() ==> match #[trigger] self.frames[i].parent {
            Some(p) => p < i,
            None => true,
        }
    }

    pub open spec fn get(self, name: Seq<char>) -> Option<Term> {
        lookup(self.frames, self.current as int, name)
    }

    /// `name` bound to `value` in the current frame.
    pub open spec fn set(self, name: Seq<char>, value: Term) -> Env {
        let f = self.frames[self.current as int];
        Env {
            frames: self.frames.update(
                self.current as int,
                FrameView { entities: assign(f.entities, name, value), parent: f.parent },
            ),
            ..self
        }
    }

    /// A fresh, empty frame appended; `cap` is its parent where that frame exists.
    pub open spec fn push_frame(self, cap: nat) -> Env {
        Env {
            frames: self.frames.push(FrameView {
                entities: Seq::empty(),
                parent: if cap < self.frames.len() { Some(cap) } else { None },
            }),
            ..self
        }
    }

    pub open spec fn with_current(self, c: nat) -> Env {
        Env { current: c, ..self }
    }

    pub open spec fn emit(self, line: Seq<char>) -> Env {
        Env { printed: self.printed.push(line), ..self }
    }
}

/// The environment that a program starts in: one empty root frame.
pub open spec fn initial_env() -> Env {
    Env {
        frames: seq![FrameView { entities: Seq::empty(), parent: None }],
        current: 0,
        printed: Seq::empty(),
    }
}

struct Frame {
    entities: Vec<(String, Expr)>,
    parent: Option<usize>,
}

spec fn frame_view(f: Frame) -> FrameView {
    FrameView {
        entities: Seq::new(f.entities.len() as nat, |i: int| (f.entities[i].0@, f.entities[i].1@)),
        parent: match f.parent {
            Some(p) => Some(p as nat),
            None => None,
        },
    }
}

/// Holds every frame of a program run, the frame evaluation runs in, and
/// the output of `print`.
pub struct Scope {
    frames: Vec<Frame>,
    current: usize,
    printed: Vec<String>,
}

/// A handle through which the evaluator reads and changes an environment.
pub type PassableScope = Scope;

impl View for Scope {
    type V = Env;

    closed spec fn view(&self) -> Env {
        Env {
            frames: Seq::new(self.frames.len() as nat, |i: int| frame_view(self.frames[i])),
            current: self.current as nat,
            printed: Seq::new(self.printed.len() as nat, |i: int| self.printed[i]@),
        }
    }
}

/// The position of the first binding of `name` in `ents`.
fn find_key(ents: &Vec<(String, Expr)>, name: &str) -> (r: Option<usize>)
    ensures
        opt_nat(r) == key_index(Seq::new(ents.len() as nat, |i: int| (ents[i].0@, ents[i].1@)), name@, 0),
        r matches Some(k) ==> k < ents.len(),
{
    let ghost m = Seq::new(ents.len() as nat, |i: int| (ents[i].0@, ents[i].1@));
    let mut i: usize = 0;
    while i < ents.len()
        invariant
            i <= ents.len(),
            m == Seq::new(ents.len() as nat, |i: int| (ents[i].0@, ents[i].1@)),
            key_index(m, name@, 0) == key_index(m, name@, i as nat),
        decreases ents.len() - i,
    {
        if same_text(ents[i].0.as_str(), name) {
            return Some(i);
        }
        i += 1;
    }
    None
}

spec fn opt_nat(o: Option<usize>) -> Option<nat> {
    match o {
        Some(k) => Some(k as nat),
        None => None,
    }
}

impl Scope {
    /// A fresh environment with one empty root frame.
    pub fn new() -> (r: Scope)
        ensures
            r@ == initial_env(),
            r@.wf(),
    {
        let mut frames: Vec<Frame> = Vec::new();
        frames.push(Frame { entities: Vec::new(), parent: None });
        let r = Scope { frames, current: 0, printed: Vec::new() };
        assert(frame_view(r.frames[0]).entities =~= Seq::<(Seq<char>, Term)>::empty());
        assert(r@.frames =~= initial_env().frames);
        assert(r@.printed =~= initial_env().printed);
        r
    }

    /// Makes the environment ready to be handed to the evaluator.
    pub fn wrap(self) -> (r: PassableScope)
        ensures
            r@ == self@,
    {
        self
    }

    /// A new empty frame whose parent is the current frame of `from`;
    /// the new frame becomes current.
    pub fn extend(from: PassableScope) -> (r: PassableScope)
        requires
            from@.wf(),
        ensures
            r@ == from@.push_frame(from@.current).with_current(from@.frames.len()),
            r@.wf(),
    {
        let mut s = from;
        let c = s.current;
        s.enter(c);
        s
    }

    /// Appends a new empty frame whose parent is frame `cap` (where that
    /// frame exists) and makes it current.
    pub fn enter(&mut self, cap: usize)
        requires
            old(self)@.wf(),
        ensures
            final(self)@ == old(self)@.push_frame(cap as nat).with_current(old(self)@.frames.len()),
            final(self)@.wf(),
    {
        let parent = if cap < self.frames.len() { Some(cap) } else { None };
        let n = self.frames.len();
        self.frames.push(Frame { entities: Vec::new(), parent });
        self.current = n;
        proof {
            assert(frame_view(self.frames[n as int]).entities =~= Seq::<(Seq<char>, Term)>::empty());
            assert(final(self)@.frames =~= old(self)@.push_frame(cap as nat).frames);
        }
    }

    /// The index of the frame that evaluation runs in.
    pub fn current_frame(&self) -> (r: usize)
        ensures
            r as nat == self@.current,
    {
        self.current
    }

    /// Makes frame `c` current again.
    pub fn restore(&mut self, c: usize)
        requires
            old(self)@.wf(),
            c < old(self)@.frames.len(),
        ensures
            final(self)@ == old(self)@.with_current(c as nat),
            final(self)@.wf(),
    {
        self.current = c;
    }

    /// Binds `key` to `value` in the current frame only.
    pub fn set(&mut self, key: String, value: Expr)
        requires
            old(self)@.wf(),
        ensures
            final(self)@ == old(self)@.set(key@, value@),
            final(self)@.wf(),
    {
        let c = self.current;
        let k = find_key(&self.frames[c].entities, key.as_str());
        let ghost kv = key@;
        let ghost vv = value@;
        match k {
            Some(k) => {
                self.frames[c].entities.set(k, (key, value));
            },
            None => {
                self.frames[c].entities.push((key, value));
            },
        }
        proof {
            let of = old(self)@.frames[c as int];
            assert(frame_view(self.frames[c as int]).entities =~= assign(of.entities, kv, vv));
            assert(final(self)@.frames =~= old(self)@.set(kv, vv).frames);
        }
    }

    /// The value bound to `key` in the current frame or, failing that, in
    /// the nearest frame up its chain of parents.
    pub fn get(&self, key: &str) -> (r: Option<Expr>)
        requires
            self@.wf(),
        ensures
            opt_view(r) == self@.get(key@),
    {
        let mut i: usize = self.current;
        loop
            invariant
                self@.wf(),
                i < self.frames.len(),
                self@.get(key@) == lookup(self@.frames, i as int, key@),
            decreases i,
        {
            let f = &self.frames[i];
            assert(frame_view(*f) == self@.frames[i as int]);
            match find_key(&f.entities, key) {
                Some(k) => {
                    assert(self@.frames[i as int].entities[k as int].1 == f.entities[k as int].1@);
                    return Some(f.entities[k].1.deep_copy());
                },
                None => {
                    match f.parent {
                        Some(p) => {
                            if p < i {
                                i = p;
                            } else {
                                return None;
                            }
                        },
                        None => {
                            return None;
                        },
                    }
                },
            }
        }
    }

    /// Records one line of output.
    pub fn emit(&mut self, line: String)
        requires
            old(self)@.wf(),
        ensures
            final(self)@ == old(self)@.emit(line@),
            final(self)@.wf(),
    {
        self.printed.push(line);
        assert(final(self)@.printed =~= old(self)@.emit(line@).printed);
        assert(final(self)@.frames =~= old(self)@.frames);
    }

    /// Hands out the lines written so far and forgets them.
    pub fn take_printed(&mut self) -> (r: Vec<String>)
        requires
            old(self)@.wf(),
        ensures
            Seq::new(r.len() as nat, |i: int| r[i]@) == old(self)@.printed,
            final(self)@ == (Env { printed: Seq::empty(), ..old(self)@ }),
            final(self)@.wf(),
    {
        let mut r: Vec<String> = Vec::new();
        r.append(&mut self.printed);
        assert(Seq::new(r.len() as nat, |i: int| r[i]@) =~= old(self)@.printed);
        assert(final(self)@.printed =~= Seq::<Seq<char>>::empty());
        assert(final(self)@.frames =~= old(self)@.frames);
        r
    }
}

} // verus!

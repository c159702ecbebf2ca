use lisper::expr::Expr;
use lisper::repl::{command_hints, CommandHint, CommandHinter};
use lisper::scope::Scope;

fn int_of(e: Option<Expr>) -> Option<i64> {
    match e {
        Some(Expr::Integer(n)) => Some(n),
        _ => None,
    }
}

#[test]
fn set_then_get() {
    let mut s = Scope::new();
    assert_eq!(int_of(s.get("x")), None);
    s.set("x".to_string(), Expr::Integer(1));
    assert_eq!(int_of(s.get("x")), Some(1));
    s.set("x".to_string(), Expr::Integer(2));
    assert_eq!(int_of(s.get("x")), Some(2));
}

#[test]
fn child_frames_see_their_parents() {
    let mut root = Scope::new().wrap();
    root.set("x".to_string(), Expr::Integer(1));
    let mut child = Scope::extend(root);
    assert_eq!(int_of(child.get("x")), Some(1));
    child.set("x".to_string(), Expr::Integer(5));
    child.set("y".to_string(), Expr::Integer(7));
    assert_eq!(int_of(child.get("x")), Some(5));
    let parent = child.current_frame() - 1;
    child.restore(parent);
    assert_eq!(int_of(child.get("x")), Some(1));
    assert_eq!(int_of(child.get("y")), None);
}

#[test]
fn hints_complete_exit() {
    let hints = command_hints();
    assert_eq!(hints.len(), 1);
    assert_eq!(hints[0].display(), "exit");
    assert_eq!(hints[0].completion(), Some("exit".to_string()));
    let hinter = CommandHinter::new(hints);
    let h = hinter.hint("ex", 2).unwrap();
    assert_eq!(h.display(), "it");
    assert_eq!(h.completion(), Some("it".to_string()));
    assert!(hinter.hint("ex", 1).is_none());
    assert!(hinter.hint("", 0).is_none());
    assert!(hinter.hint("quit", 4).is_none());
}

#[test]
fn hinter_drops_repeated_hints() {
    let hinter = CommandHinter::new(vec![
        CommandHint::new("exit", "exit"),
        CommandHint::new("exit", "exit"),
        CommandHint::new("help", "he"),
    ]);
    let h = hinter.hint("he", 2).unwrap();
    assert_eq!(h.display(), "lp");
    assert_eq!(h.completion(), None);
    let e = hinter.hint("e", 1).unwrap();
    assert_eq!(e.display(), "xit");
    assert_eq!(e.completion(), Some("xit".to_string()));
}

#[test]
fn hint_suffix() {
    let h = CommandHint::new("help", "he");
    assert_eq!(h.completion(), Some("he".to_string()));
    let s = h.suffix(3);
    assert_eq!(s.display(), "p");
    assert_eq!(s.completion(), None);
}

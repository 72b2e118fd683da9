use secret_store::commands::{DispatchDecision, HandlerKind, dispatch, lookup};
use secret_store::order::{str_eq, str_lt, str_starts_with};

#[test]
fn known_commands_dispatch_to_their_kind() {
    assert_eq!(DispatchDecision::Run(HandlerKind::MutatesStore), dispatch("add", 2));
    assert_eq!(DispatchDecision::Run(HandlerKind::MutatesStore), dispatch("remove", 1));
    assert_eq!(DispatchDecision::Run(HandlerKind::ReadsStore), dispatch("view", 0));
    assert_eq!(DispatchDecision::Run(HandlerKind::ReadsStore), dispatch("view", 1));
    assert_eq!(DispatchDecision::Run(HandlerKind::ReadsStore), dispatch("save", 1));
    assert_eq!(DispatchDecision::Run(HandlerKind::MutatesStore), dispatch("load", 1));
    assert_eq!(DispatchDecision::Run(HandlerKind::NoStore), dispatch("gen", 0));
    assert_eq!(DispatchDecision::Run(HandlerKind::NoStore), dispatch("help", 1));
}

#[test]
fn arity_is_checked_before_dispatch() {
    assert_eq!(DispatchDecision::TooFewArgs(2), dispatch("add", 1));
    assert_eq!(DispatchDecision::TooManyArgs(2), dispatch("add", 3));
    assert_eq!(DispatchDecision::TooFewArgs(1), dispatch("save", 0));
    assert_eq!(DispatchDecision::TooManyArgs(1), dispatch("view", 2));
}

#[test]
fn unknown_names_are_reported() {
    assert_eq!(DispatchDecision::UnknownCommand, dispatch("frobnicate", 0));
    assert_eq!(DispatchDecision::UnknownCommand, dispatch("", 0));
    assert!(lookup("quit").is_none());
    assert!(lookup("add").is_some());
}

#[test]
fn string_order_is_lexicographic() {
    assert!(str_lt("abc", "abd"));
    assert!(str_lt("ab", "abc"));
    assert!(!str_lt("abc", "abc"));
    assert!(!str_lt("b", "ab"));
    assert!(str_eq("same", "same"));
    assert!(!str_eq("same", "sane"));
}

#[test]
fn prefix_match_is_at_the_start() {
    assert!(str_starts_with("mailbox", "mail"));
    assert!(str_starts_with("mail", ""));
    assert!(!str_starts_with("mail", "mailbox"));
    assert!(!str_starts_with("ab", "b"));
}

use simple_statemachine::{statemachine, plan, DefError, ErrorKind, Step};

fn error_of(text: &str) -> DefError {
    match statemachine(text) {
        Ok(_) => panic!("definition accepted"),
        Err(e) => e,
    }
}

fn strings(v: &[&str]) -> Vec<String> {
    v.iter().map(|s| s.to_string()).collect()
}

#[test]
fn name_lists_in_first_seen_order() {
    let d = statemachine(
        "Name L InitialState A \
         A { OnEntry hello OnExit bye Y[g2] ==act1=> B X[g1] ==act2=> A X => B } \
         B { OnEntry hello2 OnExit bye X[g1] ==act1=> A Z => A }",
    )
    .unwrap();
    assert_eq!(d.name(), "L");
    assert_eq!(*d.events(), strings(&["Y", "X", "Z"]));
    assert_eq!(*d.guards(), strings(&["g2", "g1"]));
    assert_eq!(*d.actions(), strings(&["act1", "act2"]));
    assert_eq!(*d.entry_hooks(), strings(&["hello", "hello2"]));
    assert_eq!(*d.exit_hooks(), strings(&["bye"]));
    assert_eq!(d.states().len(), 2);
    assert_eq!(d.states()[0].rules.len(), 3);
    let r = d.states()[0].rules[1];
    assert_eq!((r.event, r.guard, r.action, r.target), (1, Some(1), Some(1), 0));
    assert_eq!(d.states()[1].on_exit, Some(0));
    assert!(d.unexpected().is_none());
    assert!(d.payload().is_none());
}

#[test]
fn smallest_definition() {
    let d = statemachine("Name M InitialState Only Only {}").unwrap();
    assert_eq!(d.states().len(), 1);
    assert!(d.events().is_empty());
    assert_eq!(d.initial(), 0);
}

#[test]
fn all_options_recognised() {
    let d = statemachine(
        "[action_handler_with_transition_info, entry_handler_with_transition_info, \
          exit_handler_with_transition_info, guard_with_transition_info] \
         Name M InitialState S UnexpectedHandler ueh S { }",
    )
    .unwrap();
    let o = d.options();
    assert!(o.action_with_info && o.entry_with_info && o.exit_with_info && o.guard_with_info);
    assert_eq!(d.unexpected().as_deref(), Some("ueh"));
}

#[test]
fn unknown_option_rejected() {
    let e = error_of("[guard_with_transition_info, loud] Name M InitialState S S { }");
    assert_eq!(e.kind, ErrorKind::UnknownOption);
    assert_eq!(e.pos, 29);
}

#[test]
fn duplicate_state_rejected() {
    let e = error_of("Name M InitialState S S { } T { } S { }");
    assert_eq!(e.kind, ErrorKind::DuplicateState);
    assert_eq!(e.pos, 34);
}

#[test]
fn guard_after_fallback_rejected() {
    let e = error_of("Name M InitialState S S { E => S E[g] => S }");
    assert_eq!(e.kind, ErrorKind::GuardAfterFallback);
    assert_eq!(e.pos, 35);
}

#[test]
fn guard_after_fallback_of_other_event_accepted() {
    assert!(statemachine("Name M InitialState S S { F => S E[g] => S E => S }").is_ok());
}

#[test]
fn duplicate_trigger_rejected() {
    let e = error_of("Name M InitialState S S { E[g] => S E[g] ==a=> S }");
    assert_eq!(e.kind, ErrorKind::DuplicateTrigger);
    assert_eq!(e.pos, 38);
    let e = error_of("Name M InitialState S S { E => S E => S }");
    assert_eq!(e.kind, ErrorKind::DuplicateTrigger);
    assert_eq!(e.pos, 33);
}

#[test]
fn undefined_target_rejected() {
    let e = error_of("Name M InitialState S S { E => Nowhere }");
    assert_eq!(e.kind, ErrorKind::UndefinedTarget);
    assert_eq!(e.pos, 31);
}

#[test]
fn target_declared_later_accepted() {
    assert!(statemachine("Name M InitialState S S { E => T } T { }").is_ok());
}

#[test]
fn undefined_initial_state_rejected() {
    let e = error_of("Name M InitialState Q S { }");
    assert_eq!(e.kind, ErrorKind::UndefinedInitialState);
    assert_eq!(e.pos, 20);
}

#[test]
fn missing_arrow_rejected() {
    let e = error_of("Name M InitialState S S { E ==a S }");
    assert_eq!(e.kind, ErrorKind::Syntax);
    assert_eq!(e.pos, 32);
}

#[test]
fn missing_target_rejected() {
    let e = error_of("Name M InitialState S S { E => }");
    assert_eq!(e.kind, ErrorKind::Syntax);
    assert_eq!(e.pos, 31);
}

#[test]
fn missing_state_rejected() {
    let e = error_of("Name M InitialState S");
    assert_eq!(e.kind, ErrorKind::Syntax);
    assert_eq!(e.pos, 21);
}

#[test]
fn bad_character_rejected() {
    let e = error_of("Name M InitialState S S { E -> S }");
    assert_eq!(e.kind, ErrorKind::UnexpectedChar);
    assert_eq!(e.pos, 28);
}

#[test]
fn error_messages_readable() {
    assert_eq!(ErrorKind::DuplicateTrigger.message(), "duplicate event/guard trigger combination");
    assert!(ErrorKind::GuardAfterFallback.message().starts_with("guarded event found after unguarded"));
}

#[test]
fn plan_orders_exit_action_move_entry() {
    let d = statemachine("Name O InitialState A A { OnExit out_a X ==act=> B } B { OnEntry in_b }").unwrap();
    assert_eq!(plan(&d, 0, Some(0)), vec![Step::Exit(0), Step::Action(0), Step::Move(1), Step::Entry(0)]);
    assert_eq!(plan(&d, 1, None), vec![]);
    let d = statemachine("Name O InitialState A UnexpectedHandler u A { X => A }").unwrap();
    assert_eq!(plan(&d, 0, None), vec![Step::Unexpected]);
    assert_eq!(plan(&d, 0, Some(0)), vec![Step::Move(0)]);
}

#[test]
fn trailing_comma_in_options_accepted() {
    let d = statemachine(
        "[guard_with_transition_info, entry_handler_with_transition_info,] Name M InitialState S S { }",
    )
    .unwrap();
    let o = d.options();
    assert!(o.guard_with_info && o.entry_with_info);
    assert!(!o.action_with_info && !o.exit_with_info);
    assert!(d.payload().is_none());
}

#[test]
fn empty_option_list_accepted() {
    let d = statemachine("[] Name M InitialState S S { }").unwrap();
    let o = d.options();
    assert!(!o.guard_with_info && !o.entry_with_info && !o.action_with_info && !o.exit_with_info);
}

#[test]
fn lone_comma_in_options_rejected() {
    let e = error_of("[,] Name M InitialState S S { }");
    assert_eq!(e.kind, ErrorKind::Syntax);
    assert_eq!(e.pos, 1);
}

#[test]
fn message_for_each_kind() {
    assert_eq!(ErrorKind::UndefinedTarget.message(), "target state is not defined");
    assert_eq!(ErrorKind::UnexpectedChar.message(), "unexpected character");
}

#[test]
fn unknown_option_reported_before_later_syntax_error() {
    let e = error_of("[foo] Name M InitialState A  A { E }");
    assert_eq!(e.kind, ErrorKind::UnknownOption);
    assert_eq!(e.pos, 1);
}

#[test]
fn unknown_option_reported_before_malformed_list() {
    let e = error_of("[guard_with_transition_info, foo bar] Name M InitialState A A { }");
    assert_eq!(e.kind, ErrorKind::UnknownOption);
    assert_eq!(e.pos, 29);
}

#[test]
fn malformed_list_of_known_options_is_syntax_error() {
    let e = error_of("[guard_with_transition_info guard_with_transition_info] Name M InitialState A A { }");
    assert_eq!(e.kind, ErrorKind::Syntax);
    assert_eq!(e.pos, 28);
}

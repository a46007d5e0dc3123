use simple_statemachine::{statemachine, Definition, Event, Handler, Machine, Outbox, Transition};

/// Records every callback and answers guards from a fixed table.
struct Recorder {
    log: Vec<String>,
    open_guards: Vec<String>,
    post_from: Vec<(String, usize)>,
    stored: Vec<i64>,
}

impl Recorder {
    fn new() -> Recorder {
        Recorder { log: Vec::new(), open_guards: Vec::new(), post_from: Vec::new(), stored: Vec::new() }
    }

    fn posts<P: Default>(&self, name: &str, outbox: &mut Outbox<P>) {
        for (callback, kind) in &self.post_from {
            if callback == name {
                outbox.post(Event { kind: *kind, payload: P::default() });
            }
        }
    }
}

fn describe<P>(context: &Option<Transition<'_, P>>) -> String {
    match context {
        Some(t) => format!("({},{},{})", t.old_state, t.event.kind, t.new_state),
        None => String::new(),
    }
}

impl<P: Default + Copy + Into<i64>> Handler<P> for Recorder {
    fn guard(&self, name: &str, context: Option<(usize, &Event<P>)>) -> bool {
        let _ = context;
        self.open_guards.iter().any(|g| g == name)
    }

    fn action(&mut self, name: &str, context: Option<Transition<'_, P>>, payload: Option<&P>, outbox: &mut Outbox<P>) {
        self.log.push(format!("action:{}{}", name, describe(&context)));
        if let Some(p) = payload {
            self.stored.push((*p).into());
        }
        self.posts(name, outbox);
    }

    fn on_entry(&mut self, name: &str, context: Option<Transition<'_, P>>, outbox: &mut Outbox<P>) {
        self.log.push(format!("entry:{}{}", name, describe(&context)));
        self.posts(name, outbox);
    }

    fn on_exit(&mut self, name: &str, context: Option<Transition<'_, P>>, outbox: &mut Outbox<P>) {
        self.log.push(format!("exit:{}{}", name, describe(&context)));
        self.posts(name, outbox);
    }

    fn unexpected(&mut self, name: &str, state: usize, event: &Event<P>, outbox: &mut Outbox<P>) {
        self.log.push(format!("unexpected:{}({},{})", name, state, event.kind));
        self.posts(name, outbox);
    }
}

fn definition(text: &str) -> Definition {
    match statemachine(text) {
        Ok(d) => d,
        Err(e) => panic!("definition rejected: {:?} at {}", e.kind, e.pos),
    }
}

fn event_of(d: &Definition, name: &str) -> Event<i32> {
    Event { kind: d.event_named(name).unwrap(), payload: 0 }
}

fn state_of(d: &Definition, name: &str) -> usize {
    d.state_named(name).unwrap()
}

fn state_name(m: &Machine<i32, Recorder>) -> String {
    m.get_state_name().clone()
}

#[test]
fn starts_in_initial_state() {
    let d = definition("Name M InitialState B A { X => B } B { X => A }");
    assert_eq!(d.initial(), 1);
    let m: Machine<i32, Recorder> = Machine::new(d, Recorder::new());
    assert_eq!(state_name(&m), "B");
    assert_eq!(m.get_state(), 1);
}

#[test]
fn toggles_twice_back_to_start() {
    let d = definition("Name Toggle InitialState A A { X => B } B { X => A }");
    let x = d.event_named("X").unwrap();
    let mut m: Machine<i32, Recorder> = Machine::new(d, Recorder::new());
    m.event(Event { kind: x, payload: 0 });
    assert_eq!(state_name(&m), "B");
    m.event(Event { kind: x, payload: 0 });
    assert_eq!(state_name(&m), "A");
}

#[test]
fn guard_false_falls_back_true_moves() {
    let text = "Name G InitialState A A { E[g1] => B E => A } B { }";
    let d = definition(text);
    let e = event_of(&d, "E");
    let mut m: Machine<i32, Recorder> = Machine::new(d, Recorder::new());
    m.event(e);
    assert_eq!(state_name(&m), "A");

    let d = definition(text);
    let e = event_of(&d, "E");
    let mut h = Recorder::new();
    h.open_guards.push("g1".to_string());
    let mut m: Machine<i32, Recorder> = Machine::new(d, h);
    m.event(e);
    assert_eq!(state_name(&m), "B");
}

#[test]
fn guards_tried_in_declaration_order() {
    let text = "Name G InitialState A A { E[g1] ==a1=> B E[g2] ==a2=> C E ==a3=> A } B { } C { }";
    let d = definition(text);
    let e = event_of(&d, "E");
    let mut h = Recorder::new();
    h.open_guards.push("g2".to_string());
    let mut m: Machine<i32, Recorder> = Machine::new(d, h);
    m.event(e);
    assert_eq!(state_name(&m), "C");
    assert_eq!(m.get_handler_ref().log, vec!["action:a2".to_string()]);

    let d = definition(text);
    let e = event_of(&d, "E");
    let mut m: Machine<i32, Recorder> = Machine::new(d, Recorder::new());
    m.event(e);
    assert_eq!(state_name(&m), "A");
    assert_eq!(m.get_handler_ref().log, vec!["action:a3".to_string()]);
}

#[test]
fn payload_reaches_action() {
    let d = definition("Name R InitialState Idle EventPayload i32 Idle { Recv ==store=> Idle }");
    assert_eq!(d.payload().as_deref(), Some("i32"));
    let recv = d.event_named("Recv").unwrap();
    let mut m: Machine<i32, Recorder> = Machine::new(d, Recorder::new());
    m.event(Event { kind: recv, payload: 42 });
    assert_eq!(m.get_handler_ref().stored, vec![42]);
    assert_eq!(m.get_handler_ref().log, vec!["action:store".to_string()]);
}

#[test]
fn no_payload_without_payload_type() {
    let d = definition("Name R InitialState Idle Idle { Recv ==store=> Idle }");
    let recv = d.event_named("Recv").unwrap();
    let mut m: Machine<i32, Recorder> = Machine::new(d, Recorder::new());
    m.event(Event { kind: recv, payload: 42 });
    assert!(m.get_handler_ref().stored.is_empty());
}

#[test]
fn unmatched_event_is_absorbed() {
    let d = definition("Name U InitialState A A { OnExit leave X => B Y[g] => B } B { OnEntry come }");
    let y = event_of(&d, "Y");
    let x = event_of(&d, "X");
    let mut m: Machine<i32, Recorder> = Machine::new(d, Recorder::new());
    m.event(y);
    assert_eq!(state_name(&m), "A");
    assert!(m.get_handler_ref().log.is_empty());
    m.event(x);
    let y = event_of(m.definition(), "Y");
    m.event(y);
    assert_eq!(state_name(&m), "B");
    assert_eq!(m.get_handler_ref().log, vec!["exit:leave".to_string(), "entry:come".to_string()]);
}

#[test]
fn unmatched_event_goes_to_unexpected_handler() {
    let d = definition("Name U InitialState A UnexpectedHandler odd A { X => B } B { Y => A }");
    let y = event_of(&d, "Y");
    let a = state_of(&d, "A");
    let y_kind = y.kind;
    let mut m: Machine<i32, Recorder> = Machine::new(d, Recorder::new());
    m.event(y);
    assert_eq!(state_name(&m), "A");
    assert_eq!(m.get_handler_ref().log, vec![format!("unexpected:odd({},{})", a, y_kind)]);
}

#[test]
fn exit_action_entry_order() {
    let d = definition("Name O InitialState A A { OnEntry in_a OnExit out_a X ==act=> B } B { OnEntry in_b OnExit out_b }");
    let x = event_of(&d, "X");
    let mut m: Machine<i32, Recorder> = Machine::new(d, Recorder::new());
    m.event(x);
    assert_eq!(
        m.get_handler_ref().log,
        vec!["exit:out_a".to_string(), "action:act".to_string(), "entry:in_b".to_string()]
    );
}

#[test]
fn transition_info_passed_where_asked() {
    let d = definition(
        "[entry_handler_with_transition_info, action_handler_with_transition_info] \
         Name O InitialState A A { OnExit out_a X ==act=> B } B { OnEntry in_b }",
    );
    assert!(d.options().entry_with_info);
    assert!(d.options().action_with_info);
    assert!(!d.options().exit_with_info);
    assert!(!d.options().guard_with_info);
    let x = event_of(&d, "X");
    let (a, b) = (state_of(&d, "A"), state_of(&d, "B"));
    let k = x.kind;
    let mut m: Machine<i32, Recorder> = Machine::new(d, Recorder::new());
    m.event(x);
    assert_eq!(
        m.get_handler_ref().log,
        vec![
            "exit:out_a".to_string(),
            format!("action:act({},{},{})", a, k, b),
            format!("entry:in_b({},{},{})", a, k, b),
        ]
    );
}

#[test]
fn posted_event_runs_before_return() {
    let d = definition(
        "Name C InitialState Init Init { Defer ==decide=> Mid } Mid { First => One Second => Two } One { Back => Init } Two { }",
    );
    let defer = event_of(&d, "Defer");
    let first = d.event_named("First").unwrap();
    let mut h = Recorder::new();
    h.post_from.push(("decide".to_string(), first));
    let mut m: Machine<i32, Recorder> = Machine::new(d, h);
    m.event(defer);
    assert_eq!(state_name(&m), "One");
}

#[test]
fn second_post_overwrites_first() {
    let d = definition(
        "Name C InitialState Init Init { OnExit leave Defer ==decide=> Mid } Mid { First => One Second => Two } One { } Two { }",
    );
    let defer = event_of(&d, "Defer");
    let first = d.event_named("First").unwrap();
    let second = d.event_named("Second").unwrap();
    let mut h = Recorder::new();
    h.post_from.push(("leave".to_string(), first));
    h.post_from.push(("decide".to_string(), second));
    let mut m: Machine<i32, Recorder> = Machine::new(d, h);
    m.event(defer);
    assert_eq!(state_name(&m), "Two");
}

#[test]
fn posted_chain_continues() {
    let d = definition("Name C InitialState A A { Go ==hop=> B } B { OnEntry again Go => C } C { }");
    let go = event_of(&d, "Go");
    let kind = go.kind;
    let mut h = Recorder::new();
    h.post_from.push(("again".to_string(), kind));
    let mut m: Machine<i32, Recorder> = Machine::new(d, h);
    m.event(go);
    assert_eq!(state_name(&m), "C");
    assert_eq!(m.get_handler_ref().log, vec!["action:hop".to_string(), "entry:again".to_string()]);
}

#[test]
fn handler_access() {
    let d = definition("Name S InitialState Only Only { }");
    let mut m: Machine<i32, Recorder> = Machine::new(d, Recorder::new());
    assert!(m.get_handler_ref().open_guards.is_empty());
    m.get_handler_mut().open_guards.push("g".to_string());
    assert_eq!(m.get_handler_ref().open_guards.len(), 1);
}

#[test]
fn traffic_light_with_button() {
    let d = definition(
        "Name TrafficLight InitialState DontWalk \
         DontWalk { ButtonPressed ==set_pressed=> DontWalk TimerFired[is_pressed] ==to_walk=> Walk TimerFired => DontWalk } \
         Walk { OnEntry clear_pressed TimerFired ==to_dont_walk=> DontWalk }",
    );
    let timer = event_of(&d, "TimerFired");
    let timer_kind = timer.kind;
    let mut m: Machine<i32, Recorder> = Machine::new(d, Recorder::new());
    m.event(timer);
    assert_eq!(state_name(&m), "DontWalk");
    m.get_handler_mut().open_guards.push("is_pressed".to_string());
    m.event(Event { kind: timer_kind, payload: 0 });
    assert_eq!(state_name(&m), "Walk");
    m.event(Event { kind: timer_kind, payload: 0 });
    assert_eq!(state_name(&m), "DontWalk");
}

/// Opens its guard only when told the transition context, and only in state 0.
struct ContextGuard {
    moved: bool,
}

impl Handler<()> for ContextGuard {
    fn guard(&self, _name: &str, context: Option<(usize, &Event<()>)>) -> bool {
        matches!(context, Some((0, _)))
    }

    fn action(&mut self, _name: &str, _context: Option<Transition<'_, ()>>, payload: Option<&()>, _outbox: &mut Outbox<()>) {
        assert!(payload.is_none());
        self.moved = true;
    }

    fn on_entry(&mut self, _name: &str, _context: Option<Transition<'_, ()>>, _outbox: &mut Outbox<()>) {}

    fn on_exit(&mut self, _name: &str, _context: Option<Transition<'_, ()>>, _outbox: &mut Outbox<()>) {}

    fn unexpected(&mut self, _name: &str, _state: usize, _event: &Event<()>, _outbox: &mut Outbox<()>) {}
}

#[test]
fn guard_context_given_only_with_option() {
    let text = "Name G InitialState A A { E[g] ==go=> B } B { }";
    let d = statemachine(text).unwrap();
    let e = d.event_named("E").unwrap();
    let mut m = Machine::new(d, ContextGuard { moved: false });
    m.event(Event { kind: e, payload: () });
    assert_eq!(m.get_state(), 0);
    assert!(!m.get_handler_ref().moved);

    let d = statemachine(&format!("[guard_with_transition_info] {}", text)).unwrap();
    let mut m = Machine::new(d, ContextGuard { moved: false });
    m.event(Event { kind: e, payload: () });
    assert_eq!(m.get_state(), 1);
    assert!(m.get_handler_ref().moved);
}

#[test]
fn unknown_event_kind_is_unmatched() {
    let d = definition("Name U InitialState A UnexpectedHandler odd A { X => A }");
    let mut m: Machine<i32, Recorder> = Machine::new(d, Recorder::new());
    m.event(Event { kind: 7, payload: 0 });
    assert_eq!(m.get_handler_ref().log, vec!["unexpected:odd(0,7)".to_string()]);
}

#[test]
fn self_transition_runs_exit_action_entry() {
    let d = definition("Name O InitialState A A { OnEntry in_a OnExit out_a X ==act=> A }");
    let x = event_of(&d, "X");
    let mut m: Machine<i32, Recorder> = Machine::new(d, Recorder::new());
    m.event(x);
    assert_eq!(state_name(&m), "A");
    assert_eq!(
        m.get_handler_ref().log,
        vec!["exit:out_a".to_string(), "action:act".to_string(), "entry:in_a".to_string()]
    );
}

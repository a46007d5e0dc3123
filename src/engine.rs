use vstd::prelude::*;
use crate::model::{Definition, DefinitionV, Rule, texts};
use crate::seqs::{concat_all, lemma_concat_new_step, lemma_concat_new_tail_empty};

verus! {

/// An event sent to a machine: the position of its name in the definition's event list, and
/// its payload. A machine without a configured payload type takes `()` as payload.
pub struct Event<P> {
    pub kind: usize,
    pub payload: P,
}

/// What a callback is told of the transition under way when its option is set.
pub struct Transition<'a, P> {
    pub old_state: usize,
    pub event: &'a Event<P>,
    pub new_state: usize,
}

/// The one-slot buffer through which a callback posts an event to its own machine.
pub struct Outbox<P> {
    slot: Option<Event<P>>,
}

impl<P> Outbox<P> {
    pub closed spec fn pending(&self) -> Option<Event<P>> {
        self.slot
    }

    fn take(&mut self) -> (r: Option<Event<P>>)
        ensures
            r == old(self).pending(),
            final(self).pending() is None,
    {
        let mut out: Option<Event<P>> = None;
        std::mem::swap(&mut out, &mut self.slot);
        out
    }

    /// Posts `ev`; it is processed once the transition under way is complete. A second post
    /// during the same transition replaces the first.
    pub fn post(&mut self, ev: Event<P>)
        ensures
            final(self).pending() == Some(ev),
    {
        self.slot = Some(ev);
    }
}

pub open spec fn owned_context<P>(c: Option<(usize, &Event<P>)>) -> Option<(usize, Event<P>)> {
    match c {
        Some((s, e)) => Some((s, *e)),
        None => None,
    }
}

pub open spec fn transition_view<P>(c: Option<Transition<'_, P>>) -> Option<(usize, Event<P>, usize)> {
    match c {
        Some(t) => Some((t.old_state, *t.event, t.new_state)),
        None => None,
    }
}

pub open spec fn payload_view<P>(p: Option<&P>) -> Option<P> {
    match p {
        Some(x) => Some(*x),
        None => None,
    }
}

/// The callbacks of a machine, looked up by the names that the definition gives them.
/// The machine calls a method only with a name from the matching list of its definition.
/// What each callback does is stated by a spec function of the handler: a guard's answer, and
/// for the others the handler afterwards and the event then waiting in the outbox, from the
/// handler before, the arguments and the event waiting before. A handler verified with the
/// machine defines them; one that is not leaves them unknown.
pub trait Handler<P>: Sized {
    /// What guard `name` answers in the handler's present state, given `context`.
    closed spec fn guard_answer(&self, name: Seq<char>, context: Option<(usize, Event<P>)>) -> bool {
        arbitrary()
    }

    /// The handler and the waiting event after action `name`.
    closed spec fn action_effect(
        &self,
        name: Seq<char>,
        context: Option<(usize, Event<P>, usize)>,
        payload: Option<P>,
        pending: Option<Event<P>>,
    ) -> (Self, Option<Event<P>>) {
        arbitrary()
    }

    /// The handler and the waiting event after entry hook `name`.
    closed spec fn entry_effect(
        &self,
        name: Seq<char>,
        context: Option<(usize, Event<P>, usize)>,
        pending: Option<Event<P>>,
    ) -> (Self, Option<Event<P>>) {
        arbitrary()
    }

    /// The handler and the waiting event after exit hook `name`.
    closed spec fn exit_effect(
        &self,
        name: Seq<char>,
        context: Option<(usize, Event<P>, usize)>,
        pending: Option<Event<P>>,
    ) -> (Self, Option<Event<P>>) {
        arbitrary()
    }

    /// The handler and the waiting event after the unexpected-event handler `name`.
    closed spec fn unexpected_effect(
        &self,
        name: Seq<char>,
        state: usize,
        event: Event<P>,
        pending: Option<Event<P>>,
    ) -> (Self, Option<Event<P>>) {
        arbitrary()
    }

    /// Evaluates guard `name`. `context` holds the current state and the event where the
    /// definition sets `guard_with_transition_info`.
    fn guard(&self, name: &str, context: Option<(usize, &Event<P>)>) -> (r: bool)
        ensures
            r == self.guard_answer(name@, owned_context(context)),
    ;

    /// Runs action `name`. `context` is given where `action_handler_with_transition_info`
    /// is set, `payload` where the definition configures an event payload.
    fn action(
        &mut self,
        name: &str,
        context: Option<Transition<'_, P>>,
        payload: Option<&P>,
        outbox: &mut Outbox<P>,
    )
        ensures
            (*final(self), final(outbox).pending()) == old(self).action_effect(
                name@,
                transition_view(context),
                payload_view(payload),
                old(outbox).pending(),
            ),
    ;

    /// Runs entry hook `name`; `context` is given where `entry_handler_with_transition_info` is set.
    fn on_entry(&mut self, name: &str, context: Option<Transition<'_, P>>, outbox: &mut Outbox<P>)
        ensures
            (*final(self), final(outbox).pending()) == old(self).entry_effect(
                name@,
                transition_view(context),
                old(outbox).pending(),
            ),
    ;

    /// Runs exit hook `name`; `context` is given where `exit_handler_with_transition_info` is set.
    fn on_exit(&mut self, name: &str, context: Option<Transition<'_, P>>, outbox: &mut Outbox<P>)
        ensures
            (*final(self), final(outbox).pending()) == old(self).exit_effect(
                name@,
                transition_view(context),
                old(outbox).pending(),
            ),
    ;

    /// Called with the current state and the event where no rule matches, if the definition
    /// names an unexpected-event handler.
    fn unexpected(&mut self, name: &str, state: usize, event: &Event<P>, outbox: &mut Outbox<P>)
        ensures
            (*final(self), final(outbox).pending()) == old(self).unexpected_effect(
                name@,
                state,
                *event,
                old(outbox).pending(),
            ),
    ;
}

/// One thing a transition does, in the order in which it does them.
#[derive(Clone, Copy, Debug, PartialEq, Eq, Structural)]
pub enum Step {
    /// Call the exit hook with this index.
    Exit(usize),
    /// Call the action with this index.
    Action(usize),
    /// Make this state the current one.
    Move(usize),
    /// Call the entry hook with this index.
    Entry(usize),
    /// Call the unexpected-event handler.
    Unexpected,
}

/// Rule `r` fires for event `e`, given what its guard answered if it was asked.
pub open spec fn enabled(r: Rule, e: usize, answer: Option<bool>) -> bool {
    r.event == e && (r.guard is None || answer == Some(true))
}

/// The first rule from index `from` on that fires.
pub open spec fn first_match(rules: Seq<Rule>, e: usize, asked: Seq<Option<bool>>, from: int) -> Option<int>
    decreases rules.len() - from,
{
    if from < 0 || from >= rules.len() {
        None
    } else if enabled(rules[from], e, asked[from]) {
        Some(from)
    } else {
        first_match(rules, e, asked, from + 1)
    }
}

/// The guards asked are those of the rules for `e`, top to bottom, up to the rule picked:
/// none below it, and every guarded one above it and its own.
pub open spec fn asked_in_order(rules: Seq<Rule>, e: usize, asked: Seq<Option<bool>>, pick: Option<int>) -> bool {
    &&& asked.len() == rules.len()
    &&& forall|j: int|
        0 <= j < rules.len() ==> (#[trigger] asked[j] is Some <==> (rules[j].event == e
            && rules[j].guard is Some && (pick matches Some(k) ==> j <= k)))
}

/// The state a machine is in after picking `pick` in state `s`.
pub open spec fn after(d: DefinitionV, s: int, pick: Option<int>) -> int {
    match pick {
        Some(k) => d.states[s].rules[k].target as int,
        None => s,
    }
}

pub open spec fn hook_steps(h: Option<usize>, exit: bool) -> Seq<Step> {
    match h {
        Some(x) => if exit {
            seq![Step::Exit(x)]
        } else {
            seq![Step::Entry(x)]
        },
        None => seq![],
    }
}

pub open spec fn action_steps(a: Option<usize>) -> Seq<Step> {
    match a {
        Some(x) => seq![Step::Action(x)],
        None => seq![],
    }
}

/// What a machine in state `s` does once it has picked `pick`: for a rule, the old state's
/// exit hook, the rule's action, the move, the new state's entry hook, each where there is
/// one; for no rule, the unexpected-event handler where there is one, else nothing.
pub open spec fn plan_of(d: DefinitionV, s: int, pick: Option<int>) -> Seq<Step> {
    match pick {
        Some(k) => {
            let r = d.states[s].rules[k];
            hook_steps(d.states[s].on_exit, true) + action_steps(r.action) + seq![
                Step::Move(r.target),
            ] + hook_steps(d.states[r.target as int].on_entry, false)
        },
        None => if d.unexpected is Some {
            seq![Step::Unexpected]
        } else {
            seq![]
        },
    }
}

pub open spec fn step_ok(d: DefinitionV, st: Step) -> bool {
    match st {
        Step::Exit(x) => x < d.exit_hooks.len(),
        Step::Action(x) => x < d.actions.len(),
        Step::Move(x) => x < d.states.len(),
        Step::Entry(x) => x < d.entry_hooks.len(),
        Step::Unexpected => d.unexpected is Some,
    }
}

pub open spec fn pick_ok(d: DefinitionV, s: int, pick: Option<int>) -> bool {
    0 <= s < d.states.len() && (pick matches Some(k) ==> 0 <= k < d.states[s].rules.len())
}

/// The steps for state `s` and the pick `pick`.
pub fn plan(d: &Definition, s: usize, pick: Option<usize>) -> (r: Vec<Step>)
    requires
        pick_ok(d@, s as int, match pick {
            Some(k) => Some(k as int),
            None => None,
        }),
    ensures
        r@ == plan_of(d@, s as int, match pick {
            Some(k) => Some(k as int),
            None => None,
        }),
        forall|j: int| 0 <= j < r@.len() ==> step_ok(d@, #[trigger] r@[j]),
{
    d.well_formed();
    let states = d.states();
    let mut out: Vec<Step> = Vec::new();
    proof {
        assert(states@[s as int]@ == d@.states[s as int]);
        assert(d@.state_ok(d@.states[s as int]));
    }
    match pick {
        Some(k) => {
            let st = &states[s];
            let r = st.rules[k];
            proof {
                assert(d@.rule_ok(d@.states[s as int].rules[k as int]));
                assert(states@[r.target as int]@ == d@.states[r.target as int]);
                assert(d@.state_ok(d@.states[r.target as int]));
            }
            if let Some(x) = st.on_exit {
                out.push(Step::Exit(x));
            }
            if let Some(a) = r.action {
                out.push(Step::Action(a));
            }
            out.push(Step::Move(r.target));
            if let Some(x) = states[r.target].on_entry {
                out.push(Step::Entry(x));
            }
        },
        None => {
            if d.unexpected().is_some() {
                out.push(Step::Unexpected);
            }
        },
    }
    assert(out@ =~= plan_of(d@, s as int, match pick {
        Some(k) => Some(k as int),
        None => None,
    }));
    out
}


proof fn lemma_first_match_skip(rules: Seq<Rule>, e: usize, asked: Seq<Option<bool>>, from: int, to: int)
    requires
        0 <= from <= to <= rules.len(),
        forall|j: int| from <= j < to ==> !enabled(rules[j], e, #[trigger] asked[j]),
    ensures
        first_match(rules, e, asked, from) == first_match(rules, e, asked, to),
    decreases to - from,
{
    if from < to {
        lemma_first_match_skip(rules, e, asked, from + 1, to);
    }
}

/// Where the move stands among the steps of `plan_of(d, s, pick)`; past the end when there is none.
pub open spec fn move_at(d: DefinitionV, s: int, pick: Option<int>) -> int {
    match pick {
        Some(k) => (hook_steps(d.states[s].on_exit, true).len() + action_steps(
            d.states[s].rules[k].action,
        ).len()) as int,
        None => plan_of(d, s, pick).len() as int,
    }
}

proof fn lemma_plan_move(d: DefinitionV, s: int, pick: Option<int>)
    ensures
        move_at(d, s, pick) <= plan_of(d, s, pick).len(),
        pick is Some ==> move_at(d, s, pick) < plan_of(d, s, pick).len() && plan_of(d, s, pick)[move_at(d, s, pick)] == Step::Move(after(d, s, pick) as usize),
        forall|j: int|
            0 <= j < plan_of(d, s, pick).len() && #[trigger] plan_of(d, s, pick)[j] is Move ==> j == move_at(d, s, pick),
{
    match pick {
        Some(k) => {
            let r = d.states[s].rules[k];
            let a = hook_steps(d.states[s].on_exit, true);
            let b = action_steps(r.action);
            let c = seq![Step::Move(r.target)];
            let e = hook_steps(d.states[r.target as int].on_entry, false);
            assert(plan_of(d, s, pick) == a + b + c + e);
            assert forall|j: int|
                0 <= j < plan_of(d, s, pick).len() && #[trigger] plan_of(d, s, pick)[j] is Move implies j
                == move_at(d, s, pick) by {
                if j < a.len() {
                    assert(plan_of(d, s, pick)[j] == a[j]);
                } else if j < a.len() + b.len() {
                    assert(plan_of(d, s, pick)[j] == b[j - a.len()]);
                } else if j > a.len() + b.len() {
                    assert(plan_of(d, s, pick)[j] == e[j - a.len() - b.len() - 1]);
                }
            }
        },
        None => {},
    }
}

/// A callback as a machine called it, recorded at the call.
pub enum Call<P> {
    /// Guard name, context, answer.
    Guard(Seq<char>, Option<(usize, Event<P>)>, bool),
    /// Exit hook name, context (old state, event, new state).
    Exit(Seq<char>, Option<(usize, Event<P>, usize)>),
    /// Action name, context, payload.
    Action(Seq<char>, Option<(usize, Event<P>, usize)>, Option<P>),
    /// Entry hook name, context.
    Entry(Seq<char>, Option<(usize, Event<P>, usize)>),
    /// Unexpected-event handler name, state, event.
    Unexpected(Seq<char>, usize, Event<P>),
}

/// The context a guard gets: the state and the event where the option asks for it.
pub open spec fn guard_context<P>(d: DefinitionV, s: int, ev: Event<P>) -> Option<(usize, Event<P>)> {
    if d.options.guard_with_info {
        Some((s as usize, ev))
    } else {
        None
    }
}

/// The context a hook or action gets where its option `flag` is set.
pub open spec fn transition_context<P>(flag: bool, s: int, ev: Event<P>, to: int) -> Option<(usize, Event<P>, usize)> {
    if flag {
        Some((s as usize, ev, to as usize))
    } else {
        None
    }
}

/// The payload an action gets: the event's, where the definition configures a payload type.
pub open spec fn action_payload<P>(d: DefinitionV, ev: Event<P>) -> Option<P> {
    if d.payload is Some {
        Some(ev.payload)
    } else {
        None
    }
}

/// The guard call for rule `j` of state `s`, where its guard was asked and answered.
pub open spec fn guard_call<P>(d: DefinitionV, s: int, ev: Event<P>, j: int, answer: Option<bool>) -> Seq<Call<P>> {
    match answer {
        Some(a) => seq![
            Call::Guard(
                d.guards[d.states[s].rules[j].guard->Some_0 as int],
                guard_context(d, s, ev),
                a,
            ),
        ],
        None => seq![],
    }
}

/// The guard calls of a turn, top to bottom.
pub open spec fn guard_calls<P>(d: DefinitionV, s: int, ev: Event<P>, asked: Seq<Option<bool>>) -> Seq<Call<P>> {
    concat_all(Seq::new(asked.len(), |j: int| guard_call(d, s, ev, j, asked[j])))
}

/// The call a step makes: none for the move.
pub open spec fn step_call<P>(d: DefinitionV, s: int, ev: Event<P>, to: int, st: Step) -> Seq<Call<P>> {
    match st {
        Step::Exit(x) => seq![
            Call::Exit(d.exit_hooks[x as int], transition_context(d.options.exit_with_info, s, ev, to)),
        ],
        Step::Action(x) => seq![
            Call::Action(
                d.actions[x as int],
                transition_context(d.options.action_with_info, s, ev, to),
                action_payload(d, ev),
            ),
        ],
        Step::Move(_) => seq![],
        Step::Entry(x) => seq![
            Call::Entry(d.entry_hooks[x as int], transition_context(d.options.entry_with_info, s, ev, to)),
        ],
        Step::Unexpected => seq![Call::Unexpected(d.unexpected->Some_0, s as usize, ev)],
    }
}

/// The calls of the first `n` steps of a plan.
pub open spec fn step_calls<P>(d: DefinitionV, s: int, ev: Event<P>, to: int, plan: Seq<Step>, n: int) -> Seq<Call<P>> {
    concat_all(Seq::new(n as nat, |j: int| step_call(d, s, ev, to, plan[j])))
}

/// The handler and the waiting event after one step, from those before it.
pub open spec fn step_effect<P, H: Handler<P>>(
    d: DefinitionV,
    s: int,
    ev: Event<P>,
    to: int,
    st: Step,
    h: H,
    pending: Option<Event<P>>,
) -> (H, Option<Event<P>>) {
    match st {
        Step::Exit(x) => h.exit_effect(
            d.exit_hooks[x as int],
            transition_context(d.options.exit_with_info, s, ev, to),
            pending,
        ),
        Step::Action(x) => h.action_effect(
            d.actions[x as int],
            transition_context(d.options.action_with_info, s, ev, to),
            action_payload(d, ev),
            pending,
        ),
        Step::Move(_) => (h, pending),
        Step::Entry(x) => h.entry_effect(
            d.entry_hooks[x as int],
            transition_context(d.options.entry_with_info, s, ev, to),
            pending,
        ),
        Step::Unexpected => h.unexpected_effect(d.unexpected->Some_0, s as usize, ev, pending),
    }
}

/// The handler and the waiting event after the first `n` steps of a plan, starting from
/// handler `h` and an empty outbox.
pub open spec fn run_plan<P, H: Handler<P>>(
    d: DefinitionV,
    s: int,
    ev: Event<P>,
    to: int,
    plan: Seq<Step>,
    h: H,
    n: int,
) -> (H, Option<Event<P>>)
    decreases n,
{
    if n <= 0 {
        (h, None)
    } else {
        let (h1, p1) = run_plan(d, s, ev, to, plan, h, n - 1);
        step_effect(d, s, ev, to, plan[n - 1], h1, p1)
    }
}

/// One event as the machine processed it: the state it was in, the event, the handler as it
/// was, what each guard asked answered, the rule picked, and the handler and the waiting event
/// once the plan was carried out.
pub struct Turn<P, H> {
    pub from: int,
    pub event: Event<P>,
    pub handler: H,
    pub asked: Seq<Option<bool>>,
    pub pick: Option<int>,
    pub handler_after: H,
    pub posted: Option<Event<P>>,
}

pub open spec fn turn_plan<P, H>(d: DefinitionV, t: Turn<P, H>) -> Seq<Step> {
    plan_of(d, t.from, t.pick)
}

/// The calls of a turn: its guards top to bottom, then the callbacks of its plan in order.
pub open spec fn turn_calls<P, H>(d: DefinitionV, t: Turn<P, H>) -> Seq<Call<P>> {
    guard_calls(d, t.from, t.event, t.asked) + step_calls(
        d,
        t.from,
        t.event,
        after(d, t.from, t.pick),
        turn_plan(d, t),
        turn_plan(d, t).len() as int,
    )
}

/// The turn follows the dispatch rules: guards asked top to bottom and answering as the
/// handler's `guard_answer` says, the first rule that fires picked, and its plan carried out
/// callback by callback, each as the handler's spec functions say.
pub open spec fn turn_ok<P, H: Handler<P>>(d: DefinitionV, t: Turn<P, H>) -> bool {
    let rules = d.states[t.from].rules;
    &&& 0 <= t.from < d.states.len()
    &&& t.pick == first_match(rules, t.event.kind, t.asked, 0)
    &&& asked_in_order(rules, t.event.kind, t.asked, t.pick)
    &&& forall|j: int|
        0 <= j < rules.len() && #[trigger] t.asked[j] is Some ==> t.asked[j]->Some_0
            == t.handler.guard_answer(
            d.guards[rules[j].guard->Some_0 as int],
            guard_context(d, t.from, t.event),
        )
    &&& (t.handler_after, t.posted) == run_plan(
        d,
        t.from,
        t.event,
        after(d, t.from, t.pick),
        turn_plan(d, t),
        t.handler,
        turn_plan(d, t).len() as int,
    )
}

/// The turns begin in state `start` with handler `h` and event `first`; each turn after the
/// first starts in the state, with the handler and with the event that the one before left.
pub open spec fn chain_links<P, H: Handler<P>>(d: DefinitionV, start: int, h: H, first: Event<P>, ts: Seq<Turn<P, H>>) -> bool {
    &&& ts.len() >= 1
    &&& ts[0].from == start
    &&& ts[0].event == first
    &&& ts[0].handler == h
    &&& forall|i: int| 0 <= i < ts.len() ==> turn_ok(d, #[trigger] ts[i])
    &&& forall|i: int|
        0 <= i < ts.len() - 1 ==> {
            &&& #[trigger] ts[i + 1].from == after(d, ts[i].from, ts[i].pick)
            &&& ts[i].posted == Some(ts[i + 1].event)
            &&& ts[i + 1].handler == ts[i].handler_after
        }
}

/// A chain that ends where its last turn leaves the outbox empty, or at the length limit.
pub open spec fn chain<P, H: Handler<P>>(d: DefinitionV, start: int, h: H, first: Event<P>, ts: Seq<Turn<P, H>>) -> bool {
    &&& chain_links(d, start, h, first, ts)
    &&& ts.last().posted is Some ==> ts.len() == CHAIN_LIMIT + 1
}

/// All calls of a chain, turn after turn.
pub open spec fn chain_calls<P, H>(d: DefinitionV, ts: Seq<Turn<P, H>>) -> Seq<Call<P>> {
    concat_all(Seq::new(ts.len(), |i: int| turn_calls(d, ts[i])))
}

/// The most posted events that one call of `event` processes after the event it was given.
/// An event posted during the last of them is dropped.
pub const CHAIN_LIMIT: u64 = 0xffff_ffff_ffff_ffff;

/// A running state machine: its definition, the handler it owns, its current state, the
/// slot for an event posted from a callback, and the record of the callbacks it has called.
pub struct Machine<P, H> {
    def: Definition,
    handler: H,
    state: usize,
    outbox: Outbox<P>,
    log: Ghost<Seq<Call<P>>>,
}

impl<P, H: Handler<P>> Machine<P, H> {
    /// The state index is in range and no posted event waits.
    pub closed spec fn wf(&self) -> bool {
        &&& self.def@.wf()
        &&& self.state < self.def@.states.len()
        &&& self.outbox.slot is None
    }

    pub closed spec fn current(&self) -> int {
        self.state as int
    }

    pub closed spec fn model(&self) -> DefinitionV {
        self.def@
    }

    pub closed spec fn handler_value(&self) -> H {
        self.handler
    }

    /// The callbacks called so far, in order, each recorded where the machine calls it.
    pub closed spec fn calls(&self) -> Seq<Call<P>> {
        self.log@
    }

    /// A machine in the definition's initial state, owning `handler`.
    pub fn new(def: Definition, handler: H) -> (r: Self)
        ensures
            r.wf(),
            r.current() == def@.initial,
            r.model() == def@,
            r.handler_value() == handler,
            r.calls().len() == 0,
    {
        def.well_formed();
        let state = def.initial();
        Machine { def, handler, state, outbox: Outbox { slot: None }, log: Ghost(Seq::empty()) }
    }

    /// The index of the current state.
    pub fn get_state(&self) -> (r: usize)
        ensures
            r == self.current(),
    {
        self.state
    }

    /// The name of the current state.
    pub fn get_state_name(&self) -> (r: &String)
        requires
            self.wf(),
        ensures
            r@ == self.model().states[self.current()].name,
    {
        let states = self.def.states();
        assert(states@[self.state as int]@ == self.def@.states[self.state as int]);
        &states[self.state].name
    }

    pub fn definition(&self) -> (r: &Definition)
        ensures
            r@ == self.model(),
    {
        &self.def
    }

    /// Read access to the handler.
    pub fn get_handler_ref(&self) -> (r: &H)
        ensures
            *r == self.handler_value(),
    {
        &self.handler
    }

    /// Write access to the handler, for as long as the caller holds it; nothing else of the
    /// machine changes.
    pub fn get_handler_mut(&mut self) -> (r: &mut H)
        ensures
            *r == old(self).handler_value(),
            final(self).handler_value() == *final(r),
            final(self).current() == old(self).current(),
            final(self).model() == old(self).model(),
            final(self).calls() == old(self).calls(),
            final(self).wf() == old(self).wf(),
    {
        &mut self.handler
    }

    /// Asks the guards of the current state's rules for `ev` top to bottom, recording each
    /// call, and picks the first rule that fires.
    fn scan(&mut self, ev: &Event<P>) -> (r: (Option<usize>, Ghost<Seq<Option<bool>>>))
        requires
            old(self).wf(),
        ensures
            final(self).def@ == old(self).def@,
            final(self).handler == old(self).handler,
            final(self).state == old(self).state,
            final(self).outbox.slot == old(self).outbox.slot,
            ({
                let d = old(self).def@;
                let s = old(self).state as int;
                let rules = d.states[s].rules;
                let pick = match r.0 {
                    Some(k) => Some(k as int),
                    None => None,
                };
                &&& pick == first_match(rules, ev.kind, r.1@, 0)
                &&& asked_in_order(rules, ev.kind, r.1@, pick)
                &&& r.0 matches Some(k) ==> k < rules.len()
                &&& forall|j: int|
                    0 <= j < rules.len() && #[trigger] r.1@[j] is Some ==> r.1@[j]->Some_0
                        == old(self).handler.guard_answer(
                        d.guards[rules[j].guard->Some_0 as int],
                        guard_context(d, s, *ev),
                    )
                &&& final(self).log@ == old(self).log@ + guard_calls(d, s, *ev, r.1@)
            }),
    {
        let ghost d = self.def@;
        let ghost s = self.state as int;
        let ghost rules = self.def@.states[self.state as int].rules;
        let ghost log0 = self.log@;
        let with_info = self.def.options().guard_with_info;
        let states = self.def.states();
        let n = states[self.state].rules.len();
        proof {
            assert(states@[s]@ == d.states[s]);
        }
        let ghost mut asked: Seq<Option<bool>> = Seq::new(n as nat, |j: int| None);
        let mut k: usize = 0;
        while k < n
            invariant
                self.wf(),
                d == self.def@,
                s == self.state as int,
                self.handler == old(self).handler,
                self.state == old(self).state,
                self.def@ == old(self).def@,
                self.outbox.slot == old(self).outbox.slot,
                log0 == old(self).log@,
                rules == d.states[s].rules,
                with_info == d.options.guard_with_info,
                n == rules.len(),
                k <= n,
                asked.len() == n,
                forall|j: int| 0 <= j < k ==> !enabled(rules[j], ev.kind, #[trigger] asked[j]),
                forall|j: int|
                    0 <= j < n ==> (#[trigger] asked[j] is Some <==> (rules[j].event == ev.kind
                        && rules[j].guard is Some && j < k)),
                forall|j: int|
                    0 <= j < n && #[trigger] asked[j] is Some ==> asked[j]->Some_0
                        == self.handler.guard_answer(
                        d.guards[rules[j].guard->Some_0 as int],
                        guard_context(d, s, *ev),
                    ),
                self.log@ == log0 + concat_all(
                    Seq::new(k as nat, |j: int| guard_call(d, s, *ev, j, asked[j])),
                ),
            decreases n - k,
        {
            let states = self.def.states();
            let r = states[self.state].rules[k];
            proof {
                assert(states@[s]@ == d.states[s]);
                assert(r == rules[k as int]);
            }
            let ghost before = asked;
            let mut fired = false;
            if r.event == ev.kind {
                match r.guard {
                    None => {
                        fired = true;
                    },
                    Some(g) => {
                        proof {
                            assert(d.state_ok(d.states[s]));
                            assert(d.rule_ok(rules[k as int]));
                        }
                        let context = if with_info {
                            Some((self.state, ev))
                        } else {
                            None
                        };
                        let guards = self.def.guards();
                        let answer = self.handler.guard(guards[g].as_str(), context);
                        proof {
                            assert(guards@[g as int]@ == d.guards[g as int]);
                            assert(owned_context(context) == guard_context(d, s, *ev));
                            asked = asked.update(k as int, Some(answer));
                            self.log@ = self.log@.push(
                                Call::Guard(d.guards[g as int], guard_context(d, s, *ev), answer),
                            );
                        }
                        fired = answer;
                    },
                }
            }
            proof {
                let f0 = |j: int| guard_call(d, s, *ev, j, before[j]);
                let f1 = |j: int| guard_call(d, s, *ev, j, asked[j]);
                assert(Seq::new(k as nat, f0) =~= Seq::new(k as nat, f1));
                let c = concat_all(Seq::new(k as nat, f1));
                assert(c == concat_all(Seq::new(k as nat, f0)));
                lemma_concat_new_step(k as int, f1);
                if asked[k as int] is None {
                    assert(f1(k as int) =~= Seq::<Call<P>>::empty());
                    assert(c + f1(k as int) =~= c);
                    assert(self.log@ == log0 + c);
                } else {
                    let g = rules[k as int].guard->Some_0;
                    assert(f1(k as int) =~= seq![
                        Call::Guard(d.guards[g as int], guard_context(d, s, *ev), asked[k as int]->Some_0),
                    ]);
                    assert(self.log@ =~= log0 + (c + f1(k as int)));
                }
                assert(self.log@ =~= log0 + concat_all(Seq::new((k + 1) as nat, f1)));
            }
            if fired {
                proof {
                    lemma_first_match_skip(rules, ev.kind, asked, 0, k as int);
                    let f1 = |j: int| guard_call(d, s, *ev, j, asked[j]);
                    assert forall|j: int| k + 1 <= j < n implies (#[trigger] f1(j)).len() == 0 by {
                        assert(asked[j] is None);
                    }
                    lemma_concat_new_tail_empty(f1, k + 1, n as int);
                    assert(guard_calls(d, s, *ev, asked) == concat_all(Seq::new(n as nat, f1)));

                }
                return (Some(k), Ghost(asked));
            }
            k += 1;
        }
        proof {
            lemma_first_match_skip(rules, ev.kind, asked, 0, n as int);
            assert(guard_calls(d, s, *ev, asked) == concat_all(
                Seq::new(n as nat, |j: int| guard_call(d, s, *ev, j, asked[j])),
            ));
        }
        (None, Ghost(asked))
    }

    /// Processes one event: picks a rule and carries out its plan.
    fn dispatch(&mut self, ev: Event<P>) -> (t: Ghost<Turn<P, H>>)
        requires
            old(self).wf(),
        ensures
            final(self).def@ == old(self).def@,
            final(self).state < final(self).def@.states.len(),
            turn_ok(old(self).def@, t@),
            t@.from == old(self).state,
            t@.event == ev,
            t@.handler == old(self).handler,
            t@.handler_after == final(self).handler,
            final(self).state == after(old(self).def@, t@.from, t@.pick),
            final(self).outbox.slot == t@.posted,
            final(self).log@ == old(self).log@ + turn_calls(old(self).def@, t@),
    {
        let ghost d = self.def@;
        let ghost h0 = self.handler;
        let ghost log0 = self.log@;
        let ghost ev0 = ev;
        let s = self.state;
        let (pick, asked) = self.scan(&ev);
        let ghost log1 = self.log@;
        let ghost gp = match pick {
            Some(k) => Some(k as int),
            None => None,
        };
        let steps = plan(&self.def, s, pick);
        let to = match pick {
            Some(k) => {
                let states = self.def.states();
                proof {
                    assert(states@[s as int]@ == d.states[s as int]);
                    assert(d.state_ok(d.states[s as int]));
                    assert(d.rule_ok(d.states[s as int].rules[k as int]));
                }
                states[s].rules[k].target
            },
            None => s,
        };
        proof {
            lemma_plan_move(d, s as int, gp);
            assert(Seq::new(0, |j: int| step_call(d, s as int, ev0, to as int, steps@[j])) =~= Seq::<Seq<Call<P>>>::empty());
        }
        let opts = self.def.options();
        let n = steps.len();
        let mut i: usize = 0;
        while i < n
            invariant
                self.def@ == d,
                d.wf(),
                ev == ev0,
                (s as int) < d.states.len(),
                (to as int) == after(d, s as int, gp),
                (to as int) < d.states.len(),
                opts == d.options,
                steps@ == plan_of(d, s as int, gp),
                forall|j: int| 0 <= j < steps@.len() ==> step_ok(d, #[trigger] steps@[j]),
                forall|j: int|
                    0 <= j < steps@.len() && #[trigger] steps@[j] is Move ==> j == move_at(d, s as int, gp),
                move_at(d, s as int, gp) <= n,
                gp is Some ==> move_at(d, s as int, gp) < n,
                n == steps@.len(),
                i <= n,
                self.log@ == log1 + step_calls(d, s as int, ev0, to as int, steps@, i as int),
                self.state == if i > move_at(d, s as int, gp) {
                    to
                } else {
                    s
                },
                (self.handler, self.outbox.slot) == run_plan(d, s as int, ev0, to as int, steps@, h0, i as int),
            decreases n - i,
        {
            let step = steps[i];
            proof {
                assert(step_ok(d, steps@[i as int]));
            }
            let ghost h_before = self.handler;
            let ghost p_before = self.outbox.slot;
            match step {
                Step::Exit(x) => {
                    let context = if opts.exit_with_info {
                        Some(Transition { old_state: s, event: &ev, new_state: to })
                    } else {
                        None
                    };
                    let names = self.def.exit_hooks();
                    self.handler.on_exit(names[x].as_str(), context, &mut self.outbox);
                    proof {
                        assert(names@[x as int]@ == d.exit_hooks[x as int]);
                        assert(transition_view(context) == transition_context(opts.exit_with_info, s as int, ev0, to as int));
                        self.log@ = self.log@.push(
                            Call::Exit(d.exit_hooks[x as int], transition_view(context)),
                        );
                    }
                },
                Step::Action(x) => {
                    let context = if opts.action_with_info {
                        Some(Transition { old_state: s, event: &ev, new_state: to })
                    } else {
                        None
                    };
                    let payload = if self.def.payload().is_some() {
                        Some(&ev.payload)
                    } else {
                        None
                    };
                    let names = self.def.actions();
                    self.handler.action(names[x].as_str(), context, payload, &mut self.outbox);
                    proof {
                        assert(names@[x as int]@ == d.actions[x as int]);
                        assert(transition_view(context) == transition_context(opts.action_with_info, s as int, ev0, to as int));
                        assert(payload_view(payload) == action_payload(d, ev0));
                        self.log@ = self.log@.push(
                            Call::Action(d.actions[x as int], transition_view(context), payload_view(payload)),
                        );
                    }
                },
                Step::Move(x) => {
                    self.state = x;
                },
                Step::Entry(x) => {
                    let context = if opts.entry_with_info {
                        Some(Transition { old_state: s, event: &ev, new_state: to })
                    } else {
                        None
                    };
                    let names = self.def.entry_hooks();
                    self.handler.on_entry(names[x].as_str(), context, &mut self.outbox);
                    proof {
                        assert(names@[x as int]@ == d.entry_hooks[x as int]);
                        assert(transition_view(context) == transition_context(opts.entry_with_info, s as int, ev0, to as int));
                        self.log@ = self.log@.push(
                            Call::Entry(d.entry_hooks[x as int], transition_view(context)),
                        );
                    }
                },
                Step::Unexpected => {
                    match self.def.unexpected() {
                        Some(name) => {
                            self.handler.unexpected(name.as_str(), s, &ev, &mut self.outbox);
                            proof {
                                self.log@ = self.log@.push(Call::Unexpected(name@, s, ev0));
                            }
                        },
                        None => {},
                    }
                },
            }
            proof {
                let f = |j: int| step_call(d, s as int, ev0, to as int, steps@[j]);
                lemma_concat_new_step(i as int, f);
                if step is Move {
                    assert(f(i as int) =~= Seq::<Call<P>>::empty());
                    assert(concat_all(Seq::new(i as nat, f)) + f(i as int) =~= concat_all(Seq::new(i as nat, f)));
                }
                assert(self.log@ =~= log1 + step_calls(d, s as int, ev0, to as int, steps@, i + 1));
            }
            i += 1;
        }
        let ghost t = Turn {
            from: s as int,
            event: ev0,
            handler: h0,
            asked: asked@,
            pick: gp,
            handler_after: self.handler,
            posted: self.outbox.slot,
        };
        proof {
            assert(self.log@ =~= log0 + turn_calls(d, t));
        }
        Ghost(t)
    }

    /// Processes `ev` and then, one after another, each event that a callback left in the
    /// outbox while the one before was processed, until a turn leaves it empty; then returns.
    /// Each turn asks the guards of the current state's rules for the event top to bottom,
    /// takes the first rule that fires, and carries out `plan_of` for it, recording each call
    /// in `calls`. A chain of posted events longer than `CHAIN_LIMIT` is cut there.
    pub fn event(&mut self, ev: Event<P>)
        requires
            old(self).wf(),
        ensures
            final(self).wf(),
            final(self).model() == old(self).model(),
            exists|ts: Seq<Turn<P, H>>|
                {
                    &&& #[trigger] chain(
                        old(self).model(),
                        old(self).current(),
                        old(self).handler_value(),
                        ev,
                        ts,
                    )
                    &&& final(self).current() == after(
                        old(self).model(),
                        ts.last().from,
                        ts.last().pick,
                    )
                    &&& final(self).handler_value() == ts.last().handler_after
                    &&& final(self).calls() == old(self).calls() + chain_calls(old(self).model(), ts)
                },
    {
        let ghost d = self.def@;
        let ghost start = self.state as int;
        let ghost h0 = self.handler;
        let ghost log0 = self.log@;
        let ghost first = ev;
        let t0 = self.dispatch(ev);
        let ghost mut ts: Seq<Turn<P, H>> = seq![t0@];
        let mut budget: u64 = CHAIN_LIMIT;
        proof {
            assert(Seq::new(0, |i: int| turn_calls(d, ts[i])) =~= Seq::<Seq<Call<P>>>::empty());
            lemma_concat_new_step(0, |i: int| turn_calls(d, ts[i]));
            assert(chain_calls(d, ts) =~= turn_calls(d, t0@));
        }
        while budget > 0 && self.outbox.slot.is_some()
            invariant
                self.def@ == d,
                d.wf(),
                self.state < d.states.len(),
                chain_links(d, start, h0, first, ts),
                self.state == after(d, ts.last().from, ts.last().pick),
                self.handler == ts.last().handler_after,
                self.outbox.slot == ts.last().posted,
                self.log@ == log0 + chain_calls(d, ts),
                ts.len() + budget == CHAIN_LIMIT + 1,
            ensures
                budget == 0 || self.outbox.slot is None,
            decreases budget,
        {
            let next = match self.outbox.take() {
                Some(e) => e,
                None => {
                    break ;
                },
            };
            budget -= 1;
            let ghost before = ts;
            let t = self.dispatch(next);
            proof {
                ts = ts.push(t@);
                assert forall|i: int| 0 <= i < ts.len() implies turn_ok(d, #[trigger] ts[i]) by {
                    if i < before.len() {
                        assert(ts[i] == before[i]);
                    }
                }
                assert forall|i: int| 0 <= i < ts.len() - 1 implies {
                    &&& #[trigger] ts[i + 1].from == after(d, ts[i].from, ts[i].pick)
                    &&& ts[i].posted == Some(ts[i + 1].event)
                    &&& ts[i + 1].handler == ts[i].handler_after
                } by {
                    if i + 1 < before.len() {
                        assert(ts[i] == before[i]);
                        assert(ts[i + 1] == before[i + 1]);
                    } else {
                        assert(ts[i] == before.last());
                    }
                }
                let f_old = Seq::new(before.len(), |i: int| turn_calls(d, before[i]));
                let f_new = Seq::new(ts.len(), |i: int| turn_calls(d, ts[i]));
                assert(f_new.drop_last() =~= f_old);
                assert(chain_calls(d, ts) == chain_calls(d, before) + turn_calls(d, t@));
                assert(self.log@ =~= log0 + chain_calls(d, ts));
            }
        }
        let _ = self.outbox.take();
        proof {
            assert(chain(d, start, h0, first, ts));
            assert(old(self).model() == d);
            assert(old(self).current() == start);
            assert(old(self).handler_value() == h0);
            assert(old(self).calls() == log0);
            assert(self.calls() == self.log@);
            assert(self.handler_value() == self.handler);
            assert(chain(old(self).model(), old(self).current(), old(self).handler_value(), first, ts));
        }
    }
}

} // verus!

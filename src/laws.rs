use vstd::prelude::*;
use crate::engine::{Call, Event, Handler, Step, Turn, action_payload, after, chain_links, enabled, first_match, guard_calls, run_plan, step_call, step_calls, transition_context, turn_calls, turn_ok, turn_plan};
use crate::seqs::lemma_concat_new_step;
use crate::model::{DefinitionV, Rule};

verus! {

/// Where no rule of a state is for event `e`, no rule is picked, whatever the guards answer.
pub proof fn lemma_no_rule_no_pick(rules: Seq<Rule>, e: usize, asked: Seq<Option<bool>>, from: int)
    requires
        forall|j: int| 0 <= j < rules.len() ==> #[trigger] rules[j].event != e,
    ensures
        first_match(rules, e, asked, from) is None,
    decreases rules.len() - from,
{
    if 0 <= from < rules.len() {
        lemma_no_rule_no_pick(rules, e, asked, from + 1);
    }
}

/// A guarded rule for `e` whose guard answered false passes the choice on to the rules below it.
pub proof fn lemma_false_guard_passes_on(rules: Seq<Rule>, e: usize, asked: Seq<Option<bool>>, k: int)
    requires
        0 <= k < rules.len(),
        rules[k].guard is Some,
        asked[k] == Some(false),
    ensures
        first_match(rules, e, asked, k) == first_match(rules, e, asked, k + 1),
{
}

/// Where every rule for `e` above the unguarded rule `j` was refused by its guard, rule `j` is
/// picked: the unguarded rule is the fallback.
pub proof fn lemma_fallback_picked(rules: Seq<Rule>, e: usize, asked: Seq<Option<bool>>, j: int)
    requires
        0 <= j < rules.len(),
        rules[j].event == e,
        rules[j].guard is None,
        forall|i: int|
            0 <= i < j && #[trigger] rules[i].event == e ==> rules[i].guard is Some && asked[i]
                == Some(false),
    ensures
        first_match(rules, e, asked, 0) == Some(j),
{
    lemma_skip_to(rules, e, asked, 0, j);
}

proof fn lemma_skip_to(rules: Seq<Rule>, e: usize, asked: Seq<Option<bool>>, from: int, j: int)
    requires
        0 <= from <= j < rules.len(),
        forall|i: int| from <= i < j ==> !enabled(rules[i], e, #[trigger] asked[i]),
        enabled(rules[j], e, asked[j]),
    ensures
        first_match(rules, e, asked, from) == Some(j),
    decreases j - from,
{
    if from < j {
        lemma_skip_to(rules, e, asked, from + 1, j);
    }
}

/// A transition out of a state with an exit hook, by a rule with an action, into a state with
/// an entry hook, calls after its guards the exit hook, then the action, then the entry hook,
/// each once and nothing else, the move standing between action and entry hook; the handler
/// and the waiting event are what the three leave, one after the other.
pub proof fn lemma_exit_action_entry<P, H: Handler<P>>(d: DefinitionV, t: Turn<P, H>)
    requires
        turn_ok(d, t),
        t.pick is Some,
        d.states[t.from].on_exit is Some,
        d.states[t.from].rules[t.pick->Some_0].action is Some,
        d.states[d.states[t.from].rules[t.pick->Some_0].target as int].on_entry is Some,
    ensures
        ({
            let r = d.states[t.from].rules[t.pick->Some_0];
            let to = r.target as int;
            let ev = t.event;
            let nx = d.exit_hooks[d.states[t.from].on_exit->Some_0 as int];
            let na = d.actions[r.action->Some_0 as int];
            let ne = d.entry_hooks[d.states[to].on_entry->Some_0 as int];
            let cx = transition_context(d.options.exit_with_info, t.from, ev, to);
            let ca = transition_context(d.options.action_with_info, t.from, ev, to);
            let ce = transition_context(d.options.entry_with_info, t.from, ev, to);
            let (h1, p1) = t.handler.exit_effect(nx, cx, None);
            let (h2, p2) = h1.action_effect(na, ca, action_payload(d, ev), p1);
            &&& turn_plan(d, t) == seq![
                Step::Exit(d.states[t.from].on_exit->Some_0),
                Step::Action(r.action->Some_0),
                Step::Move(r.target),
                Step::Entry(d.states[to].on_entry->Some_0),
            ]
            &&& turn_calls(d, t) == guard_calls(d, t.from, ev, t.asked) + seq![
                Call::Exit(nx, cx),
                Call::Action(na, ca, action_payload(d, ev)),
                Call::Entry(ne, ce),
            ]
            &&& (t.handler_after, t.posted) == h2.entry_effect(ne, ce, p2)
        }),
{
    let r = d.states[t.from].rules[t.pick->Some_0];
    let to = r.target as int;
    let plan = turn_plan(d, t);
    assert(plan =~= seq![
        Step::Exit(d.states[t.from].on_exit->Some_0),
        Step::Action(r.action->Some_0),
        Step::Move(r.target),
        Step::Entry(d.states[to].on_entry->Some_0),
    ]);
    assert(after(d, t.from, t.pick) == to);
    let f = |j: int| step_call(d, t.from, t.event, to, plan[j]);
    assert(Seq::new(0, f) =~= Seq::<Seq<Call<P>>>::empty());
    lemma_concat_new_step(0, f);
    lemma_concat_new_step(1, f);
    lemma_concat_new_step(2, f);
    lemma_concat_new_step(3, f);
    reveal_with_fuel(run_plan, 5);
    assert(step_calls(d, t.from, t.event, to, plan, 4) =~= seq![
        Call::Exit(
            d.exit_hooks[d.states[t.from].on_exit->Some_0 as int],
            transition_context(d.options.exit_with_info, t.from, t.event, to),
        ),
        Call::Action(
            d.actions[r.action->Some_0 as int],
            transition_context(d.options.action_with_info, t.from, t.event, to),
            action_payload(d, t.event),
        ),
        Call::Entry(
            d.entry_hooks[d.states[to].on_entry->Some_0 as int],
            transition_context(d.options.entry_with_info, t.from, t.event, to),
        ),
    ]);
}

/// Where no rule is picked and the definition names an unexpected-event handler, the turn
/// calls after its guards that handler once, with the state and the event, and the handler and
/// the waiting event are what it leaves. Where it names none, the turn calls nothing but its
/// guards, leaves the handler as it was and posts nothing.
pub proof fn lemma_unmatched<P, H: Handler<P>>(d: DefinitionV, t: Turn<P, H>)
    requires
        turn_ok(d, t),
        t.pick is None,
    ensures
        d.unexpected is Some ==> {
            &&& turn_calls(d, t) == guard_calls(d, t.from, t.event, t.asked) + seq![
                Call::Unexpected(d.unexpected->Some_0, t.from as usize, t.event),
            ]
            &&& (t.handler_after, t.posted) == t.handler.unexpected_effect(
                d.unexpected->Some_0,
                t.from as usize,
                t.event,
                None,
            )
        },
        d.unexpected is None ==> {
            &&& turn_calls(d, t) == guard_calls(d, t.from, t.event, t.asked)
            &&& t.handler_after == t.handler
            &&& t.posted is None
        },
{
    let plan = turn_plan(d, t);
    let f = |j: int| step_call(d, t.from, t.event, t.from, plan[j]);
    assert(Seq::new(0, f) =~= Seq::<Seq<Call<P>>>::empty());
    reveal_with_fuel(run_plan, 2);
    if d.unexpected is Some {
        assert(plan =~= seq![Step::Unexpected]);
        lemma_concat_new_step(0, f);
        assert(step_calls(d, t.from, t.event, t.from, plan, 1) =~= seq![
            Call::Unexpected(d.unexpected->Some_0, t.from as usize, t.event),
        ]);
    } else {
        assert(plan.len() == 0);
        assert(guard_calls(d, t.from, t.event, t.asked) + seq![] =~= guard_calls(
            d,
            t.from,
            t.event,
            t.asked,
        ));
    }
}

/// Where the first turn of a chain picks no rule and the definition names no unexpected-event
/// handler, that turn is the whole chain: the state stays, the handler stays, and the only
/// calls are the guards asked.
pub proof fn lemma_unmatched_chain<P, H: Handler<P>>(d: DefinitionV, start: int, h: H, first: Event<P>, ts: Seq<Turn<P, H>>)
    requires
        chain_links(d, start, h, first, ts),
        ts[0].pick is None,
        d.unexpected is None,
    ensures
        ts.len() == 1,
        after(d, ts[0].from, ts[0].pick) == start,
        ts[0].handler_after == h,
        turn_calls(d, ts[0]) == guard_calls(d, start, first, ts[0].asked),
{
    assert(turn_ok(d, ts[0]));
    lemma_unmatched(d, ts[0]);
    if ts.len() > 1 {
        assert(ts[0int + 1].from == after(d, ts[0].from, ts[0].pick));
    }
}

/// A turn whose plan calls no callback leaves the handler as it was and posts nothing, so a
/// chain stops there.
pub proof fn lemma_no_callback_no_post<P, H: Handler<P>>(d: DefinitionV, t: Turn<P, H>)
    requires
        turn_ok(d, t),
        forall|j: int| 0 <= j < turn_plan(d, t).len() ==> #[trigger] turn_plan(d, t)[j] is Move,
    ensures
        t.handler_after == t.handler,
        t.posted is None,
{
    lemma_moves_only(d, t.from, t.event, after(d, t.from, t.pick), turn_plan(d, t), t.handler, turn_plan(d, t).len() as int);
}

proof fn lemma_moves_only<P, H: Handler<P>>(d: DefinitionV, s: int, ev: Event<P>, to: int, plan: Seq<Step>, h: H, n: int)
    requires
        n <= plan.len(),
        forall|j: int| 0 <= j < plan.len() ==> #[trigger] plan[j] is Move,
    ensures
        run_plan(d, s, ev, to, plan, h, n) == (h, None::<Event<P>>),
    decreases n,
{
    if n > 0 {
        lemma_moves_only(d, s, ev, to, plan, h, n - 1);
        assert(plan[n - 1] is Move);
    }
}

/// In a chain of turns, an event posted during a turn is processed right after that turn, in
/// the state and with the handler the turn left, before `event` returns: the event processed
/// next is the one waiting in the outbox when the turn ends. Each callback's effect starts
/// from the event waiting before it, and `Outbox::post` replaces what waits, so of two posts in
/// one turn only the later one runs.
pub proof fn lemma_posted_runs_next<P, H: Handler<P>>(d: DefinitionV, start: int, h: H, first: Event<P>, ts: Seq<Turn<P, H>>, i: int)
    requires
        chain_links(d, start, h, first, ts),
        0 <= i < ts.len() - 1,
    ensures
        ts[i].posted == Some(ts[i + 1].event),
        ts[i + 1].from == after(d, ts[i].from, ts[i].pick),
        ts[i + 1].handler == ts[i].handler_after,
{
    assert(ts[i + 1].from == after(d, ts[i].from, ts[i].pick));
}

} // verus!

use vstd::prelude::*;
use crate::error::{DefError, ErrorKind};
use crate::seqs::{concat_all, lemma_concat_new_step, only_if};
use crate::syntax::{MachineV, Name, NameV, RawMachine, RawRule, RuleV};

verus! {

pub open spec fn option_known(t: Seq<char>) -> bool {
    ||| t == "action_handler_with_transition_info"@
    ||| t == "entry_handler_with_transition_info"@
    ||| t == "exit_handler_with_transition_info"@
    ||| t == "guard_with_transition_info"@
}

pub open spec fn problem(kind: ErrorKind, pos: int) -> DefError {
    DefError { kind, pos: pos as usize }
}

/// Some state among the first `upto` has the name `t`.
pub open spec fn declared_before(m: MachineV, upto: int, t: Seq<char>) -> bool {
    exists|j: int| 0 <= j < upto && #[trigger] m.states[j].name.text == t
}

pub open spec fn declared(m: MachineV, t: Seq<char>) -> bool {
    declared_before(m, m.states.len() as int, t)
}

pub open spec fn same_guard(a: Option<NameV>, b: Option<NameV>) -> bool {
    match (a, b) {
        (None, None) => true,
        (Some(x), Some(y)) => x.text == y.text,
        _ => false,
    }
}

/// Rule `k` is guarded and an unguarded rule for the same event stands above it.
pub open spec fn guard_after_fallback(rs: Seq<RuleV>, k: int) -> bool {
    &&& rs[k].guard is Some
    &&& exists|j: int|
        0 <= j < k && #[trigger] rs[j].event.text == rs[k].event.text && rs[j].guard is None
}

/// A rule above rule `k` has the same event and the same guard, or like it none.
pub open spec fn duplicate_trigger(rs: Seq<RuleV>, k: int) -> bool {
    exists|j: int|
        0 <= j < k && #[trigger] rs[j].event.text == rs[k].event.text && same_guard(
            rs[j].guard,
            rs[k].guard,
        )
}

/// Where an error about a rule is reported: at its guard, or at its event when it has none.
pub open spec fn rule_pos(r: RuleV) -> int {
    match r.guard {
        Some(g) => g.pos,
        None => r.event.pos,
    }
}

pub open spec fn rule_problems(rs: Seq<RuleV>, k: int) -> Seq<DefError> {
    only_if(guard_after_fallback(rs, k), problem(ErrorKind::GuardAfterFallback, rule_pos(rs[k])))
        + only_if(duplicate_trigger(rs, k), problem(ErrorKind::DuplicateTrigger, rule_pos(rs[k])))
}

pub open spec fn state_problems(m: MachineV, i: int) -> Seq<DefError> {
    let rs = m.states[i].rules;
    only_if(
        declared_before(m, i, m.states[i].name.text),
        problem(ErrorKind::DuplicateState, m.states[i].name.pos),
    ) + concat_all(Seq::new(rs.len(), |k: int| rule_problems(rs, k)))
}

pub open spec fn target_problem(m: MachineV, i: int, k: int) -> Seq<DefError> {
    let t = m.states[i].rules[k].target;
    only_if(!declared(m, t.text), problem(ErrorKind::UndefinedTarget, t.pos))
}

pub open spec fn target_problems_of(m: MachineV, i: int) -> Seq<DefError> {
    concat_all(Seq::new(m.states[i].rules.len(), |k: int| target_problem(m, i, k)))
}

/// Every error of a definition as written, in the order in which they are reported: state by
/// state a repeated state name and, rule by rule, guard order and repeated triggers; then
/// undefined targets; then an undefined initial state. Unknown options are found while the
/// option list is read.
pub open spec fn problems(m: MachineV) -> Seq<DefError> {
    concat_all(Seq::new(m.states.len(), |i: int| state_problems(m, i)))
        + concat_all(Seq::new(m.states.len(), |i: int| target_problems_of(m, i))) + only_if(
        !declared(m, m.initial.text),
        problem(ErrorKind::UndefinedInitialState, m.initial.pos),
    )
}

pub(crate) fn is_known_option(t: &String) -> (r: bool)
    ensures
        r == option_known(t@),
{
    *t == String::from_str("action_handler_with_transition_info") || *t == String::from_str(
        "entry_handler_with_transition_info",
    ) || *t == String::from_str("exit_handler_with_transition_info") || *t == String::from_str(
        "guard_with_transition_info",
    )
}

fn state_declared(m: &RawMachine, upto: usize, t: &String) -> (r: bool)
    requires
        upto <= m.states@.len(),
    ensures
        r == declared_before(m@, upto as int, t@),
{
    let mut j: usize = 0;
    while j < upto
        invariant
            upto <= m.states@.len(),
            j <= upto,
            forall|x: int| 0 <= x < j ==> m@.states[x].name.text != t@,
        decreases upto - j,
    {
        if m.states[j].name.text == *t {
            assert(m@.states[j as int].name.text == t@);
            return true;
        }
        j += 1;
    }
    false
}

fn same_guard_exec(a: &Option<Name>, b: &Option<Name>) -> (r: bool)
    ensures
        r == same_guard(crate::syntax::opt_view(*a), crate::syntax::opt_view(*b)),
{
    match (a, b) {
        (None, None) => true,
        (Some(x), Some(y)) => x.text == y.text,
        _ => false,
    }
}

pub open spec fn rules_of(m: MachineV, i: int) -> Seq<RuleV> {
    m.states[i].rules
}

fn check_rule(rules: &Vec<RawRule>, k: usize, out: &mut Vec<DefError>)
    requires
        k < rules@.len(),
    ensures
        final(out)@ == old(out)@ + rule_problems(crate::syntax::rules_view(rules@), k as int),
{
    let ghost rs = crate::syntax::rules_view(rules@);
    let r = &rules[k];
    let pos = match &r.guard {
        Some(g) => g.pos,
        None => r.event.pos,
    };
    let mut fallback = false;
    let mut dup = false;
    let mut j: usize = 0;
    while j < k
        invariant
            k < rules@.len(),
            rs == crate::syntax::rules_view(rules@),
            *r == rules@[k as int],
            j <= k,
            fallback == exists|x: int|
                0 <= x < j && #[trigger] rs[x].event.text == rs[k as int].event.text
                    && rs[x].guard is None,
            dup == exists|x: int|
                0 <= x < j && #[trigger] rs[x].event.text == rs[k as int].event.text
                    && same_guard(rs[x].guard, rs[k as int].guard),
        decreases k - j,
    {
        proof {
            assert(rs[j as int] == rules@[j as int]@);
            assert(rs[k as int] == rules@[k as int]@);
        }
        let ghost old_fallback = fallback;
        let ghost old_dup = dup;
        let same = rules[j].event.text == r.event.text;
        proof {
            assert(same == (rs[j as int].event.text == rs[k as int].event.text));
        }
        if same {
            if rules[j].guard.is_none() {
                fallback = true;
            }
            if same_guard_exec(&rules[j].guard, &r.guard) {
                dup = true;
            }
        }
        proof {
            let w = rs[j as int].event.text == rs[k as int].event.text;
            assert(fallback == (old_fallback || (w && rs[j as int].guard is None)));
            assert(dup == (old_dup || (w && same_guard(rs[j as int].guard, rs[k as int].guard))));
        }
        j += 1;
    }
    let ghost before = out@;
    if fallback && r.guard.is_some() {
        out.push(DefError { kind: ErrorKind::GuardAfterFallback, pos });
    }
    if dup {
        out.push(DefError { kind: ErrorKind::DuplicateTrigger, pos });
    }
    proof {
        assert(rs[k as int] == rules@[k as int]@);
        assert(final(out)@ =~= before + rule_problems(rs, k as int));
    }
}


fn check_state(m: &RawMachine, i: usize, out: &mut Vec<DefError>)
    requires
        i < m.states@.len(),
    ensures
        final(out)@ == old(out)@ + state_problems(m@, i as int),
{
    let st = &m.states[i];
    let ghost rs = m@.states[i as int].rules;
    let ghost base = out@;
    assert(rs == crate::syntax::rules_view(st.rules@));
    if state_declared(m, i, &st.name.text) {
        out.push(DefError { kind: ErrorKind::DuplicateState, pos: st.name.pos });
    }
    let ghost head = out@;
    let n = st.rules.len();
    let mut k: usize = 0;
    while k < n
        invariant
            n == st.rules@.len(),
            rs == crate::syntax::rules_view(st.rules@),
            k <= n,
            out@ == head + concat_all(Seq::new(k as nat, |x: int| rule_problems(rs, x))),
        decreases n - k,
    {
        check_rule(&st.rules, k, out);
        proof {
            lemma_concat_new_step(k as int, |x: int| rule_problems(rs, x));
        }
        k += 1;
    }
    assert(out@ =~= base + state_problems(m@, i as int));
}

fn check_targets(m: &RawMachine, i: usize, out: &mut Vec<DefError>)
    requires
        i < m.states@.len(),
    ensures
        final(out)@ == old(out)@ + target_problems_of(m@, i as int),
{
    let st = &m.states[i];
    let ghost base = out@;
    let n = st.rules.len();
    let all = m.states.len();
    let mut k: usize = 0;
    while k < n
        invariant
            n == st.rules@.len(),
            all == m.states@.len(),
            i < all,
            *st == m.states@[i as int],
            k <= n,
            out@ == base + concat_all(Seq::new(k as nat, |x: int| target_problem(m@, i as int, x))),
        decreases n - k,
    {
        let t = &st.rules[k].target;
        if !state_declared(m, all, &t.text) {
            out.push(DefError { kind: ErrorKind::UndefinedTarget, pos: t.pos });
        }
        proof {
            assert(m@.states[i as int].rules[k as int] == st.rules@[k as int]@);
            lemma_concat_new_step(k as int, |x: int| target_problem(m@, i as int, x));
        }
        k += 1;
    }
}

/// Every error of a definition, in the order in which they are reported.
pub fn find_problems(m: &RawMachine) -> (r: Vec<DefError>)
    ensures
        r@ == problems(m@),
{
    let mut out: Vec<DefError> = Vec::new();
    let mut i: usize = 0;
    proof {
        assert(Seq::new(0, |x: int| state_problems(m@, x)) =~= Seq::<Seq<DefError>>::empty());
    }
    let ghost a = out@;
    let s = m.states.len();
    while i < s
        invariant
            s == m.states@.len(),
            i <= s,
            out@ == a + concat_all(Seq::new(i as nat, |x: int| state_problems(m@, x))),
        decreases s - i,
    {
        check_state(m, i, &mut out);
        proof {
            lemma_concat_new_step(i as int, |x: int| state_problems(m@, x));
        }
        i += 1;
    }
    let ghost b = out@;
    i = 0;
    while i < s
        invariant
            s == m.states@.len(),
            i <= s,
            out@ == b + concat_all(Seq::new(i as nat, |x: int| target_problems_of(m@, x))),
        decreases s - i,
    {
        check_targets(m, i, &mut out);
        proof {
            lemma_concat_new_step(i as int, |x: int| target_problems_of(m@, x));
        }
        i += 1;
    }
    let ghost c = out@;
    if !state_declared(m, s, &m.initial.text) {
        out.push(DefError { kind: ErrorKind::UndefinedInitialState, pos: m.initial.pos });
    }
    assert(out@ =~= problems(m@));
    out
}

} // verus!

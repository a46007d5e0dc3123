use vstd::prelude::*;
use crate::error::DefError;
use crate::seqs::{concat_all, dedup, lemma_concat_contains, lemma_concat_has, lemma_concat_empty, lemma_concat_new_step, lemma_dedup_contains, lemma_dedup_push, lemma_dedup_unique};
use crate::syntax::{opt_view, MachineV, Name, NameV, RawMachine, RuleV, StateV};
use crate::validate::{declared, declared_before, find_problems, problems};

verus! {

/// A transition rule with its names resolved: indices into the definition's event, guard,
/// action and state lists.
#[derive(Clone, Copy, Debug, PartialEq, Eq, Structural)]
pub struct Rule {
    pub event: usize,
    pub guard: Option<usize>,
    pub action: Option<usize>,
    pub target: usize,
}

/// A state with its hooks (indices into the entry and exit hook lists) and its rules in
/// source order.
#[derive(Clone, Debug)]
pub struct StateDef {
    pub name: String,
    pub on_entry: Option<usize>,
    pub on_exit: Option<usize>,
    pub rules: Vec<Rule>,
}

pub struct StateDefV {
    pub name: Seq<char>,
    pub on_entry: Option<usize>,
    pub on_exit: Option<usize>,
    pub rules: Seq<Rule>,
}

impl View for StateDef {
    type V = StateDefV;

    open spec fn view(&self) -> StateDefV {
        StateDefV {
            name: self.name@,
            on_entry: self.on_entry,
            on_exit: self.on_exit,
            rules: self.rules@,
        }
    }
}

/// Which callbacks receive the old state, the event and the new state besides their own arguments.
#[derive(Clone, Copy, Debug, PartialEq, Eq, Structural)]
pub struct Options {
    pub action_with_info: bool,
    pub entry_with_info: bool,
    pub exit_with_info: bool,
    pub guard_with_info: bool,
}

/// A validated machine definition. The name lists hold each name once, in the order of its
/// first appearance in the source, and are what a handler has to implement.
#[derive(Debug)]
pub struct Definition {
    name: String,
    initial: usize,
    payload: Option<String>,
    unexpected: Option<String>,
    options: Options,
    states: Vec<StateDef>,
    events: Vec<String>,
    guards: Vec<String>,
    actions: Vec<String>,
    entry_hooks: Vec<String>,
    exit_hooks: Vec<String>,
}

pub struct DefinitionV {
    pub name: Seq<char>,
    pub initial: int,
    pub payload: Option<Seq<char>>,
    pub unexpected: Option<Seq<char>>,
    pub options: Options,
    pub states: Seq<StateDefV>,
    pub events: Seq<Seq<char>>,
    pub guards: Seq<Seq<char>>,
    pub actions: Seq<Seq<char>>,
    pub entry_hooks: Seq<Seq<char>>,
    pub exit_hooks: Seq<Seq<char>>,
}

pub open spec fn texts(v: Seq<String>) -> Seq<Seq<char>> {
    v.map_values(|s: String| s@)
}

pub open spec fn opt_text(o: Option<String>) -> Option<Seq<char>> {
    match o {
        Some(s) => Some(s@),
        None => None,
    }
}

pub open spec fn below(o: Option<usize>, n: int) -> bool {
    match o {
        Some(x) => x < n,
        None => true,
    }
}

impl DefinitionV {
    pub open spec fn rule_ok(self, r: Rule) -> bool {
        &&& r.event < self.events.len()
        &&& below(r.guard, self.guards.len() as int)
        &&& below(r.action, self.actions.len() as int)
        &&& r.target < self.states.len()
    }

    pub open spec fn state_ok(self, s: StateDefV) -> bool {
        &&& below(s.on_entry, self.entry_hooks.len() as int)
        &&& below(s.on_exit, self.exit_hooks.len() as int)
        &&& forall|k: int| 0 <= k < s.rules.len() ==> self.rule_ok(#[trigger] s.rules[k])
    }

    /// Every index names an element of its list; state names and the names in each list are unique.
    pub open spec fn wf(self) -> bool {
        &&& 0 <= self.initial < self.states.len()
        &&& forall|i: int| 0 <= i < self.states.len() ==> self.state_ok(#[trigger] self.states[i])
        &&& forall|i: int, j: int|
            0 <= i < self.states.len() && 0 <= j < self.states.len() && i != j
                ==> #[trigger] self.states[i].name != #[trigger] self.states[j].name
        &&& self.events.no_duplicates()
        &&& self.guards.no_duplicates()
        &&& self.actions.no_duplicates()
        &&& self.entry_hooks.no_duplicates()
        &&& self.exit_hooks.no_duplicates()
    }
}

impl View for Definition {
    type V = DefinitionV;

    closed spec fn view(&self) -> DefinitionV {
        DefinitionV {
            name: self.name@,
            initial: self.initial as int,
            payload: opt_text(self.payload),
            unexpected: opt_text(self.unexpected),
            options: self.options,
            states: self.states@.map_values(|s: StateDef| s@),
            events: texts(self.events@),
            guards: texts(self.guards@),
            actions: texts(self.actions@),
            entry_hooks: texts(self.entry_hooks@),
            exit_hooks: texts(self.exit_hooks@),
        }
    }
}

impl Definition {
    #[verifier::type_invariant]
    spec fn inv(self) -> bool {
        self@.wf()
    }

    pub fn well_formed(&self)
        ensures
            self@.wf(),
    {
        proof {
            use_type_invariant(self);
        }
    }

    /// The machine's name.
    pub fn name(&self) -> (r: &String)
        ensures
            r@ == self@.name,
    {
        &self.name
    }

    /// The index of the initial state.
    pub fn initial(&self) -> (r: usize)
        ensures
            r == self@.initial,
    {
        self.initial
    }

    /// The payload type's name, where one is configured.
    pub fn payload(&self) -> (r: &Option<String>)
        ensures
            opt_text(*r) == self@.payload,
    {
        &self.payload
    }

    /// The unexpected-event handler's name, where one is configured.
    pub fn unexpected(&self) -> (r: &Option<String>)
        ensures
            opt_text(*r) == self@.unexpected,
    {
        &self.unexpected
    }

    pub fn options(&self) -> (r: Options)
        ensures
            r == self@.options,
    {
        self.options
    }

    pub fn states(&self) -> (r: &Vec<StateDef>)
        ensures
            r@.map_values(|s: StateDef| s@) == self@.states,
    {
        &self.states
    }

    pub fn events(&self) -> (r: &Vec<String>)
        ensures
            texts(r@) == self@.events,
    {
        &self.events
    }

    pub fn guards(&self) -> (r: &Vec<String>)
        ensures
            texts(r@) == self@.guards,
    {
        &self.guards
    }

    pub fn actions(&self) -> (r: &Vec<String>)
        ensures
            texts(r@) == self@.actions,
    {
        &self.actions
    }

    pub fn entry_hooks(&self) -> (r: &Vec<String>)
        ensures
            texts(r@) == self@.entry_hooks,
    {
        &self.entry_hooks
    }

    pub fn exit_hooks(&self) -> (r: &Vec<String>)
        ensures
            texts(r@) == self@.exit_hooks,
    {
        &self.exit_hooks
    }

    /// The index of the state named `name`.
    pub fn state_named(&self, name: &str) -> (r: Option<usize>)
        ensures
            r matches Some(i) ==> i < self@.states.len() && self@.states[i as int].name == name@,
            r is None ==> forall|i: int| 0 <= i < self@.states.len() ==> #[trigger] self@.states[i].name != name@,
    {
        let want = String::from_str(name);
        let n = self.states.len();
        let mut i: usize = 0;
        while i < n
            invariant
                n == self@.states.len(),
                want@ == name@,
                i <= n,
                forall|j: int| 0 <= j < i ==> #[trigger] self@.states[j].name != name@,
            decreases n - i,
        {
            if self.states[i].name == want {
                assert(self@.states[i as int] == self.states@[i as int]@);
                return Some(i);
            }
            assert(self@.states[i as int] == self.states@[i as int]@);
            i += 1;
        }
        None
    }

    /// The index of the event named `name`.
    pub fn event_named(&self, name: &str) -> (r: Option<usize>)
        ensures
            r matches Some(i) ==> resolves(self@.events, i as int, name@),
            r is None ==> !self@.events.contains(name@),
    {
        let want = String::from_str(name);
        let n = self.events.len();
        let mut i: usize = 0;
        while i < n
            invariant
                n == self@.events.len(),
                want@ == name@,
                i <= n,
                forall|j: int| 0 <= j < i ==> #[trigger] self@.events[j] != name@,
            decreases n - i,
        {
            if self.events[i] == want {
                return Some(i);
            }
            i += 1;
        }
        None
    }
}


pub open spec fn name_text(o: Option<NameV>) -> Seq<Seq<char>> {
    match o {
        Some(n) => seq![n.text],
        None => seq![],
    }
}

/// The events of the first `k` rules of `s`, one per rule.
pub open spec fn rule_events(s: StateV, k: int) -> Seq<Seq<char>> {
    concat_all(Seq::new(k as nat, |y: int| seq![s.rules[y].event.text]))
}

/// The guards of the first `k` rules of `s`.
pub open spec fn rule_guards(s: StateV, k: int) -> Seq<Seq<char>> {
    concat_all(Seq::new(k as nat, |y: int| name_text(s.rules[y].guard)))
}

/// The actions of the first `k` rules of `s`.
pub open spec fn rule_actions(s: StateV, k: int) -> Seq<Seq<char>> {
    concat_all(Seq::new(k as nat, |y: int| name_text(s.rules[y].action)))
}

pub open spec fn events_upto(m: MachineV, i: int) -> Seq<Seq<char>> {
    concat_all(Seq::new(i as nat, |x: int| rule_events(m.states[x], m.states[x].rules.len() as int)))
}

pub open spec fn guards_upto(m: MachineV, i: int) -> Seq<Seq<char>> {
    concat_all(Seq::new(i as nat, |x: int| rule_guards(m.states[x], m.states[x].rules.len() as int)))
}

pub open spec fn actions_upto(m: MachineV, i: int) -> Seq<Seq<char>> {
    concat_all(Seq::new(i as nat, |x: int| rule_actions(m.states[x], m.states[x].rules.len() as int)))
}

pub open spec fn entries_upto(m: MachineV, i: int) -> Seq<Seq<char>> {
    concat_all(Seq::new(i as nat, |x: int| name_text(m.states[x].on_entry)))
}

pub open spec fn exits_upto(m: MachineV, i: int) -> Seq<Seq<char>> {
    concat_all(Seq::new(i as nat, |x: int| name_text(m.states[x].on_exit)))
}

/// Every event named anywhere in the definition, in source order, with repetitions.
pub open spec fn all_events(m: MachineV) -> Seq<Seq<char>> {
    events_upto(m, m.states.len() as int)
}

pub open spec fn all_guards(m: MachineV) -> Seq<Seq<char>> {
    guards_upto(m, m.states.len() as int)
}

pub open spec fn all_actions(m: MachineV) -> Seq<Seq<char>> {
    actions_upto(m, m.states.len() as int)
}

pub open spec fn all_entries(m: MachineV) -> Seq<Seq<char>> {
    entries_upto(m, m.states.len() as int)
}

pub open spec fn all_exits(m: MachineV) -> Seq<Seq<char>> {
    exits_upto(m, m.states.len() as int)
}

pub open spec fn option_set(m: MachineV, t: Seq<char>) -> bool {
    exists|i: int| 0 <= i < m.options.len() && #[trigger] m.options[i].text == t
}

/// `idx` is the position of `t` in `names`.
pub open spec fn resolves(names: Seq<Seq<char>>, idx: int, t: Seq<char>) -> bool {
    0 <= idx < names.len() && names[idx] == t
}

pub open spec fn opt_resolves(names: Seq<Seq<char>>, idx: Option<usize>, n: Option<NameV>) -> bool {
    match (idx, n) {
        (None, None) => true,
        (Some(x), Some(n)) => resolves(names, x as int, n.text),
        _ => false,
    }
}

pub open spec fn rule_model(d: DefinitionV, r: Rule, v: RuleV) -> bool {
    &&& resolves(d.events, r.event as int, v.event.text)
    &&& opt_resolves(d.guards, r.guard, v.guard)
    &&& opt_resolves(d.actions, r.action, v.action)
    &&& r.target < d.states.len()
    &&& d.states[r.target as int].name == v.target.text
}

pub open spec fn state_model(d: DefinitionV, s: StateDefV, v: StateV) -> bool {
    &&& s.name == v.name.text
    &&& opt_resolves(d.entry_hooks, s.on_entry, v.on_entry)
    &&& opt_resolves(d.exit_hooks, s.on_exit, v.on_exit)
    &&& s.rules.len() == v.rules.len()
    &&& forall|k: int| 0 <= k < s.rules.len() ==> rule_model(d, #[trigger] s.rules[k], v.rules[k])
}

/// `d` is the definition that `m` describes: the same states in the same order, each name
/// resolved to its position in the list of its kind, and those lists made of the names in the
/// order of their first appearance.
pub open spec fn is_model(m: MachineV, d: DefinitionV) -> bool {
    &&& d.name == m.name.text
    &&& d.payload == name_opt(m.payload)
    &&& d.unexpected == name_opt(m.unexpected)
    &&& d.options == (Options {
        action_with_info: option_set(m, "action_handler_with_transition_info"@),
        entry_with_info: option_set(m, "entry_handler_with_transition_info"@),
        exit_with_info: option_set(m, "exit_handler_with_transition_info"@),
        guard_with_info: option_set(m, "guard_with_transition_info"@),
    })
    &&& d.events == dedup(all_events(m))
    &&& d.guards == dedup(all_guards(m))
    &&& d.actions == dedup(all_actions(m))
    &&& d.entry_hooks == dedup(all_entries(m))
    &&& d.exit_hooks == dedup(all_exits(m))
    &&& d.states.len() == m.states.len()
    &&& forall|i: int| 0 <= i < d.states.len() ==> state_model(d, #[trigger] d.states[i], m.states[i])
    &&& 0 <= d.initial < d.states.len()
    &&& d.states[d.initial].name == m.initial.text
}

pub open spec fn name_opt(o: Option<NameV>) -> Option<Seq<char>> {
    match o {
        Some(n) => Some(n.text),
        None => None,
    }
}

/// Adds `t` at the end of `list` unless it is there already; returns nothing.
fn intern(list: &mut Vec<String>, t: &String)
    ensures
        texts(final(list)@) == if texts(old(list)@).contains(t@) {
            texts(old(list)@)
        } else {
            texts(old(list)@).push(t@)
        },
{
    let n = list.len();
    let mut i: usize = 0;
    while i < n
        invariant
            n == list@.len(),
            i <= n,
            forall|j: int| 0 <= j < i ==> #[trigger] texts(list@)[j] != t@,
        decreases n - i,
    {
        if list[i] == *t {
            assert(texts(list@)[i as int] == t@);
            return;
        }
        i += 1;
    }
    let ghost before = texts(list@);
    list.push(t.clone());
    assert(texts(list@) =~= before.push(t@));
}

fn intern_opt(list: &mut Vec<String>, o: &Option<Name>)
    ensures
        texts(final(list)@) == match opt_view(*o) {
            Some(n) => if texts(old(list)@).contains(n.text) {
                texts(old(list)@)
            } else {
                texts(old(list)@).push(n.text)
            },
            None => texts(old(list)@),
        },
{
    match o {
        Some(n) => intern(list, &n.text),
        None => {},
    }
}

/// Pushing the names of one more part keeps a list deduplicated.
proof fn lemma_dedup_step(list: Seq<Seq<char>>, prefix: Seq<Seq<char>>, part: Seq<Seq<char>>, new_list: Seq<Seq<char>>)
    requires
        list == dedup(prefix),
        part.len() <= 1,
        part.len() == 0 ==> new_list == list,
        part.len() == 1 ==> new_list == if list.contains(part[0]) { list } else { list.push(part[0]) },
    ensures
        new_list == dedup(prefix + part),
{
    if part.len() == 0 {
        assert(prefix + part =~= prefix);
    } else {
        assert(prefix + part =~= prefix.push(part[0]));
        lemma_dedup_push(prefix, part[0]);
    }
}

pub struct Names {
    pub events: Vec<String>,
    pub guards: Vec<String>,
    pub actions: Vec<String>,
    pub entry_hooks: Vec<String>,
    pub exit_hooks: Vec<String>,
}

/// Collects the five name lists of a definition.
fn collect(m: &RawMachine) -> (r: Names)
    ensures
        texts(r.events@) == dedup(all_events(m@)),
        texts(r.guards@) == dedup(all_guards(m@)),
        texts(r.actions@) == dedup(all_actions(m@)),
        texts(r.entry_hooks@) == dedup(all_entries(m@)),
        texts(r.exit_hooks@) == dedup(all_exits(m@)),
{
    let mut out = Names {
        events: Vec::new(),
        guards: Vec::new(),
        actions: Vec::new(),
        entry_hooks: Vec::new(),
        exit_hooks: Vec::new(),
    };
    let ns = m.states.len();
    let mut i: usize = 0;
    proof {
        assert(texts(out.events@) =~= Seq::<Seq<char>>::empty());
        assert(texts(out.guards@) =~= Seq::<Seq<char>>::empty());
        assert(texts(out.actions@) =~= Seq::<Seq<char>>::empty());
        assert(texts(out.entry_hooks@) =~= Seq::<Seq<char>>::empty());
        assert(texts(out.exit_hooks@) =~= Seq::<Seq<char>>::empty());
    }
    while i < ns
        invariant
            ns == m.states@.len(),
            i <= ns,
            texts(out.events@) == dedup(events_upto(m@, i as int)),
            texts(out.guards@) == dedup(guards_upto(m@, i as int)),
            texts(out.actions@) == dedup(actions_upto(m@, i as int)),
            texts(out.entry_hooks@) == dedup(entries_upto(m@, i as int)),
            texts(out.exit_hooks@) == dedup(exits_upto(m@, i as int)),
        decreases ns - i,
    {
        let st = &m.states[i];
        let ghost sv = m@.states[i as int];
        assert(sv == st@);
        let ghost l0 = texts(out.entry_hooks@);
        intern_opt(&mut out.entry_hooks, &st.on_entry);
        proof {
            lemma_dedup_step(l0, entries_upto(m@, i as int), name_text(sv.on_entry), texts(out.entry_hooks@));
            lemma_concat_new_step(i as int, |x: int| name_text(m@.states[x].on_entry));
        }
        let ghost l1 = texts(out.exit_hooks@);
        intern_opt(&mut out.exit_hooks, &st.on_exit);
        proof {
            lemma_dedup_step(l1, exits_upto(m@, i as int), name_text(sv.on_exit), texts(out.exit_hooks@));
            lemma_concat_new_step(i as int, |x: int| name_text(m@.states[x].on_exit));
        }
        let nr = st.rules.len();
        let mut k: usize = 0;
        while k < nr
            invariant
                ns == m.states@.len(),
                i < ns,
                *st == m.states@[i as int],
                sv == st@,
                nr == st.rules@.len(),
                k <= nr,
                texts(out.events@) == dedup(events_upto(m@, i as int) + rule_events(sv, k as int)),
                texts(out.guards@) == dedup(guards_upto(m@, i as int) + rule_guards(sv, k as int)),
                texts(out.actions@) == dedup(actions_upto(m@, i as int) + rule_actions(sv, k as int)),
                texts(out.entry_hooks@) == dedup(entries_upto(m@, i as int + 1)),
                texts(out.exit_hooks@) == dedup(exits_upto(m@, i as int + 1)),
            decreases nr - k,
        {
            let r = &st.rules[k];
            let ghost rv = sv.rules[k as int];
            assert(rv == r@);
            let ghost e0 = texts(out.events@);
            intern(&mut out.events, &r.event.text);
            proof {
                lemma_dedup_step(e0, events_upto(m@, i as int) + rule_events(sv, k as int), seq![rv.event.text], texts(out.events@));
                lemma_concat_new_step(k as int, |y: int| seq![sv.rules[y].event.text]);
                assert(events_upto(m@, i as int) + rule_events(sv, k as int) + seq![rv.event.text] =~= events_upto(m@, i as int) + rule_events(sv, k as int + 1));
            }
            let ghost g0 = texts(out.guards@);
            intern_opt(&mut out.guards, &r.guard);
            proof {
                lemma_dedup_step(g0, guards_upto(m@, i as int) + rule_guards(sv, k as int), name_text(rv.guard), texts(out.guards@));
                lemma_concat_new_step(k as int, |y: int| name_text(sv.rules[y].guard));
                assert(guards_upto(m@, i as int) + rule_guards(sv, k as int) + name_text(rv.guard) =~= guards_upto(m@, i as int) + rule_guards(sv, k as int + 1));
            }
            let ghost a0 = texts(out.actions@);
            intern_opt(&mut out.actions, &r.action);
            proof {
                lemma_dedup_step(a0, actions_upto(m@, i as int) + rule_actions(sv, k as int), name_text(rv.action), texts(out.actions@));
                lemma_concat_new_step(k as int, |y: int| name_text(sv.rules[y].action));
                assert(actions_upto(m@, i as int) + rule_actions(sv, k as int) + name_text(rv.action) =~= actions_upto(m@, i as int) + rule_actions(sv, k as int + 1));
            }
            k += 1;
        }
        proof {
            lemma_concat_new_step(i as int, |x: int| rule_events(m@.states[x], m@.states[x].rules.len() as int));
            lemma_concat_new_step(i as int, |x: int| rule_guards(m@.states[x], m@.states[x].rules.len() as int));
            lemma_concat_new_step(i as int, |x: int| rule_actions(m@.states[x], m@.states[x].rules.len() as int));
        }
        i += 1;
    }
    out
}


/// The position of `t` in `list`, which holds it.
fn index_of(list: &Vec<String>, t: &String) -> (r: usize)
    requires
        texts(list@).contains(t@),
    ensures
        resolves(texts(list@), r as int, t@),
{
    let n = list.len();
    let mut i: usize = 0;
    while !(list[i] == *t)
        invariant
            n == list@.len(),
            texts(list@).contains(t@),
            i < n,
            forall|j: int| 0 <= j < i ==> #[trigger] texts(list@)[j] != t@,
        decreases n - i,
    {
        proof {
            let j = choose|j: int| 0 <= j < texts(list@).len() && texts(list@)[j] == t@;
            assert(texts(list@)[i as int] != t@);
            assert(j > i);
        }
        i += 1;
    }
    i
}

fn index_of_opt(list: &Vec<String>, o: &Option<Name>) -> (r: Option<usize>)
    requires
        o matches Some(n) ==> texts(list@).contains(n.text@),
    ensures
        opt_resolves(texts(list@), r, opt_view(*o)),
{
    match o {
        Some(n) => Some(index_of(list, &n.text)),
        None => None,
    }
}

/// The position of the state named `t`, which is declared.
fn state_index(m: &RawMachine, t: &String) -> (r: usize)
    requires
        declared(m@, t@),
    ensures
        r < m@.states.len(),
        m@.states[r as int].name.text == t@,
{
    let n = m.states.len();
    let mut i: usize = 0;
    while !(m.states[i].name.text == *t)
        invariant
            n == m@.states.len(),
            declared(m@, t@),
            i < n,
            forall|j: int| 0 <= j < i ==> #[trigger] m@.states[j].name.text != t@,
        decreases n - i,
    {
        proof {
            let j = choose|j: int| 0 <= j < n && #[trigger] m@.states[j].name.text == t@;
            assert(m@.states[i as int].name.text != t@);
            assert(j > i);
        }
        i += 1;
    }
    i
}

fn option_given(m: &RawMachine, lit: &str) -> (r: bool)
    ensures
        r == option_set(m@, lit@),
{
    let want = String::from_str(lit);
    let n = m.options.len();
    let mut i: usize = 0;
    while i < n
        invariant
            n == m@.options.len(),
            want@ == lit@,
            i <= n,
            forall|j: int| 0 <= j < i ==> #[trigger] m@.options[j].text != lit@,
        decreases n - i,
    {
        if m.options[i].text == want {
            assert(m@.options[i as int].text == lit@);
            return true;
        }
        i += 1;
    }
    false
}

proof fn lemma_rule_names_listed(m: MachineV, i: int, k: int)
    requires
        0 <= i < m.states.len(),
        0 <= k < m.states[i].rules.len(),
    ensures
        dedup(all_events(m)).contains(m.states[i].rules[k].event.text),
        m.states[i].rules[k].guard matches Some(g) ==> dedup(all_guards(m)).contains(g.text),
        m.states[i].rules[k].action matches Some(a) ==> dedup(all_actions(m)).contains(a.text),
{
    let s = m.states[i];
    let r = s.rules[k];
    let n = s.rules.len() as int;
    let ns = m.states.len();
    let ev = Seq::new(n as nat, |y: int| seq![s.rules[y].event.text]);
    assert(ev[k][0] == r.event.text);
    lemma_concat_contains(ev, k, 0);
    lemma_concat_has(Seq::new(ns, |x: int| rule_events(m.states[x], m.states[x].rules.len() as int)), i, r.event.text);
    lemma_dedup_contains(all_events(m), r.event.text);
    if let Some(g) = r.guard {
        let gs = Seq::new(n as nat, |y: int| name_text(s.rules[y].guard));
        assert(gs[k][0] == g.text);
        lemma_concat_contains(gs, k, 0);
        lemma_concat_has(Seq::new(ns, |x: int| rule_guards(m.states[x], m.states[x].rules.len() as int)), i, g.text);
        lemma_dedup_contains(all_guards(m), g.text);
    }
    if let Some(a) = r.action {
        let acts = Seq::new(n as nat, |y: int| name_text(s.rules[y].action));
        assert(acts[k][0] == a.text);
        lemma_concat_contains(acts, k, 0);
        lemma_concat_has(Seq::new(ns, |x: int| rule_actions(m.states[x], m.states[x].rules.len() as int)), i, a.text);
        lemma_dedup_contains(all_actions(m), a.text);
    }
}

proof fn lemma_hooks_listed(m: MachineV, i: int)
    requires
        0 <= i < m.states.len(),
    ensures
        m.states[i].on_entry matches Some(h) ==> dedup(all_entries(m)).contains(h.text),
        m.states[i].on_exit matches Some(h) ==> dedup(all_exits(m)).contains(h.text),
{
    let ns = m.states.len();
    if let Some(h) = m.states[i].on_entry {
        let xs = Seq::new(ns, |x: int| name_text(m.states[x].on_entry));
        assert(xs[i][0] == h.text);
        lemma_concat_contains(xs, i, 0);
        lemma_dedup_contains(all_entries(m), h.text);
    }
    if let Some(h) = m.states[i].on_exit {
        let xs = Seq::new(ns, |x: int| name_text(m.states[x].on_exit));
        assert(xs[i][0] == h.text);
        lemma_concat_contains(xs, i, 0);
        lemma_dedup_contains(all_exits(m), h.text);
    }
}

/// Names lists that stand for the whole definition `m`.
pub open spec fn lists_of(m: MachineV, names: Names) -> bool {
    &&& texts(names.events@) == dedup(all_events(m))
    &&& texts(names.guards@) == dedup(all_guards(m))
    &&& texts(names.actions@) == dedup(all_actions(m))
    &&& texts(names.entry_hooks@) == dedup(all_entries(m))
    &&& texts(names.exit_hooks@) == dedup(all_exits(m))
}

fn build_state(m: &RawMachine, i: usize, names: &Names) -> (r: StateDef)
    requires
        i < m@.states.len(),
        lists_of(m@, *names),
        forall|k: int|
            0 <= k < m@.states[i as int].rules.len() ==> declared(
                m@,
                #[trigger] m@.states[i as int].rules[k].target.text,
            ),
    ensures
        ({
            let v = m@.states[i as int];
            &&& r@.name == v.name.text
            &&& opt_resolves(texts(names.entry_hooks@), r.on_entry, v.on_entry)
            &&& opt_resolves(texts(names.exit_hooks@), r.on_exit, v.on_exit)
            &&& r@.rules.len() == v.rules.len()
            &&& forall|k: int|
                0 <= k < v.rules.len() ==> {
                    let x = #[trigger] r@.rules[k];
                    &&& resolves(texts(names.events@), x.event as int, v.rules[k].event.text)
                    &&& opt_resolves(texts(names.guards@), x.guard, v.rules[k].guard)
                    &&& opt_resolves(texts(names.actions@), x.action, v.rules[k].action)
                    &&& x.target < m@.states.len()
                    &&& m@.states[x.target as int].name.text == v.rules[k].target.text
                }
        }),
{
    let st = &m.states[i];
    let ghost v = m@.states[i as int];
    assert(v == st@);
    proof {
        lemma_hooks_listed(m@, i as int);
    }
    let on_entry = index_of_opt(&names.entry_hooks, &st.on_entry);
    let on_exit = index_of_opt(&names.exit_hooks, &st.on_exit);
    let n = st.rules.len();
    let mut rules: Vec<Rule> = Vec::new();
    let mut k: usize = 0;
    while k < n
        invariant
            i < m@.states.len(),
            lists_of(m@, *names),
            *st == m.states@[i as int],
            v == st@,
            n == v.rules.len(),
            k <= n,
            rules@.len() == k,
            forall|y: int| 0 <= y < v.rules.len() ==> declared(m@, #[trigger] v.rules[y].target.text),
            forall|y: int|
                0 <= y < k ==> {
                    let x = #[trigger] rules@[y];
                    &&& resolves(texts(names.events@), x.event as int, v.rules[y].event.text)
                    &&& opt_resolves(texts(names.guards@), x.guard, v.rules[y].guard)
                    &&& opt_resolves(texts(names.actions@), x.action, v.rules[y].action)
                    &&& x.target < m@.states.len()
                    &&& m@.states[x.target as int].name.text == v.rules[y].target.text
                },
        decreases n - k,
    {
        let r = &st.rules[k];
        proof {
            assert(v.rules[k as int] == r@);
            lemma_rule_names_listed(m@, i as int, k as int);
            assert(declared(m@, v.rules[k as int].target.text));
        }
        let event = index_of(&names.events, &r.event.text);
        let guard = index_of_opt(&names.guards, &r.guard);
        let action = index_of_opt(&names.actions, &r.action);
        let target = state_index(m, &r.target.text);
        rules.push(Rule { event, guard, action, target });
        k += 1;
    }
    StateDef { name: st.name.text.clone(), on_entry, on_exit, rules }
}

fn clone_opt_text(o: &Option<Name>) -> (r: Option<String>)
    ensures
        opt_text(r) == name_opt(opt_view(*o)),
{
    match o {
        Some(n) => Some(n.text.clone()),
        None => None,
    }
}

/// Checks a definition as written and, where it has no error, resolves it into a `Definition`.
/// Fails exactly where the definition has an error, with the first one in reporting order.
pub fn build(m: &RawMachine) -> (r: Result<Definition, DefError>)
    ensures
        r is Err <==> problems(m@).len() > 0,
        r matches Err(e) ==> e == problems(m@)[0],
        r matches Ok(d) ==> is_model(m@, d@) && d@.wf(),
{
    let ps = find_problems(m);
    if ps.len() > 0 {
        return Err(ps[0]);
    }
    let ghost mv = m@;
    let ns = m.states.len();
    proof {
        let sp = Seq::new(ns as nat, |x: int| crate::validate::state_problems(mv, x));
        let tp = Seq::new(ns as nat, |x: int| crate::validate::target_problems_of(mv, x));
        assert(problems(mv) == concat_all(sp) + concat_all(tp) + crate::seqs::only_if(
            !declared(mv, mv.initial.text),
            crate::validate::problem(crate::error::ErrorKind::UndefinedInitialState, mv.initial.pos),
        ));
        assert forall|x: int, k: int|
            0 <= x < ns && 0 <= k < mv.states[x].rules.len() implies declared(
            mv,
            #[trigger] mv.states[x].rules[k].target.text,
        ) by {
            lemma_concat_empty(tp, x);
            lemma_concat_empty(
                Seq::new(mv.states[x].rules.len(), |y: int| crate::validate::target_problem(mv, x, y)),
                k,
            );
        }
        assert forall|x: int| 0 <= x < ns implies !declared_before(
            mv,
            x,
            #[trigger] mv.states[x].name.text,
        ) by {
            lemma_concat_empty(sp, x);
        }
    }
    let names = collect(m);
    let mut states: Vec<StateDef> = Vec::new();
    let mut i: usize = 0;
    while i < ns
        invariant
            mv == m@,
            ns == mv.states.len(),
            i <= ns,
            states@.len() == i,
            lists_of(mv, names),
            forall|x: int, k: int|
                0 <= x < ns && 0 <= k < mv.states[x].rules.len() ==> declared(
                    mv,
                    #[trigger] mv.states[x].rules[k].target.text,
                ),
            forall|x: int|
                0 <= x < i ==> {
                    let s = #[trigger] states@[x]@;
                    let v = mv.states[x];
                    &&& s.name == v.name.text
                    &&& opt_resolves(texts(names.entry_hooks@), s.on_entry, v.on_entry)
                    &&& opt_resolves(texts(names.exit_hooks@), s.on_exit, v.on_exit)
                    &&& s.rules.len() == v.rules.len()
                    &&& forall|k: int|
                        0 <= k < v.rules.len() ==> {
                            let x = #[trigger] s.rules[k];
                            &&& resolves(texts(names.events@), x.event as int, v.rules[k].event.text)
                            &&& opt_resolves(texts(names.guards@), x.guard, v.rules[k].guard)
                            &&& opt_resolves(texts(names.actions@), x.action, v.rules[k].action)
                            &&& x.target < ns
                            &&& mv.states[x.target as int].name.text == v.rules[k].target.text
                        }
                },
        decreases ns - i,
    {
        let s = build_state(m, i, &names);
        states.push(s);
        i += 1;
    }
    let initial = state_index(m, &m.initial.text);
    let options = Options {
        action_with_info: option_given(m, "action_handler_with_transition_info"),
        entry_with_info: option_given(m, "entry_handler_with_transition_info"),
        exit_with_info: option_given(m, "exit_handler_with_transition_info"),
        guard_with_info: option_given(m, "guard_with_transition_info"),
    };
    let ghost dv = DefinitionV {
        name: m.name.text@,
        initial: initial as int,
        payload: name_opt(mv.payload),
        unexpected: name_opt(mv.unexpected),
        options,
        states: states@.map_values(|s: StateDef| s@),
        events: texts(names.events@),
        guards: texts(names.guards@),
        actions: texts(names.actions@),
        entry_hooks: texts(names.entry_hooks@),
        exit_hooks: texts(names.exit_hooks@),
    };
    proof {
        lemma_dedup_unique(all_events(mv));
        lemma_dedup_unique(all_guards(mv));
        lemma_dedup_unique(all_actions(mv));
        lemma_dedup_unique(all_entries(mv));
        lemma_dedup_unique(all_exits(mv));
        assert forall|x: int| 0 <= x < ns implies state_model(dv, #[trigger] dv.states[x], mv.states[x])
            && dv.state_ok(dv.states[x]) by {
            assert(dv.states[x] == states@[x]@);
            let s = states@[x]@;
            let v = mv.states[x];
            assert forall|k: int| 0 <= k < s.rules.len() implies rule_model(dv, #[trigger] s.rules[k], v.rules[k]) && dv.rule_ok(s.rules[k]) by {
                let t = s.rules[k].target as int;
                assert(dv.states[t] == states@[t]@);
            }
        }
        assert forall|x: int, y: int|
            0 <= x < ns && 0 <= y < ns && x != y implies #[trigger] dv.states[x].name
            != #[trigger] dv.states[y].name by {
            assert(dv.states[x] == states@[x]@);
            assert(dv.states[y] == states@[y]@);
            if x < y {
                assert(!declared_before(mv, y, mv.states[y].name.text));
            } else {
                assert(!declared_before(mv, x, mv.states[x].name.text));
            }
        }
        assert(dv.states[initial as int] == states@[initial as int]@);
    }
    let d = Definition {
        name: m.name.text.clone(),
        initial,
        payload: clone_opt_text(&m.payload),
        unexpected: clone_opt_text(&m.unexpected),
        options,
        states,
        events: names.events,
        guards: names.guards,
        actions: names.actions,
        entry_hooks: names.entry_hooks,
        exit_hooks: names.exit_hooks,
    };
    assert(d@ == dv);
    Ok(d)
}

} // verus!

use vstd::prelude::*;
use crate::error::{DefError, ErrorKind};
use crate::lexer::{Lexeme, Punct, Spanned, Tok, Token};
use crate::seqs::{concat_all, lemma_concat_split, lemma_concat_take};
use crate::validate::{is_known_option, option_known};

verus! {

/// An identifier of a definition and the offset where it stands.
#[derive(Clone, Debug)]
pub struct Name {
    pub text: String,
    pub pos: usize,
}

pub struct NameV {
    pub text: Seq<char>,
    pub pos: int,
}

impl View for Name {
    type V = NameV;

    open spec fn view(&self) -> NameV {
        NameV { text: self.text@, pos: self.pos as int }
    }
}

pub open spec fn opt_view(o: Option<Name>) -> Option<NameV> {
    match o {
        Some(n) => Some(n@),
        None => None,
    }
}

/// One transition line: `event [guard] == action => target`.
#[derive(Clone, Debug)]
pub struct RawRule {
    pub event: Name,
    pub guard: Option<Name>,
    pub action: Option<Name>,
    pub target: Name,
}

pub struct RuleV {
    pub event: NameV,
    pub guard: Option<NameV>,
    pub action: Option<NameV>,
    pub target: NameV,
}

impl View for RawRule {
    type V = RuleV;

    open spec fn view(&self) -> RuleV {
        RuleV {
            event: self.event@,
            guard: opt_view(self.guard),
            action: opt_view(self.action),
            target: self.target@,
        }
    }
}

/// One state block: its name, its hooks and its transition lines in source order.
#[derive(Clone, Debug)]
pub struct RawState {
    pub name: Name,
    pub on_entry: Option<Name>,
    pub on_exit: Option<Name>,
    pub rules: Vec<RawRule>,
}

pub struct StateV {
    pub name: NameV,
    pub on_entry: Option<NameV>,
    pub on_exit: Option<NameV>,
    pub rules: Seq<RuleV>,
}

impl View for RawState {
    type V = StateV;

    open spec fn view(&self) -> StateV {
        StateV {
            name: self.name@,
            on_entry: opt_view(self.on_entry),
            on_exit: opt_view(self.on_exit),
            rules: self.rules@.map_values(|r: RawRule| r@),
        }
    }
}

/// A whole definition as written, before any check of its meaning.
#[derive(Clone, Debug)]
pub struct RawMachine {
    pub bracketed: bool,
    pub options: Vec<Name>,
    pub trailing_comma: bool,
    pub name: Name,
    pub initial: Name,
    pub payload: Option<Name>,
    pub unexpected: Option<Name>,
    pub states: Vec<RawState>,
}

pub struct MachineV {
    pub bracketed: bool,
    pub options: Seq<NameV>,
    pub trailing_comma: bool,
    pub name: NameV,
    pub initial: NameV,
    pub payload: Option<NameV>,
    pub unexpected: Option<NameV>,
    pub states: Seq<StateV>,
}

impl View for RawMachine {
    type V = MachineV;

    open spec fn view(&self) -> MachineV {
        MachineV {
            bracketed: self.bracketed,
            options: self.options@.map_values(|n: Name| n@),
            trailing_comma: self.trailing_comma,
            name: self.name@,
            initial: self.initial@,
            payload: opt_view(self.payload),
            unexpected: opt_view(self.unexpected),
            states: self.states@.map_values(|s: RawState| s@),
        }
    }
}

#[derive(Clone, Copy, Debug, PartialEq, Eq, Structural)]
pub enum Keyword {
    Name,
    InitialState,
    EventPayload,
    UnexpectedHandler,
    OnEntry,
    OnExit,
}

pub open spec fn keyword_text(k: Keyword) -> Seq<char> {
    match k {
        Keyword::Name => "Name"@,
        Keyword::InitialState => "InitialState"@,
        Keyword::EventPayload => "EventPayload"@,
        Keyword::UnexpectedHandler => "UnexpectedHandler"@,
        Keyword::OnEntry => "OnEntry"@,
        Keyword::OnExit => "OnExit"@,
    }
}

/// What the written form of a definition consists of: a named identifier at its offset,
/// a keyword, or a punctuation mark.
pub enum Piece {
    Word(NameV),
    Key(Keyword),
    Mark(Punct),
}

pub open spec fn piece_ok(t: Spanned, p: Piece) -> bool {
    match p {
        Piece::Word(n) => t.lex == Lexeme::Word(n.text) && t.pos == n.pos,
        Piece::Key(k) => t.lex == Lexeme::Word(keyword_text(k)),
        Piece::Mark(m) => t.lex == Lexeme::Mark(m),
    }
}

/// The tokens from index `p` on begin with the pieces `ps`.
pub open spec fn renders_at(ts: Seq<Token>, p: int, ps: Seq<Piece>) -> bool {
    &&& 0 <= p
    &&& p + ps.len() <= ts.len()
    &&& forall|k: int| 0 <= k < ps.len() ==> piece_ok(#[trigger] ts[p + k]@, ps[k])
}

pub open spec fn keyed(k: Keyword, o: Option<NameV>) -> Seq<Piece> {
    match o {
        Some(n) => seq![Piece::Key(k), Piece::Word(n)],
        None => seq![],
    }
}

pub open spec fn render_guard(g: Option<NameV>) -> Seq<Piece> {
    match g {
        Some(n) => seq![Piece::Mark(Punct::OpenBracket), Piece::Word(n), Piece::Mark(Punct::CloseBracket)],
        None => seq![],
    }
}

pub open spec fn render_action(a: Option<NameV>) -> Seq<Piece> {
    match a {
        Some(n) => seq![Piece::Mark(Punct::EqEq), Piece::Word(n)],
        None => seq![],
    }
}

/// The written form of a transition line.
pub open spec fn render_rule(r: RuleV) -> Seq<Piece> {
    seq![Piece::Word(r.event)] + render_guard(r.guard) + render_action(r.action) + seq![
        Piece::Mark(Punct::Arrow),
        Piece::Word(r.target),
    ]
}

pub open spec fn render_rules(rs: Seq<RuleV>) -> Seq<Piece> {
    concat_all(rs.map_values(|r: RuleV| render_rule(r)))
}

/// The written form of a state block.
pub open spec fn render_state(s: StateV) -> Seq<Piece> {
    seq![Piece::Word(s.name), Piece::Mark(Punct::OpenBrace)] + keyed(Keyword::OnEntry, s.on_entry)
        + keyed(Keyword::OnExit, s.on_exit) + render_rules(s.rules) + seq![
        Piece::Mark(Punct::CloseBrace),
    ]
}

pub open spec fn render_states(ss: Seq<StateV>) -> Seq<Piece> {
    concat_all(ss.map_values(|s: StateV| render_state(s)))
}

pub open spec fn comma_word(n: NameV) -> Seq<Piece> {
    seq![Piece::Mark(Punct::Comma), Piece::Word(n)]
}

/// The option list: absent, or the names in brackets, separated by commas, with a comma
/// after the last one where `trailing` is set.
pub open spec fn render_options(ns: Seq<NameV>, bracketed: bool, trailing: bool) -> Seq<Piece> {
    if !bracketed {
        seq![]
    } else if ns.len() == 0 {
        seq![Piece::Mark(Punct::OpenBracket), Piece::Mark(Punct::CloseBracket)]
    } else {
        seq![Piece::Mark(Punct::OpenBracket), Piece::Word(ns[0])] + concat_all(
            ns.skip(1).map_values(|n: NameV| comma_word(n)),
        ) + (if trailing {
            seq![Piece::Mark(Punct::Comma)]
        } else {
            seq![]
        }) + seq![Piece::Mark(Punct::CloseBracket)]
    }
}

pub open spec fn options_of(m: MachineV) -> Seq<Piece> {
    render_options(m.options, m.bracketed, m.trailing_comma)
}

pub open spec fn render_header(m: MachineV) -> Seq<Piece> {
    options_of(m) + seq![
        Piece::Key(Keyword::Name),
        Piece::Word(m.name),
        Piece::Key(Keyword::InitialState),
        Piece::Word(m.initial),
    ] + keyed(Keyword::EventPayload, m.payload) + keyed(Keyword::UnexpectedHandler, m.unexpected)
}

/// The written form of a whole definition.
pub open spec fn render_machine(m: MachineV) -> Seq<Piece> {
    render_header(m) + render_states(m.states)
}

/// The tokens are exactly the pieces `ps`.
pub open spec fn renders(ts: Seq<Token>, ps: Seq<Piece>) -> bool {
    renders_at(ts, 0, ps) && ps.len() == ts.len()
}

/// A state block reads back as written: a rule's event right after the opening brace is no
/// hook keyword that would be read in its place.
pub open spec fn state_fits(s: StateV) -> bool {
    s.rules.len() > 0 ==> {
        &&& (s.on_entry is None && s.on_exit is None) ==> s.rules[0].event.text != keyword_text(
            Keyword::OnEntry,
        )
        &&& s.on_exit is None ==> s.rules[0].event.text != keyword_text(Keyword::OnExit)
    }
}

/// A definition reads back as written: its options are recognised ones, it has a state, the first state's name is no optional
/// header keyword that would be read in its place, and each state block fits.
pub open spec fn machine_fits(m: MachineV) -> bool {
    &&& options_known(m)
    &&& !m.bracketed ==> m.options.len() == 0
    &&& m.options.len() == 0 ==> !m.trailing_comma
    &&& m.states.len() > 0
    &&& m.unexpected is None ==> m.states[0].name.text != keyword_text(Keyword::UnexpectedHandler)
    &&& (m.payload is None && m.unexpected is None) ==> m.states[0].name.text != keyword_text(
        Keyword::EventPayload,
    )
    &&& forall|i: int| 0 <= i < m.states.len() ==> state_fits(#[trigger] m.states[i])
}

pub proof fn lemma_piece(ts: Seq<Token>, p: int, ps: Seq<Piece>, k: int)
    requires
        renders_at(ts, p, ps),
        0 <= k < ps.len(),
    ensures
        piece_ok(ts[p + k]@, ps[k]),
{
    assert(piece_ok(ts[p + k]@, ps[k]));
}

pub proof fn lemma_split(ts: Seq<Token>, p: int, a: Seq<Piece>, b: Seq<Piece>)
    ensures
        renders_at(ts, p, a + b) <==> (renders_at(ts, p, a) && renders_at(ts, p + a.len(), b)),
{
    if renders_at(ts, p, a + b) {
        assert forall|k: int| 0 <= k < a.len() implies piece_ok(#[trigger] ts[p + k]@, a[k]) by {
            assert((a + b)[k] == a[k]);
            assert(piece_ok(ts[p + k]@, (a + b)[k]));
        }
        assert forall|k: int| 0 <= k < b.len() implies piece_ok(
            #[trigger] ts[p + a.len() + k]@,
            b[k],
        ) by {
            assert((a + b)[a.len() + k] == b[k]);
            assert(piece_ok(ts[p + (a.len() + k)]@, (a + b)[a.len() + k]));
        }
    }
    if renders_at(ts, p, a) && renders_at(ts, p + a.len(), b) {
        assert forall|k: int| 0 <= k < (a + b).len() implies piece_ok(
            #[trigger] ts[p + k]@,
            (a + b)[k],
        ) by {
            if k < a.len() {
                assert(piece_ok(ts[p + k]@, a[k]));
            } else {
                assert(piece_ok(ts[p + a.len() + (k - a.len())]@, b[k - a.len()]));
            }
        }
    }
}

/// Where the tokens begin with a list of written forms, each element stands after those before it.
proof fn lemma_concat_element(ts: Seq<Token>, p: int, xs: Seq<Seq<Piece>>, k: int)
    requires
        renders_at(ts, p, concat_all(xs)),
        0 <= k < xs.len(),
    ensures
        renders_at(ts, p + concat_all(xs.take(k)).len(), xs[k]),
        renders_at(ts, p, concat_all(xs.take(k + 1))),
{
    lemma_concat_split(xs, k + 1);
    lemma_concat_take(xs, k);
    lemma_split(ts, p, concat_all(xs.take(k + 1)), concat_all(xs.skip(k + 1)));
    lemma_split(ts, p, concat_all(xs.take(k)), xs[k]);
}

/// Offset reported for token index `p`: the token's own, or the end of the text past the last token.
pub open spec fn offset_of(ts: Seq<Token>, p: int, end: int) -> int {
    if 0 <= p < ts.len() {
        ts[p]@.pos
    } else {
        end
    }
}

fn offset(ts: &Vec<Token>, p: usize, end: usize) -> (r: usize)
    ensures
        r == offset_of(ts@, p as int, end as int),
{
    if p < ts.len() {
        ts[p].pos
    } else {
        end
    }
}

/// The error is reported at the offset of a token, or at the end of the text.
pub open spec fn located(ts: Seq<Token>, e: DefError, end: int) -> bool {
    exists|i: int| 0 <= i <= ts.len() && e.pos == #[trigger] offset_of(ts, i, end)
}

fn syntax_error(ts: &Vec<Token>, p: usize, end: usize) -> (e: DefError)
    ensures
        e.kind == ErrorKind::Syntax,
        e.pos == offset_of(ts@, p as int, end as int),
        located(ts@, e, end as int),
{
    let e = DefError { kind: ErrorKind::Syntax, pos: offset(ts, p, end) };
    proof {
        if p < ts@.len() {
            assert(e.pos == offset_of(ts@, p as int, end as int));
        } else {
            assert(e.pos == offset_of(ts@, ts@.len() as int, end as int));
        }
    }
    e
}

/// The identifier at index `p`.
fn word_at(ts: &Vec<Token>, p: usize) -> (r: Option<Name>)
    ensures
        r is Some <==> (p < ts@.len() && ts@[p as int]@.lex is Word),
        r matches Some(n) ==> piece_ok(ts@[p as int]@, Piece::Word(n@)),
{
    if p < ts.len() {
        match &ts[p].tok {
            Tok::Ident(w) => Some(Name { text: w.clone(), pos: ts[p].pos }),
            Tok::Mark(_) => None,
        }
    } else {
        None
    }
}

/// Whether the token at index `p` is the mark `m`.
fn mark_at(ts: &Vec<Token>, p: usize, m: Punct) -> (r: bool)
    ensures
        r == (p < ts@.len() && ts@[p as int]@.lex == Lexeme::Mark(m)),
{
    if p < ts.len() {
        match &ts[p].tok {
            Tok::Mark(q) => *q == m,
            Tok::Ident(_) => false,
        }
    } else {
        false
    }
}

fn keyword_str(k: Keyword) -> (r: &'static str)
    ensures
        r@ == keyword_text(k),
{
    match k {
        Keyword::Name => "Name",
        Keyword::InitialState => "InitialState",
        Keyword::EventPayload => "EventPayload",
        Keyword::UnexpectedHandler => "UnexpectedHandler",
        Keyword::OnEntry => "OnEntry",
        Keyword::OnExit => "OnExit",
    }
}

/// Whether the token at index `p` is the keyword `k`.
fn key_at(ts: &Vec<Token>, p: usize, k: Keyword) -> (r: bool)
    ensures
        r == (p < ts@.len() && ts@[p as int]@.lex == Lexeme::Word(keyword_text(k))),
{
    if p < ts.len() {
        match &ts[p].tok {
            Tok::Ident(w) => {
                let kw = String::from_str(keyword_str(k));
                *w == kw
            },
            Tok::Mark(_) => false,
        }
    } else {
        false
    }
}


/// The tokens from index `p` on begin with the written form of `v`, stated token by token.
pub open spec fn rule_shape(ts: Seq<Token>, p: int, v: RuleV) -> bool {
    let q = p + 1 + render_guard(v.guard).len();
    let q2 = q + render_action(v.action).len();
    &&& 0 <= p
    &&& q2 + 2 <= ts.len()
    &&& piece_ok(ts[p]@, Piece::Word(v.event))
    &&& match v.guard {
        Some(n) => {
            &&& ts[p + 1]@.lex == Lexeme::Mark(Punct::OpenBracket)
            &&& piece_ok(ts[p + 2]@, Piece::Word(n))
            &&& ts[p + 3]@.lex == Lexeme::Mark(Punct::CloseBracket)
        },
        None => true,
    }
    &&& match v.action {
        Some(n) => ts[q]@.lex == Lexeme::Mark(Punct::EqEq) && piece_ok(ts[q + 1]@, Piece::Word(n)),
        None => true,
    }
    &&& ts[q2]@.lex == Lexeme::Mark(Punct::Arrow)
    &&& piece_ok(ts[q2 + 1]@, Piece::Word(v.target))
}

proof fn lemma_rule_shape(ts: Seq<Token>, p: int, v: RuleV)
    ensures
        renders_at(ts, p, render_rule(v)) <==> rule_shape(ts, p, v),
        render_rule(v).len() == 3 + render_guard(v.guard).len() + render_action(v.action).len(),
{
    let rr = render_rule(v);
    let g = render_guard(v.guard);
    let a = render_action(v.action);
    let w = seq![Piece::Word(v.event)];
    let t = seq![Piece::Mark(Punct::Arrow), Piece::Word(v.target)];
    assert(rr == w + g + a + t);
    lemma_split(ts, p, w + g + a, t);
    lemma_split(ts, p, w + g, a);
    lemma_split(ts, p, w, g);
    if renders_at(ts, p, rr) {
        lemma_piece(ts, p, w, 0);
        if g.len() > 0 {
            lemma_piece(ts, p + 1, g, 0);
            lemma_piece(ts, p + 1, g, 1);
            lemma_piece(ts, p + 1, g, 2);
        }
        if a.len() > 0 {
            lemma_piece(ts, p + 1 + g.len(), a, 0);
            lemma_piece(ts, p + 1 + g.len(), a, 1);
        }
        lemma_piece(ts, p + 1 + g.len() + a.len(), t, 0);
        lemma_piece(ts, p + 1 + g.len() + a.len(), t, 1);
    }
    if rule_shape(ts, p, v) {
        assert(renders_at(ts, p, w));
        assert(renders_at(ts, p + 1, g));
        assert(renders_at(ts, p + 1 + g.len(), a));
        assert(renders_at(ts, p + 1 + g.len() + a.len(), t));
    }
}

/// Reads one transition line at index `p`.
fn parse_rule(ts: &Vec<Token>, p: usize, end: usize) -> (r: Result<(RawRule, usize), DefError>)
    ensures
        r matches Ok((x, q)) ==> renders_at(ts@, p as int, render_rule(x@)) && q == p
            + render_rule(x@).len(),
        r matches Err(e) ==> e.kind == ErrorKind::Syntax && located(ts@, e, end as int),
        forall|v: RuleV|
            renders_at(ts@, p as int, #[trigger] render_rule(v)) ==> r is Ok && r->Ok_0.0@ == v,
{
    proof {
        assert forall|v: RuleV| #[trigger]
            render_rule(v) == render_rule(v) implies (renders_at(ts@, p as int, render_rule(v))
            <==> rule_shape(ts@, p as int, v)) by {
            lemma_rule_shape(ts@, p as int, v);
        }
    }
    let n = ts.len();
    let event = match word_at(ts, p) {
        Some(w) => w,
        None => {
            return Err(syntax_error(ts, p, end));
        },
    };
    let mut q = p + 1;
    let mut guard: Option<Name> = None;
    if mark_at(ts, q, Punct::OpenBracket) {
        match word_at(ts, q + 1) {
            Some(g) => {
                if mark_at(ts, q + 2, Punct::CloseBracket) {
                    guard = Some(g);
                    q = q + 3;
                } else {
                    return Err(syntax_error(ts, q + 2, end));
                }
            },
            None => {
                return Err(syntax_error(ts, q + 1, end));
            },
        }
    }
    let mut action: Option<Name> = None;
    if mark_at(ts, q, Punct::EqEq) {
        match word_at(ts, q + 1) {
            Some(a) => {
                action = Some(a);
                q = q + 2;
            },
            None => {
                return Err(syntax_error(ts, q + 1, end));
            },
        }
    }
    if !mark_at(ts, q, Punct::Arrow) {
        return Err(syntax_error(ts, q, end));
    }
    let target = match word_at(ts, q + 1) {
        Some(n) => n,
        None => {
            return Err(syntax_error(ts, q + 1, end));
        },
    };
    let rule = RawRule { event, guard, action, target };
    proof {
        lemma_rule_shape(ts@, p as int, rule@);
    }
    Ok((rule, q + 2))
}


proof fn lemma_keywords_differ(a: Keyword, b: Keyword)
    requires
        a != b,
    ensures
        keyword_text(a) != keyword_text(b),
{
    reveal_strlit("Name");
    reveal_strlit("InitialState");
    reveal_strlit("EventPayload");
    reveal_strlit("UnexpectedHandler");
    reveal_strlit("OnEntry");
    reveal_strlit("OnExit");
    if keyword_text(a) == keyword_text(b) {
        assert(keyword_text(a)[0] == keyword_text(b)[0]);
        assert(keyword_text(a).len() == keyword_text(b).len());
    }
}

pub open spec fn rules_view(rs: Seq<RawRule>) -> Seq<RuleV> {
    rs.map_values(|r: RawRule| r@)
}

pub open spec fn state_head(v: StateV) -> Seq<Piece> {
    seq![Piece::Word(v.name), Piece::Mark(Punct::OpenBrace)] + keyed(Keyword::OnEntry, v.on_entry)
        + keyed(Keyword::OnExit, v.on_exit)
}

proof fn lemma_state_parts(ts: Seq<Token>, p: int, v: StateV)
    requires
        renders_at(ts, p, render_state(v)),
    ensures
        piece_ok(ts[p]@, Piece::Word(v.name)),
        ts[p + 1]@.lex == Lexeme::Mark(Punct::OpenBrace),
        v.on_entry matches Some(n) ==> ts[p + 2]@.lex == Lexeme::Word(keyword_text(Keyword::OnEntry))
            && piece_ok(ts[p + 3]@, Piece::Word(n)),
        v.on_exit matches Some(n) ==> ts[p + 2 + keyed(Keyword::OnEntry, v.on_entry).len()]@.lex
            == Lexeme::Word(keyword_text(Keyword::OnExit)) && piece_ok(
            ts[p + 3 + keyed(Keyword::OnEntry, v.on_entry).len()]@,
            Piece::Word(n),
        ),
        renders_at(ts, p + state_head(v).len(), render_rules(v.rules)),
        v.rules.len() > 0 ==> piece_ok(ts[p + state_head(v).len()]@, Piece::Word(v.rules[0].event)),
        ts[p + state_head(v).len() + render_rules(v.rules).len()]@.lex == Lexeme::Mark(
            Punct::CloseBrace,
        ),
        render_state(v).len() == state_head(v).len() + render_rules(v.rules).len() + 1,
        state_head(v).len() == 2 + keyed(Keyword::OnEntry, v.on_entry).len() + keyed(
            Keyword::OnExit,
            v.on_exit,
        ).len(),
{
    let h = state_head(v);
    let r = render_rules(v.rules);
    let c = seq![Piece::Mark(Punct::CloseBrace)];
    let w = seq![Piece::Word(v.name), Piece::Mark(Punct::OpenBrace)];
    let ke = keyed(Keyword::OnEntry, v.on_entry);
    let kx = keyed(Keyword::OnExit, v.on_exit);
    assert(render_state(v) == h + r + c);
    lemma_split(ts, p, h + r, c);
    lemma_split(ts, p, h, r);
    lemma_split(ts, p, w + ke, kx);
    lemma_split(ts, p, w, ke);
    lemma_piece(ts, p, w, 0);
    lemma_piece(ts, p, w, 1);
    if ke.len() > 0 {
        lemma_piece(ts, p + 2, ke, 0);
        lemma_piece(ts, p + 2, ke, 1);
    }
    if kx.len() > 0 {
        lemma_piece(ts, p + 2 + ke.len(), kx, 0);
        lemma_piece(ts, p + 2 + ke.len(), kx, 1);
    }
    lemma_piece(ts, p + h.len() + r.len(), c, 0);
    if v.rules.len() > 0 {
        let xs = v.rules.map_values(|x: RuleV| render_rule(x));
        lemma_concat_element(ts, p + h.len(), xs, 0);
        assert(xs.take(0) =~= Seq::<Seq<Piece>>::empty());
        lemma_rule_shape(ts, p + h.len(), v.rules[0]);
    }
}

/// Reads one state block at index `p`.
#[verifier::rlimit(40)]
fn parse_state(ts: &Vec<Token>, p: usize, end: usize) -> (r: Result<(RawState, usize), DefError>)
    ensures
        r matches Ok((x, q)) ==> renders_at(ts@, p as int, render_state(x@)) && q == p
            + render_state(x@).len(),
        r matches Err(e) ==> e.kind == ErrorKind::Syntax && located(ts@, e, end as int),
        forall|v: StateV|
            state_fits(v) && renders_at(ts@, p as int, #[trigger] render_state(v)) ==> r is Ok
                && r->Ok_0.0@ == v,
{
    let n = ts.len();
    let name = match word_at(ts, p) {
        Some(w) => w,
        None => {
            proof {
                assert forall|v: StateV| !renders_at(ts@, p as int, #[trigger] render_state(v)) by {
                    if renders_at(ts@, p as int, render_state(v)) {
                        lemma_state_parts(ts@, p as int, v);
                    }
                }
            }
            return Err(syntax_error(ts, p, end));
        },
    };
    if !mark_at(ts, p + 1, Punct::OpenBrace) {
        proof {
            assert forall|v: StateV| !renders_at(ts@, p as int, #[trigger] render_state(v)) by {
                if renders_at(ts@, p as int, render_state(v)) {
                    lemma_state_parts(ts@, p as int, v);
                }
            }
        }
        return Err(syntax_error(ts, p + 1, end));
    }
    let mut q = p + 2;
    let mut on_entry: Option<Name> = None;
    if key_at(ts, q, Keyword::OnEntry) {
        match word_at(ts, q + 1) {
            Some(w) => {
                on_entry = Some(w);
                q = q + 2;
            },
            None => {
                proof {
                    assert forall|v: StateV|
                        state_fits(v) implies !renders_at(ts@, p as int, #[trigger] render_state(v)) by {
                        if renders_at(ts@, p as int, render_state(v)) {
                            lemma_state_parts(ts@, p as int, v);
                            lemma_keywords_differ(Keyword::OnEntry, Keyword::OnExit);
                        }
                    }
                }
                return Err(syntax_error(ts, q + 1, end));
            },
        }
    }
    let mut on_exit: Option<Name> = None;
    if key_at(ts, q, Keyword::OnExit) {
        match word_at(ts, q + 1) {
            Some(w) => {
                on_exit = Some(w);
                q = q + 2;
            },
            None => {
                proof {
                    assert forall|v: StateV|
                        state_fits(v) implies !renders_at(ts@, p as int, #[trigger] render_state(v)) by {
                        if renders_at(ts@, p as int, render_state(v)) {
                            lemma_state_parts(ts@, p as int, v);
                            lemma_keywords_differ(Keyword::OnEntry, Keyword::OnExit);
                        }
                    }
                }
                return Err(syntax_error(ts, q + 1, end));
            },
        }
    }
    let body = q;
    let ghost head = seq![Piece::Word(name@), Piece::Mark(Punct::OpenBrace)] + keyed(
        Keyword::OnEntry,
        opt_view(on_entry),
    ) + keyed(Keyword::OnExit, opt_view(on_exit));
    proof {
        assert(renders_at(ts@, p as int, head));
        assert(body == p + head.len());
        assert forall|v: StateV|
            state_fits(v) && renders_at(ts@, p as int, #[trigger] render_state(v)) implies v.name
            == name@ && v.on_entry == opt_view(on_entry) && v.on_exit == opt_view(on_exit) by {
            lemma_state_parts(ts@, p as int, v);
            lemma_keywords_differ(Keyword::OnEntry, Keyword::OnExit);
        }
    }
    let mut rules: Vec<RawRule> = Vec::new();
    while !mark_at(ts, q, Punct::CloseBrace)
        invariant
            n == ts@.len(),
            body <= q <= n,
            renders_at(ts@, body as int, render_rules(rules_view(rules@))),
            q == body + render_rules(rules_view(rules@)).len(),
            forall|v: StateV|
                state_fits(v) && renders_at(ts@, p as int, #[trigger] render_state(v)) ==> {
                    &&& v.name == name@
                    &&& v.on_entry == opt_view(on_entry)
                    &&& v.on_exit == opt_view(on_exit)
                    &&& rules@.len() <= v.rules.len()
                    &&& rules_view(rules@) =~= v.rules.take(rules@.len() as int)
                },
            body == p + head.len(),
            head == seq![Piece::Word(name@), Piece::Mark(Punct::OpenBrace)] + keyed(
                Keyword::OnEntry,
                opt_view(on_entry),
            ) + keyed(Keyword::OnExit, opt_view(on_exit)),
        decreases n - q,
    {
        let ghost done = rules_view(rules@);
        let ghost i = rules@.len() as int;
        proof {
            assert forall|v: StateV|
                state_fits(v) && renders_at(ts@, p as int, #[trigger] render_state(v)) implies i
                < v.rules.len() && renders_at(ts@, q as int, render_rule(v.rules[i])) by {
                lemma_state_parts(ts@, p as int, v);
                let xs = v.rules.map_values(|x: RuleV| render_rule(x));
                assert(xs.take(i) =~= done.map_values(|x: RuleV| render_rule(x)));
                if i == v.rules.len() {
                    assert(xs =~= xs.take(i));
                }
                lemma_concat_element(ts@, body as int, xs, i);
            }
        }
        match parse_rule(ts, q, end) {
            Ok((x, q2)) => {
                rules.push(x);
                proof {
                    let xs = done.push(x@).map_values(|y: RuleV| render_rule(y));
                    assert(rules_view(rules@) =~= done.push(x@));
                    assert(xs.take(i) =~= done.map_values(|y: RuleV| render_rule(y)));
                    assert(xs.take(i + 1) =~= xs);
                    lemma_concat_take(xs, i);
                    lemma_split(ts@, body as int, concat_all(xs.take(i)), xs[i]);
                    assert forall|v: StateV|
                        state_fits(v) && renders_at(ts@, p as int, #[trigger] render_state(v))
                        implies rules_view(rules@) =~= v.rules.take(rules@.len() as int) by {
                        assert(v.rules.take(i + 1) =~= v.rules.take(i).push(v.rules[i]));
                    }
                }
                q = q2;
            },
            Err(e) => {
                return Err(e);
            },
        }
    }
    let state = RawState { name, on_entry, on_exit, rules };
    proof {
        let c = seq![Piece::Mark(Punct::CloseBrace)];
        assert(state@.rules == rules_view(rules@));
        assert(render_state(state@) == head + render_rules(rules_view(rules@)) + c);
        lemma_split(ts@, p as int, head, render_rules(rules_view(rules@)));
        assert(renders_at(ts@, q as int, c));
        lemma_split(ts@, p as int, head + render_rules(rules_view(rules@)), c);
        assert forall|v: StateV|
            state_fits(v) && renders_at(ts@, p as int, #[trigger] render_state(v)) implies state@
            == v by {
            lemma_state_parts(ts@, p as int, v);
            let i = rules@.len() as int;
            if i < v.rules.len() {
                let xs = v.rules.map_values(|x: RuleV| render_rule(x));
                assert(xs.take(i) =~= rules_view(rules@).map_values(|x: RuleV| render_rule(x)));
                lemma_concat_element(ts@, body as int, xs, i);
                lemma_rule_shape(ts@, q as int, v.rules[i]);
            }
            assert(v.rules.take(i) =~= v.rules);
            assert(state@.rules =~= v.rules);
        }
    }
    Ok((state, q + 1))
}


pub open spec fn names_view(ns: Seq<Name>) -> Seq<NameV> {
    ns.map_values(|n: Name| n@)
}

pub open spec fn states_view(ss: Seq<RawState>) -> Seq<StateV> {
    ss.map_values(|s: RawState| s@)
}

pub open spec fn option_tail(ns: Seq<NameV>) -> Seq<Seq<Piece>> {
    ns.skip(1).map_values(|n: NameV| comma_word(n))
}

proof fn lemma_options_parts(ts: Seq<Token>, v: MachineV)
    requires
        renders_at(ts, 0, options_of(v)),
        v.bracketed,
    ensures
        ts[0]@.lex == Lexeme::Mark(Punct::OpenBracket),
        v.options.len() == 0 ==> ts[1]@.lex == Lexeme::Mark(Punct::CloseBracket) && options_of(v).len() == 2,
        v.options.len() > 0 ==> {
            let c = 2 + concat_all(option_tail(v.options)).len() as int;
            &&& piece_ok(ts[1]@, Piece::Word(v.options[0]))
            &&& renders_at(ts, 2, concat_all(option_tail(v.options)))
            &&& v.trailing_comma ==> ts[c]@.lex == Lexeme::Mark(Punct::Comma) && ts[c + 1]@.lex
                == Lexeme::Mark(Punct::CloseBracket)
            &&& !v.trailing_comma ==> ts[c]@.lex == Lexeme::Mark(Punct::CloseBracket)
            &&& options_of(v).len() == c + 1 + if v.trailing_comma { 1int } else { 0 }
        },
{
    let ns = v.options;
    if ns.len() == 0 {
        lemma_piece(ts, 0, options_of(v), 0);
        lemma_piece(ts, 0, options_of(v), 1);
    } else {
        let w = seq![Piece::Mark(Punct::OpenBracket), Piece::Word(ns[0])];
        let t = concat_all(option_tail(ns));
        let k: Seq<Piece> = if v.trailing_comma {
            seq![Piece::Mark(Punct::Comma)]
        } else {
            seq![]
        };
        let c = seq![Piece::Mark(Punct::CloseBracket)];
        assert(options_of(v) == w + t + k + c);
        lemma_split(ts, 0, w + t + k, c);
        lemma_split(ts, 0, w + t, k);
        lemma_split(ts, 0, w, t);
        lemma_piece(ts, 0, w, 0);
        lemma_piece(ts, 0, w, 1);
        if v.trailing_comma {
            lemma_piece(ts, 2 + t.len() as int, k, 0);
        }
        lemma_piece(ts, 2 + t.len() + k.len() as int, c, 0);
    }
}

proof fn lemma_machine_parts(ts: Seq<Token>, v: MachineV)
    requires
        renders(ts, render_machine(v)),
    ensures
        renders_at(ts, 0, options_of(v)),
        !v.bracketed ==> options_of(v).len() == 0,
        v.bracketed ==> options_of(v).len() > 0,
        ({
            let o = options_of(v).len() as int;
            let h1 = o + 4;
            let h2 = h1 + keyed(Keyword::EventPayload, v.payload).len();
            let hl = h2 + keyed(Keyword::UnexpectedHandler, v.unexpected).len();
            &&& ts[o]@.lex == Lexeme::Word(keyword_text(Keyword::Name))
            &&& piece_ok(ts[o + 1]@, Piece::Word(v.name))
            &&& ts[o + 2]@.lex == Lexeme::Word(keyword_text(Keyword::InitialState))
            &&& piece_ok(ts[o + 3]@, Piece::Word(v.initial))
            &&& v.payload matches Some(n) ==> ts[h1]@.lex == Lexeme::Word(
                keyword_text(Keyword::EventPayload),
            ) && piece_ok(ts[h1 + 1]@, Piece::Word(n))
            &&& v.unexpected matches Some(n) ==> ts[h2]@.lex == Lexeme::Word(
                keyword_text(Keyword::UnexpectedHandler),
            ) && piece_ok(ts[h2 + 1]@, Piece::Word(n))
            &&& hl == render_header(v).len()
            &&& renders_at(ts, hl, render_states(v.states))
            &&& hl + render_states(v.states).len() == ts.len()
            &&& v.states.len() > 0 ==> piece_ok(ts[hl]@, Piece::Word(v.states[0].name))
        }),
{
    let o = options_of(v);
    let f = seq![
        Piece::Key(Keyword::Name),
        Piece::Word(v.name),
        Piece::Key(Keyword::InitialState),
        Piece::Word(v.initial),
    ];
    let kp = keyed(Keyword::EventPayload, v.payload);
    let ku = keyed(Keyword::UnexpectedHandler, v.unexpected);
    let st = render_states(v.states);
    let ol = o.len() as int;
    assert(render_machine(v) == o + f + kp + ku + st);
    lemma_split(ts, 0, o + f + kp + ku, st);
    lemma_split(ts, 0, o + f + kp, ku);
    lemma_split(ts, 0, o + f, kp);
    lemma_split(ts, 0, o, f);
    lemma_piece(ts, ol, f, 0);
    lemma_piece(ts, ol, f, 1);
    lemma_piece(ts, ol, f, 2);
    lemma_piece(ts, ol, f, 3);
    if kp.len() > 0 {
        lemma_piece(ts, ol + 4, kp, 0);
        lemma_piece(ts, ol + 4, kp, 1);
    }
    if ku.len() > 0 {
        lemma_piece(ts, ol + 4 + kp.len(), ku, 0);
        lemma_piece(ts, ol + 4 + kp.len(), ku, 1);
    }
    let hl = ol + 4 + kp.len() + ku.len();
    if v.states.len() > 0 {
        let xs = v.states.map_values(|x: StateV| render_state(x));
        lemma_concat_element(ts, hl, xs, 0);
        assert(xs.take(0) =~= Seq::<Seq<Piece>>::empty());
        lemma_state_parts(ts, hl, v.states[0]);
    }
}

pub open spec fn options_match(v: MachineV, os: Seq<NameV>, bracketed: bool, trailing: bool) -> bool {
    v.options == os && v.bracketed == bracketed && v.trailing_comma == trailing
}

/// Reads the option list at the start of the tokens, if there is one: the names, whether
/// there are brackets, whether a comma follows the last name, and the index after the list.
pub open spec fn word_of(t: Spanned) -> Seq<char> {
    match t.lex {
        Lexeme::Word(w) => w,
        Lexeme::Mark(_) => seq![],
    }
}

/// The token read as the option list's `m`-th name.
pub open spec fn option_name_at(ts: Seq<Token>, m: int) -> Spanned {
    ts[2 * m + 1]@
}

/// The token read as the separator after the option list's `m`-th name.
pub open spec fn option_sep_at(ts: Seq<Token>, m: int) -> Spanned {
    ts[2 * m + 2]@
}

/// Reading the option list reaches its `k`-th name after `k` recognised ones, and that name
/// is no recognised option.
pub open spec fn unknown_option_at(ts: Seq<Token>, k: int) -> bool {
    &&& 0 <= k
    &&& 2 * k + 1 < ts.len()
    &&& ts[0]@.lex == Lexeme::Mark(Punct::OpenBracket)
    &&& forall|m: int| 0 <= m <= k ==> (#[trigger] option_name_at(ts, m)).lex is Word
    &&& forall|m: int|
        0 <= m < k ==> option_sep_at(ts, m).lex == Lexeme::Mark(Punct::Comma) && option_known(
            word_of(#[trigger] option_name_at(ts, m)),
        )
    &&& !option_known(word_of(option_name_at(ts, k)))
}

/// The error for an unknown `k`-th option name: reported at that name.
pub open spec fn unknown_option_error(ts: Seq<Token>, k: int) -> DefError {
    DefError { kind: ErrorKind::UnknownOption, pos: option_name_at(ts, k).pos as usize }
}

/// Every option the definition names is a recognised one.
pub open spec fn options_known(v: MachineV) -> bool {
    forall|i: int| 0 <= i < v.options.len() ==> option_known(#[trigger] v.options[i].text)
}

proof fn lemma_unknown_option_unique(ts: Seq<Token>, k: int, j: int)
    requires
        unknown_option_at(ts, k),
        unknown_option_at(ts, j),
    ensures
        k == j,
{
    if k < j {
        assert(option_known(word_of(option_name_at(ts, k))));
    } else if j < k {
        assert(option_known(word_of(option_name_at(ts, j))));
    }
}

#[verifier::rlimit(60)]
fn read_options(ts: &Vec<Token>, end: usize) -> (r: Result<(Vec<Name>, bool, bool, usize), DefError>)
    ensures
        r matches Ok((os, b, c, q)) ==> renders_at(ts@, 0, render_options(names_view(os@), b, c)) && q
            == render_options(names_view(os@), b, c).len(),
        r matches Ok((os, b, c, q)) ==> {
            &&& b <==> ts@.len() > 0 && ts@[0]@.lex == Lexeme::Mark(Punct::OpenBracket)
            &&& b && os@.len() == 0 ==> ts@[1]@.lex == Lexeme::Mark(Punct::CloseBracket)
            &&& os@.len() > 0 ==> b && 2 * os@.len() < ts@.len()
            &&& forall|m: int|
                0 <= m < os@.len() ==> (#[trigger] option_name_at(ts@, m)).lex == Lexeme::Word(
                    os@[m].text@,
                ) && option_name_at(ts@, m).pos == os@[m].pos
            &&& forall|m: int|
                0 <= m < os@.len() - 1 ==> (#[trigger] option_sep_at(ts@, m)).lex == Lexeme::Mark(Punct::Comma)
            &&& os@.len() > 0 && c ==> ts@[2 * os@.len() as int]@.lex == Lexeme::Mark(Punct::Comma)
                && ts@[2 * os@.len() + 1int]@.lex == Lexeme::Mark(Punct::CloseBracket)
            &&& os@.len() > 0 && !c ==> ts@[2 * os@.len() as int]@.lex == Lexeme::Mark(
                Punct::CloseBracket,
            )
        },
        r matches Err(e) ==> e.kind == ErrorKind::Syntax && located(ts@, e, end as int),
        forall|v: MachineV|
            machine_fits(v) && renders(ts@, #[trigger] render_machine(v)) ==> r is Ok && options_match(
                v,
                names_view(r->Ok_0.0@),
                r->Ok_0.1,
                r->Ok_0.2,
            ),
{
    let n = ts.len();
    proof {
        assert forall|v: MachineV| renders(ts@, #[trigger] render_machine(v)) implies (v.bracketed
            <==> ts@[0]@.lex == Lexeme::Mark(Punct::OpenBracket)) by {
            lemma_machine_parts(ts@, v);
            if v.bracketed {
                lemma_options_parts(ts@, v);
            }
        }
    }
    if !mark_at(ts, 0, Punct::OpenBracket) {
        let os: Vec<Name> = Vec::new();
        proof {
            assert(names_view(os@) =~= Seq::<NameV>::empty());
            assert forall|v: MachineV|
                machine_fits(v) && renders(ts@, #[trigger] render_machine(v)) implies options_match(
                v,
                names_view(os@),
                false,
                false,
            ) by {
                assert(v.options =~= Seq::<NameV>::empty());
            }
        }
        return Ok((os, false, false, 0));
    }
    if mark_at(ts, 1, Punct::CloseBracket) {
        let os: Vec<Name> = Vec::new();
        proof {
            assert(names_view(os@) =~= Seq::<NameV>::empty());
            assert(renders_at(ts@, 0, render_options(names_view(os@), true, false)));
            assert forall|v: MachineV|
                machine_fits(v) && renders(ts@, #[trigger] render_machine(v)) implies options_match(
                v,
                names_view(os@),
                true,
                false,
            ) by {
                lemma_machine_parts(ts@, v);
                lemma_options_parts(ts@, v);
                assert(v.options =~= Seq::<NameV>::empty());
            }
        }
        return Ok((os, true, false, 2));
    }
    let first = match word_at(ts, 1) {
        Some(w) => w,
        None => {
            proof {
                assert forall|v: MachineV| !renders(ts@, #[trigger] render_machine(v)) by {
                    if renders(ts@, render_machine(v)) {
                        lemma_machine_parts(ts@, v);
                        lemma_options_parts(ts@, v);
                    }
                }
            }
            return Err(syntax_error(ts, 1, end));
        },
    };
    let mut os: Vec<Name> = Vec::new();
    os.push(first);
    let mut q: usize = 2;
    proof {
        assert(option_tail(names_view(os@)) =~= Seq::<Seq<Piece>>::empty());
        assert forall|v: MachineV| renders(ts@, #[trigger] render_machine(v)) implies v.bracketed
            && v.options.len() >= 1 && names_view(os@) =~= v.options.take(1) by {
            lemma_machine_parts(ts@, v);
            lemma_options_parts(ts@, v);
        }
    }
    while mark_at(ts, q, Punct::Comma) && !mark_at(ts, q + 1, Punct::CloseBracket)
        invariant
            n == ts@.len(),
            2 <= q <= n,
            os@.len() >= 1,
            os@[0]@ == first@,
            piece_ok(ts@[1]@, Piece::Word(first@)),
            ts@[0]@.lex == Lexeme::Mark(Punct::OpenBracket),
            renders_at(ts@, 2, concat_all(option_tail(names_view(os@)))),
            q == 2 + concat_all(option_tail(names_view(os@))).len(),
            q == 2 * os@.len(),
            forall|m: int|
                0 <= m < os@.len() ==> (#[trigger] option_name_at(ts@, m)).lex == Lexeme::Word(
                    os@[m].text@,
                ) && option_name_at(ts@, m).pos == os@[m].pos,
            forall|m: int| 0 <= m < os@.len() - 1 ==> (#[trigger] option_sep_at(ts@, m)).lex == Lexeme::Mark(Punct::Comma),
            forall|v: MachineV|
                renders(ts@, #[trigger] render_machine(v)) ==> v.bracketed && os@.len() <= v.options.len()
                    && names_view(os@) =~= v.options.take(os@.len() as int),
        decreases n - q,
    {
        let ghost before = names_view(os@);
        let ghost old_os = os@;
        let ghost i = os@.len() as int;
        let w = match word_at(ts, q + 1) {
            Some(w) => w,
            None => {
                proof {
                    assert forall|v: MachineV| !renders(ts@, #[trigger] render_machine(v)) by {
                        if renders(ts@, render_machine(v)) {
                            lemma_machine_parts(ts@, v);
                            lemma_options_parts(ts@, v);
                            let xs = option_tail(v.options);
                            assert(xs.take(i - 1) =~= option_tail(before));
                            if i == v.options.len() {
                                assert(xs =~= xs.take(i - 1));
                            } else {
                                lemma_concat_element(ts@, 2, xs, i - 1);
                                lemma_piece(ts@, q as int, xs[i - 1], 1);
                            }
                        }
                    }
                }
                return Err(syntax_error(ts, q + 1, end));
            },
        };
        os.push(w);
        proof {
            assert(option_name_at(ts@, i) == ts@[q + 1]@);
            assert(os@[i] == w);
            assert forall|m: int| 0 <= m < i implies #[trigger] os@[m] == old_os[m] by {}
            let now = names_view(os@);
            assert(now =~= before.push(w@));
            let xs = option_tail(now);
            assert(xs.take(i - 1) =~= option_tail(before));
            assert(xs.take(i) =~= xs);
            lemma_concat_take(xs, i - 1);
            assert(renders_at(ts@, q as int, comma_word(w@)));
            lemma_split(ts@, 2, concat_all(xs.take(i - 1)), xs[i - 1]);
            assert forall|v: MachineV| renders(ts@, #[trigger] render_machine(v)) implies os@.len()
                <= v.options.len() && now =~= v.options.take(os@.len() as int) by {
                lemma_machine_parts(ts@, v);
                lemma_options_parts(ts@, v);
                let ys = option_tail(v.options);
                assert(ys.take(i - 1) =~= option_tail(before));
                if i == v.options.len() {
                    assert(ys =~= ys.take(i - 1));
                } else {
                    lemma_concat_element(ts@, 2, ys, i - 1);
                    lemma_piece(ts@, q as int, ys[i - 1], 1);
                    assert(v.options.take(i + 1) =~= v.options.take(i).push(v.options[i]));
                }
            }
        }
        q = q + 2;
    }
    let ghost i = os@.len() as int;
    proof {
        assert forall|v: MachineV| renders(ts@, #[trigger] render_machine(v)) implies i
            == v.options.len() by {
            lemma_machine_parts(ts@, v);
            lemma_options_parts(ts@, v);
            let ys = option_tail(v.options);
            assert(ys.take(i - 1) =~= option_tail(names_view(os@)));
            if i < v.options.len() {
                lemma_concat_element(ts@, 2, ys, i - 1);
                lemma_piece(ts@, q as int, ys[i - 1], 0);
                lemma_piece(ts@, q as int, ys[i - 1], 1);
            }
            assert(ys =~= ys.take(i - 1));
        }
    }
    let trailing = mark_at(ts, q, Punct::Comma);
    let close = if trailing {
        q + 1
    } else {
        q
    };
    if !mark_at(ts, close, Punct::CloseBracket) {
        proof {
            assert forall|v: MachineV| !renders(ts@, #[trigger] render_machine(v)) by {
                if renders(ts@, render_machine(v)) {
                    lemma_machine_parts(ts@, v);
                    lemma_options_parts(ts@, v);
                    assert(option_tail(v.options) =~= option_tail(names_view(os@)));
                }
            }
        }
        return Err(syntax_error(ts, close, end));
    }
    proof {
        let ns = names_view(os@);
        assert(ns[0] == first@);
        let w = seq![Piece::Mark(Punct::OpenBracket), Piece::Word(ns[0])];
        let k: Seq<Piece> = if trailing {
            seq![Piece::Mark(Punct::Comma)]
        } else {
            seq![]
        };
        let c = seq![Piece::Mark(Punct::CloseBracket)];
        assert(renders_at(ts@, 0, w));
        assert(renders_at(ts@, q as int, k));
        assert(renders_at(ts@, close as int, c));
        lemma_split(ts@, 0, w, concat_all(option_tail(ns)));
        lemma_split(ts@, 0, w + concat_all(option_tail(ns)), k);
        lemma_split(ts@, 0, w + concat_all(option_tail(ns)) + k, c);
        assert(render_options(ns, true, trailing) == w + concat_all(option_tail(ns)) + k + c);
        assert forall|v: MachineV|
            machine_fits(v) && renders(ts@, #[trigger] render_machine(v)) implies options_match(
            v,
            ns,
            true,
            trailing,
        ) by {
            lemma_machine_parts(ts@, v);
            lemma_options_parts(ts@, v);
            assert(v.options.take(i) =~= v.options);
            assert(option_tail(v.options) =~= option_tail(ns));
        }
    }
    Ok((os, true, trailing, close + 1))
}

/// Reads the state blocks from index `hl` to the end of the tokens; `head` is what stands before.
#[verifier::rlimit(60)]
fn parse_states(ts: &Vec<Token>, hl: usize, end: usize, Ghost(head): Ghost<Seq<Piece>>) -> (r: Result<Vec<RawState>, DefError>)
    requires
        renders_at(ts@, 0, head),
        hl == head.len(),
        forall|v: MachineV|
            machine_fits(v) && renders(ts@, #[trigger] render_machine(v)) ==> render_header(v) == head,
    ensures
        r matches Ok(ss) ==> ss@.len() > 0 && renders_at(ts@, hl as int, render_states(states_view(ss@)))
            && hl + render_states(states_view(ss@)).len() == ts@.len(),
        r matches Err(e) ==> e.kind == ErrorKind::Syntax && located(ts@, e, end as int),
        forall|v: MachineV|
            machine_fits(v) && renders(ts@, #[trigger] render_machine(v)) ==> r is Ok
                && states_view(r->Ok_0@) == v.states,
{
    let n = ts.len();
    let mut q = hl;
    proof {
        assert(states_view(Seq::<RawState>::empty()) =~= Seq::<StateV>::empty());
        assert(Seq::<StateV>::empty().map_values(|x: StateV| render_state(x)) =~= Seq::<Seq<Piece>>::empty());
    }
    let mut states: Vec<RawState> = Vec::new();
    while states.len() == 0 || q < n
        invariant
            n == ts@.len(),
            hl <= q <= n,
            hl == head.len(),
            renders_at(ts@, 0, head),
            renders_at(ts@, hl as int, render_states(states_view(states@))),
            q == hl + render_states(states_view(states@)).len(),
            forall|v: MachineV|
                machine_fits(v) && renders(ts@, #[trigger] render_machine(v)) ==> {
                    &&& render_header(v) == head
                    &&& states@.len() <= v.states.len()
                    &&& states_view(states@) =~= v.states.take(states@.len() as int)
                },
        decreases n - q,
    {
        let ghost done = states_view(states@);
        let ghost i = states@.len() as int;
        proof {
            assert forall|v: MachineV|
                machine_fits(v) && renders(ts@, #[trigger] render_machine(v)) implies i
                < v.states.len() && renders_at(ts@, q as int, render_state(v.states[i]))
                && state_fits(v.states[i]) by {
                lemma_machine_parts(ts@, v);
                let xs = v.states.map_values(|x: StateV| render_state(x));
                assert(xs.take(i) =~= done.map_values(|x: StateV| render_state(x)));
                if i == v.states.len() {
                    assert(xs =~= xs.take(i));
                }
                lemma_concat_element(ts@, hl as int, xs, i);
            }
        }
        match parse_state(ts, q, end) {
            Ok((x, q2)) => {
                states.push(x);
                proof {
                    let xs = done.push(x@).map_values(|y: StateV| render_state(y));
                    assert(states_view(states@) =~= done.push(x@));
                    assert(xs.take(i) =~= done.map_values(|y: StateV| render_state(y)));
                    assert(xs.take(i + 1) =~= xs);
                    lemma_concat_take(xs, i);
                    lemma_split(ts@, hl as int, concat_all(xs.take(i)), xs[i]);
                    lemma_state_parts(ts@, q as int, x@);
                    assert forall|v: MachineV|
                        machine_fits(v) && renders(ts@, #[trigger] render_machine(v))
                        implies states_view(states@) =~= v.states.take(states@.len() as int) by {
                        assert(v.states.take(i + 1) =~= v.states.take(i).push(v.states[i]));
                    }
                }
                q = q2;
            },
            Err(e) => {
                return Err(e);
            },
        }
    }
    proof {
        assert forall|v: MachineV|
            machine_fits(v) && renders(ts@, #[trigger] render_machine(v)) implies states_view(states@)
            == v.states by {
            lemma_machine_parts(ts@, v);
            let i = states@.len() as int;
            if i < v.states.len() {
                let xs = v.states.map_values(|x: StateV| render_state(x));
                assert(xs.take(i) =~= states_view(states@).map_values(|x: StateV| render_state(x)));
                lemma_concat_element(ts@, hl as int, xs, i);
                lemma_state_parts(ts@, q as int, v.states[i]);
            }
            assert(v.states.take(i) =~= v.states);
        }
    }
    Ok(states)
}

/// Follows the option list the way it is read, name after name, and returns the index of the
/// first name that is no recognised option, if reading reaches one.
fn find_unknown_option(ts: &Vec<Token>) -> (r: Option<usize>)
    ensures
        r matches Some(k) ==> unknown_option_at(ts@, k as int),
        r is None ==> forall|k: int| !unknown_option_at(ts@, k),
{
    if !mark_at(ts, 0, Punct::OpenBracket) {
        return None;
    }
    let n = ts.len();
    let mut m: usize = 0;
    loop
        invariant
            n == ts@.len(),
            2 * m + 1 <= n + 1,
            ts@[0]@.lex == Lexeme::Mark(Punct::OpenBracket),
            forall|j: int|
                0 <= j < m ==> (#[trigger] option_name_at(ts@, j)).lex is Word && ts@[2 * j + 2]@.lex
                    == Lexeme::Mark(Punct::Comma) && option_known(word_of(option_name_at(ts@, j))),
            forall|k: int| #[trigger] unknown_option_at(ts@, k) ==> k >= m,
        decreases n + 1 - 2 * m,
    {
        let w = match word_at(ts, 2 * m + 1) {
            Some(w) => w,
            None => {
                proof {
                    assert forall|k: int| !unknown_option_at(ts@, k) by {
                        if unknown_option_at(ts@, k) {
                            assert(option_name_at(ts@, m as int).lex is Word);
                        }
                    }
                }
                return None;
            },
        };
        proof {
            assert(option_name_at(ts@, m as int) == ts@[2 * m + 1]@);
            assert(word_of(option_name_at(ts@, m as int)) == w.text@);
        }
        if !is_known_option(&w.text) {
            proof {
                assert(unknown_option_at(ts@, m as int));
            }
            return Some(m);
        }
        if !mark_at(ts, 2 * m + 2, Punct::Comma) {
            proof {
                assert forall|k: int| !unknown_option_at(ts@, k) by {
                    if unknown_option_at(ts@, k) && k > m {
                        assert(option_sep_at(ts@, m as int).lex == Lexeme::Mark(Punct::Comma));
                    }
                }
            }
            return None;
        }
        proof {
            assert forall|k: int| #[trigger] unknown_option_at(ts@, k) implies k >= m + 1 by {
                if k == m {
                    assert(option_known(word_of(option_name_at(ts@, m as int))));
                }
            }
        }
        m = m + 1;
    }
}

/// The index of the first name among `os` that is no recognised option.
fn first_unknown_name(os: &Vec<Name>) -> (r: Option<usize>)
    ensures
        r matches Some(i) ==> i < os@.len() && !option_known(os@[i as int].text@) && forall|j: int|
            0 <= j < i ==> option_known(#[trigger] os@[j].text@),
        r is None ==> forall|j: int| 0 <= j < os@.len() ==> option_known(#[trigger] os@[j].text@),
{
    let n = os.len();
    let mut i: usize = 0;
    while i < n
        invariant
            n == os@.len(),
            i <= n,
            forall|j: int| 0 <= j < i ==> option_known(#[trigger] os@[j].text@),
        decreases n - i,
    {
        if !is_known_option(&os[i].text) {
            return Some(i);
        }
        i += 1;
    }
    None
}

/// Reads the option list at the start of the tokens, if there is one, checking each name as it
/// is read: the first name that is no recognised option is an error, reported at that name.
fn parse_options(ts: &Vec<Token>, end: usize) -> (r: Result<(Vec<Name>, bool, bool, usize), DefError>)
    ensures
        r matches Ok((os, b, c, q)) ==> renders_at(ts@, 0, render_options(names_view(os@), b, c)) && q
            == render_options(names_view(os@), b, c).len(),
        r matches Ok((os, b, c, q)) ==> forall|i: int|
            0 <= i < os@.len() ==> option_known(#[trigger] os@[i].text@),
        r matches Err(e) ==> (e.kind == ErrorKind::Syntax && located(ts@, e, end as int)) || (exists|k: int|
            unknown_option_at(ts@, k) && e == unknown_option_error(ts@, k)),
        forall|k: int|
            #[trigger] unknown_option_at(ts@, k) ==> r == Err::<(Vec<Name>, bool, bool, usize), DefError>(
                unknown_option_error(ts@, k),
            ),
        forall|v: MachineV|
            machine_fits(v) && options_known(v) && renders(ts@, #[trigger] render_machine(v)) ==> r is Ok
                && options_match(v, names_view(r->Ok_0.0@), r->Ok_0.1, r->Ok_0.2),
{
    match read_options(ts, end) {
        Ok((os, b, c, q)) => {
            match first_unknown_name(&os) {
                Some(i) => {
                    let e = DefError { kind: ErrorKind::UnknownOption, pos: os[i].pos };
                    proof {
                        assert(option_name_at(ts@, i as int).lex == Lexeme::Word(os@[i as int].text@));
                        assert forall|m: int| 0 <= m <= i implies (#[trigger] option_name_at(ts@, m)).lex is Word by {}
                        assert forall|m: int| 0 <= m < i implies option_sep_at(ts@, m).lex == Lexeme::Mark(Punct::Comma)
                            && option_known(word_of(#[trigger] option_name_at(ts@, m))) by {
                            assert(option_known(os@[m].text@));
                        }
                        assert(unknown_option_at(ts@, i as int));
                        assert(e == unknown_option_error(ts@, i as int));
                        assert forall|k: int| #[trigger] unknown_option_at(ts@, k) implies k == i by {
                            lemma_unknown_option_unique(ts@, k, i as int);
                        }
                        assert forall|v: MachineV|
                            machine_fits(v) && options_known(v) && renders(ts@, #[trigger] render_machine(v))
                            implies false by {
                            assert(names_view(os@) == v.options);
                            assert(option_known(v.options[i as int].text));
                        }
                    }
                    Err(e)
                },
                None => {
                    proof {
                        assert forall|k: int| !unknown_option_at(ts@, k) by {
                            if unknown_option_at(ts@, k) {
                                let len = os@.len() as int;
                                if k < len {
                                    assert(option_name_at(ts@, k).lex == Lexeme::Word(os@[k].text@));
                                    assert(option_known(os@[k].text@));
                                    assert(word_of(option_name_at(ts@, k)) == os@[k].text@);
                                } else if len == 0 {
                                    assert(option_name_at(ts@, 0).lex is Word);
                                    assert(b);
                                    assert(option_name_at(ts@, 0) == ts@[1]@);
                                } else if c {
                                    assert(option_name_at(ts@, len).lex is Word);
                                    assert(option_name_at(ts@, len) == ts@[2 * len + 1]@);
                                } else {
                                    assert(option_known(word_of(option_name_at(ts@, len - 1))));
                                    assert(option_sep_at(ts@, len - 1).lex == Lexeme::Mark(Punct::Comma));
                                    assert(option_sep_at(ts@, len - 1) == ts@[2 * len]@);
                                }
                            }
                        }
                    }
                    Ok((os, b, c, q))
                },
            }
        },
        Err(e) => {
            let n = ts.len();
            match find_unknown_option(ts) {
                Some(k) => {
                    proof {
                        assert forall|j: int| #[trigger] unknown_option_at(ts@, j) implies j == k by {
                            lemma_unknown_option_unique(ts@, j, k as int);
                        }
                    }
                    Err(DefError { kind: ErrorKind::UnknownOption, pos: ts[2 * k + 1].pos })
                },
                None => Err(e),
            }
        },
    }
}

/// Reads the header after the option list, from index `q0`: the name, the initial state and
/// the optional payload type and unexpected-event handler; `o` is the option list before.
#[verifier::rlimit(60)]
fn parse_names(ts: &Vec<Token>, q0: usize, end: usize, Ghost(o): Ghost<Seq<Piece>>) -> (r: Result<(Name, Name, Option<Name>, Option<Name>, usize), DefError>)
    requires
        renders_at(ts@, 0, o),
        q0 == o.len(),
        forall|v: MachineV|
            machine_fits(v) && renders(ts@, #[trigger] render_machine(v)) ==> o == options_of(v),
    ensures
        r matches Ok((name, initial, payload, unexpected, q)) ==> {
            let head = o + seq![
                Piece::Key(Keyword::Name),
                Piece::Word(name@),
                Piece::Key(Keyword::InitialState),
                Piece::Word(initial@),
            ] + keyed(Keyword::EventPayload, opt_view(payload)) + keyed(
                Keyword::UnexpectedHandler,
                opt_view(unexpected),
            );
            &&& renders_at(ts@, 0, head)
            &&& q == head.len()
            &&& forall|v: MachineV|
                machine_fits(v) && renders(ts@, #[trigger] render_machine(v)) ==> v.name == name@
                    && v.initial == initial@ && v.payload == opt_view(payload) && v.unexpected
                    == opt_view(unexpected) && render_header(v) == head
        },
        r matches Err(e) ==> e.kind == ErrorKind::Syntax && located(ts@, e, end as int),
        forall|v: MachineV| machine_fits(v) && renders(ts@, #[trigger] render_machine(v)) ==> r is Ok,
{
    let n = ts.len();
    if !key_at(ts, q0, Keyword::Name) {
        proof {
            assert forall|v: MachineV|
                machine_fits(v) implies !renders(ts@, #[trigger] render_machine(v)) by {
                if renders(ts@, render_machine(v)) {
                    lemma_machine_parts(ts@, v);
                }
            }
        }
        return Err(syntax_error(ts, q0, end));
    }
    let name = match word_at(ts, q0 + 1) {
        Some(w) => w,
        None => {
            proof {
                assert forall|v: MachineV|
                machine_fits(v) implies !renders(ts@, #[trigger] render_machine(v)) by {
                    if renders(ts@, render_machine(v)) {
                        lemma_machine_parts(ts@, v);
                    }
                }
            }
            return Err(syntax_error(ts, q0 + 1, end));
        },
    };
    if !key_at(ts, q0 + 2, Keyword::InitialState) {
        proof {
            assert forall|v: MachineV|
                machine_fits(v) implies !renders(ts@, #[trigger] render_machine(v)) by {
                if renders(ts@, render_machine(v)) {
                    lemma_machine_parts(ts@, v);
                }
            }
        }
        return Err(syntax_error(ts, q0 + 2, end));
    }
    let initial = match word_at(ts, q0 + 3) {
        Some(w) => w,
        None => {
            proof {
                assert forall|v: MachineV|
                machine_fits(v) implies !renders(ts@, #[trigger] render_machine(v)) by {
                    if renders(ts@, render_machine(v)) {
                        lemma_machine_parts(ts@, v);
                    }
                }
            }
            return Err(syntax_error(ts, q0 + 3, end));
        },
    };
    let mut q = q0 + 4;
    let mut payload: Option<Name> = None;
    if key_at(ts, q, Keyword::EventPayload) {
        match word_at(ts, q + 1) {
            Some(w) => {
                payload = Some(w);
                q = q + 2;
            },
            None => {
                proof {
                    assert forall|v: MachineV|
                        machine_fits(v) implies !renders(ts@, #[trigger] render_machine(v)) by {
                        if renders(ts@, render_machine(v)) {
                            lemma_machine_parts(ts@, v);
                            lemma_keywords_differ(Keyword::EventPayload, Keyword::UnexpectedHandler);
                        }
                    }
                }
                return Err(syntax_error(ts, q + 1, end));
            },
        }
    }
    let mut unexpected: Option<Name> = None;
    if key_at(ts, q, Keyword::UnexpectedHandler) {
        match word_at(ts, q + 1) {
            Some(w) => {
                unexpected = Some(w);
                q = q + 2;
            },
            None => {
                proof {
                    assert forall|v: MachineV|
                        machine_fits(v) implies !renders(ts@, #[trigger] render_machine(v)) by {
                        if renders(ts@, render_machine(v)) {
                            lemma_machine_parts(ts@, v);
                            lemma_keywords_differ(Keyword::EventPayload, Keyword::UnexpectedHandler);
                        }
                    }
                }
                return Err(syntax_error(ts, q + 1, end));
            },
        }
    }
    let ghost head = o + seq![
        Piece::Key(Keyword::Name),
        Piece::Word(name@),
        Piece::Key(Keyword::InitialState),
        Piece::Word(initial@),
    ] + keyed(Keyword::EventPayload, opt_view(payload)) + keyed(
        Keyword::UnexpectedHandler,
        opt_view(unexpected),
    );
    proof {
        lemma_split(ts@, 0, o, seq![
            Piece::Key(Keyword::Name),
            Piece::Word(name@),
            Piece::Key(Keyword::InitialState),
            Piece::Word(initial@),
        ]);
        assert(renders_at(ts@, 0, head));
        assert forall|v: MachineV|
            machine_fits(v) && renders(ts@, #[trigger] render_machine(v)) implies v.name == name@
            && v.initial == initial@ && v.payload == opt_view(payload) && v.unexpected == opt_view(
            unexpected,
        ) && render_header(v) == head by {
            lemma_machine_parts(ts@, v);
            lemma_keywords_differ(Keyword::EventPayload, Keyword::UnexpectedHandler);
        }
    }
    Ok((name, initial, payload, unexpected, q))
}

/// Reads a whole definition from its tokens; `end` is the length of the text, reported where
/// the tokens end too early. Succeeds exactly on the written forms of the definitions that
/// read back as written, and returns the one whose written form the tokens are.
pub fn parse(ts: &Vec<Token>, end: usize) -> (r: Result<RawMachine, DefError>)
    ensures
        r matches Ok(m) ==> renders(ts@, render_machine(m@)) && m@.states.len() > 0 && options_known(
            m@,
        ),
        r matches Err(e) ==> (e.kind == ErrorKind::Syntax && located(ts@, e, end as int)) || (exists|k: int|
            unknown_option_at(ts@, k) && e == unknown_option_error(ts@, k)),
        forall|k: int|
            #[trigger] unknown_option_at(ts@, k) ==> r == Err::<RawMachine, DefError>(unknown_option_error(ts@, k)),
        forall|v: MachineV|
            machine_fits(v) && options_known(v) && renders(ts@, #[trigger] render_machine(v)) ==> r is Ok
                && r->Ok_0@ == v,
{
    let n = ts.len();
    let (options, bracketed, trailing_comma, q0) = match parse_options(ts, end) {
        Ok(x) => x,
        Err(e) => {
            return Err(e);
        },
    };
    let ghost o = render_options(names_view(options@), bracketed, trailing_comma);
    proof {
        assert forall|v: MachineV|
            machine_fits(v) && renders(ts@, #[trigger] render_machine(v)) implies o == options_of(v) by {
            assert(options_match(v, names_view(options@), bracketed, trailing_comma));
        }
    }
    let (name, initial, payload, unexpected, hl) = match parse_names(ts, q0, end, Ghost(o)) {
        Ok(x) => x,
        Err(e) => {
            return Err(e);
        },
    };
    let ghost head = o + seq![
        Piece::Key(Keyword::Name),
        Piece::Word(name@),
        Piece::Key(Keyword::InitialState),
        Piece::Word(initial@),
    ] + keyed(Keyword::EventPayload, opt_view(payload)) + keyed(
        Keyword::UnexpectedHandler,
        opt_view(unexpected),
    );
    let states = match parse_states(ts, hl, end, Ghost(head)) {
        Ok(ss) => ss,
        Err(e) => {
            return Err(e);
        },
    };
    let m = RawMachine { bracketed, options, trailing_comma, name, initial, payload, unexpected, states };
    proof {
        assert(m@.options == names_view(options@));
        assert(m@.states == states_view(m.states@));
        assert(render_header(m@) == head);
        lemma_split(ts@, 0, head, render_states(m@.states));
        assert forall|v: MachineV|
            machine_fits(v) && renders(ts@, #[trigger] render_machine(v)) implies m@ == v by {
            assert(states_view(states@) == v.states);
            assert(m@.states =~= v.states);
            assert(options_match(v, names_view(options@), bracketed, trailing_comma));
        }
    }
    Ok(m)
}

} // verus!

//! The LR(0)/SLR(1) automaton: canonical collection of item sets, the
//! shift/goto/reduce tables, conflict diagnostics, and the semantic dispatch
//! tables.

use vstd::prelude::*;

use crate::closures::{
    closure, is_closure_of, item_eqv, item_key, key_lt, keyset_closed, max_rhs_len, Closure, Item,
};
use crate::grammar::{Grammar, GrammarSymbol, Rule, Semantic, Symbol, Token};
use crate::tokenset::TokenSet;

verus! {

broadcast use {
    vstd::prelude::Seq::lemma_take_succ_push,
    vstd::prelude::Seq::lemma_take_len,
    vstd::prelude::Seq::lemma_push_to_set_commute,
};

/// A diagnostic recorded while the automaton is built. Construction always
/// continues; the table that comes out is deterministic.
#[derive(Debug, Clone, Copy, PartialEq, Eq, Structural)]
pub enum Warning {
    /// Two rules are reducible in the same state under the same lookahead;
    /// the earlier rule (`kept`) stays in the table.
    ReduceReduce { kept: usize, dropped: usize, state: usize },
    /// A token both shifts and reduces in a state; the shift entry stands
    /// beside the reduce entry and wins in the emitted action table.
    ShiftReduce { rule: usize, token: Token, state: usize },
    /// An inline marker fires right after a nonterminal, before that
    /// nonterminal's subtree has been reduced.
    SemanticAfterNonterminal { sem: Semantic, state: usize, prev: Symbol },
    /// Two distinct inline markers bind to the same state.
    DuplicateStateSem { state: usize, first: Semantic, second: Semantic },
    /// Two distinct reduce markers bind to the same rule.
    DuplicateReduceSem { rule: usize, first: Semantic, second: Semantic },
}

/// One state of the automaton: its dense number and its action tables, kept
/// as key-unique association vectors.
#[derive(Debug, PartialEq, Eq)]
pub struct AutomataState {
    pub state: usize,
    pub shift_actions: Vec<(Token, usize)>,
    pub reduce_actions: Vec<(Option<Token>, usize)>,
    pub goto_actions: Vec<(Symbol, usize)>,
}

impl AutomataState {
    /// A fresh state with empty tables.
    pub fn new(state: usize) -> (r: Self)
        ensures
            r.state == state,
            r.shift_actions@.len() == 0,
            r.reduce_actions@.len() == 0,
            r.goto_actions@.len() == 0,
    {
        AutomataState {
            state,
            shift_actions: Vec::new(),
            reduce_actions: Vec::new(),
            goto_actions: Vec::new(),
        }
    }
}

/// Some pair of the association vector has key `k`.
pub open spec fn assoc_has<K>(s: Seq<(K, usize)>, k: K) -> bool {
    exists|i: int| 0 <= i < s.len() && (#[trigger] s[i]).0 == k
}

/// No key occurs twice in the association vector.
pub open spec fn assoc_unique<K>(s: Seq<(K, usize)>) -> bool {
    forall|i: int, j: int|
        0 <= i < j < s.len() ==> (#[trigger] s[i]).0 != (#[trigger] s[j]).0
}

/// The kernel of the transition out of item set `ks` under symbol `x`: every
/// item with the dot before `x`, advanced one step.
pub open spec fn goto_kernel(rules: Seq<Rule>, ks: Set<(int, int)>, x: GrammarSymbol) -> Set<
    (int, int),
> {
    Set::new(
        |k2: (int, int)|
            exists|k: (int, int)|
                #[trigger] ks.contains(k) && 0 <= k.0 < rules.len() && 0 <= k.1
                    < rules[k.0].tokens@.len() && rules[k.0].tokens@[k.1] == x && k2 == (
                k.0,
                k.1 + 1,
            ),
    )
}

/// Some item of `ks` has the dot before `x`.
pub open spec fn has_next(rules: Seq<Rule>, ks: Set<(int, int)>, x: GrammarSymbol) -> bool {
    exists|k: (int, int)|
        #[trigger] ks.contains(k) && 0 <= k.0 < rules.len() && 0 <= k.1 < rules[k.0].tokens@.len()
            && rules[k.0].tokens@[k.1] == x
}

/// Rule `r` is reducible in the item set (the dot stands at its far right).
pub open spec fn reducible_in(g: Grammar, ks: Set<(int, int)>, r: int) -> bool {
    0 <= r < g.rules@.len() && ks.contains((r, g.rules@[r].tokens@.len() as int))
}

/// The SLR(1) justification of a reduce entry: rule `r` is reducible in the
/// item set and the lookahead belongs to FOLLOW of its left-hand side.
pub open spec fn reduce_justified(g: Grammar, ks: Set<(int, int)>, t: Option<Token>, r: int) -> bool {
    reducible_in(g, ks, r) && g.follows_view()[g.rules@[r].symbol.0 as int].contains(t)
}

/// The inline marker standing before the dot of item identity `k`, for items
/// that are not at the end of their rule.
pub open spec fn marker_at(g: Grammar, k: (int, int)) -> Option<Semantic> {
    if 0 <= k.0 < g.rules@.len() && 0 <= k.1 < g.rules@[k.0].tokens@.len() && k.1
        < g.rules@[k.0].semantics@.len() {
        g.rules@[k.0].semantics@[k.1]
    } else {
        None
    }
}

/// The marker of the last marked item of the ordered view: the binding that a
/// scan in canonical order leaves behind.
pub open spec fn last_marker(g: Grammar, keys: Seq<(int, int)>) -> Option<Semantic>
    decreases keys.len(),
{
    if keys.len() == 0 {
        None
    } else {
        match marker_at(g, keys.last()) {
            Some(m) => Some(m),
            None => last_marker(g, keys.drop_last()),
        }
    }
}

/// All inline markers carried by items of the ordered view.
pub open spec fn markers_of(g: Grammar, keys: Seq<(int, int)>) -> Set<Semantic> {
    Set::new(
        |m: Semantic| exists|j: int| 0 <= j < keys.len() && marker_at(g, #[trigger] keys[j]) == Some(m),
    )
}

/// The complete account of one processed state `i` against grammar `g`:
/// exactly the owed shift, goto and reduce entries stand in its tables, each
/// transition's target is the closure of the corresponding kernel, reduce
/// entries are confined to FOLLOW with the earliest reducible rule winning,
/// and each conflict left a diagnostic.
pub open spec fn state_done(
    g: Grammar,
    closures: Seq<Closure>,
    metas: Seq<AutomataState>,
    warnings: Seq<Warning>,
    i: int,
) -> bool {
    let ks = closures[i].key_set();
    let st = metas[i];
    &&& assoc_unique(st.shift_actions@)
    &&& assoc_unique(st.goto_actions@)
    &&& assoc_unique(st.reduce_actions@)
    // Shift entries: sound, targets correct.
    &&& forall|j: int|
        0 <= j < st.shift_actions@.len() ==> {
            let (t, n) = #[trigger] st.shift_actions@[j];
            &&& has_next(g.rules@, ks, GrammarSymbol::Token(t))
            &&& 0 <= n < closures.len()
            &&& is_closure_of(
                g.rules@,
                goto_kernel(g.rules@, ks, GrammarSymbol::Token(t)),
                closures[n as int].key_set(),
            )
        }
    // Shift entries: complete.
    &&& forall|t: Token|
        #[trigger] has_next(g.rules@, ks, GrammarSymbol::Token(t)) ==> assoc_has(
            st.shift_actions@,
            t,
        )
    // Goto entries: sound, targets correct.
    &&& forall|j: int|
        0 <= j < st.goto_actions@.len() ==> {
            let (s, n) = #[trigger] st.goto_actions@[j];
            &&& has_next(g.rules@, ks, GrammarSymbol::Symbol(s))
            &&& 0 <= n < closures.len()
            &&& is_closure_of(
                g.rules@,
                goto_kernel(g.rules@, ks, GrammarSymbol::Symbol(s)),
                closures[n as int].key_set(),
            )
        }
    // Goto entries: complete over the nonterminals after a dot.
    &&& forall|s: Symbol|
        #[trigger] has_next(g.rules@, ks, GrammarSymbol::Symbol(s)) ==> assoc_has(
            st.goto_actions@,
            s,
        )
    // Reduce entries: confined to FOLLOW, earliest reducible rule kept.
    &&& forall|j: int|
        0 <= j < st.reduce_actions@.len() ==> {
            let (t, r) = #[trigger] st.reduce_actions@[j];
            &&& reduce_justified(g, ks, t, r as int)
            &&& forall|r2: int| 0 <= r2 < r ==> !reduce_justified(g, ks, t, r2)
        }
    // Reduce entries: complete.
    &&& forall|t: Option<Token>, r: int|
        #[trigger] reduce_justified(g, ks, t, r) ==> assoc_has(st.reduce_actions@, t)
    // A reduce-reduce conflict leaves a diagnostic naming both rules.
    &&& forall|j: int, r2: int|
        #![trigger reduce_justified(g, ks, st.reduce_actions@[j].0, r2)]
        0 <= j < st.reduce_actions@.len() && reduce_justified(
            g,
            ks,
            st.reduce_actions@[j].0,
            r2,
        ) && r2 != st.reduce_actions@[j].1 ==> warnings.contains(
            Warning::ReduceReduce {
                kept: st.reduce_actions@[j].1,
                dropped: r2 as usize,
                state: i as usize,
            },
        )
    // A shift-reduce conflict leaves a diagnostic; the shift entry stands.
    &&& forall|j: int, j2: int|
        0 <= j < st.shift_actions@.len() && 0 <= j2 < st.reduce_actions@.len()
            && (#[trigger] st.reduce_actions@[j2]).0 == Some((#[trigger] st.shift_actions@[j]).0)
            ==> warnings.contains(
            Warning::ShiftReduce {
                rule: st.reduce_actions@[j2].1,
                token: st.shift_actions@[j].0,
                state: i as usize,
            },
        )
    // A marker right after a nonterminal leaves a diagnostic.
    &&& forall|j: int|
        0 <= j < closures[i].keys().len() ==> {
            let k = #[trigger] closures[i].keys()[j];
            marker_at(g, k) matches Some(m) ==> k.1 >= 1 ==> (g.rules@[k.0].tokens@[k.1 - 1]
                matches GrammarSymbol::Symbol(s) ==> warnings.contains(
                Warning::SemanticAfterNonterminal { sem: m, state: i as usize, prev: s },
            ))
        }
    // Two distinct markers on one state leave a diagnostic naming two of
    // them.
    &&& (exists|a: Semantic, b: Semantic|
        a != b && markers_of(g, closures[i].keys()).contains(a) && markers_of(
            g,
            closures[i].keys(),
        ).contains(b)) ==> (exists|a: Semantic, b: Semantic|
        a != b && markers_of(g, closures[i].keys()).contains(a) && markers_of(
            g,
            closures[i].keys(),
        ).contains(b) && warnings.contains(
            Warning::DuplicateStateSem { state: i as usize, first: a, second: b },
        ))
}

/// The automaton: the canonical collection with one `AutomataState` per item
/// set (indexed by state number), and the two semantic dispatch tables.
#[derive(Debug)]
pub struct Automata {
    pub states: Vec<(Closure, AutomataState)>,
    pub state_semantics: Vec<Option<Semantic>>,
    pub reduce_semantics: Vec<Option<Semantic>>,
}

/// The pairs `(index, semantic)` of the filled entries of a dispatch table,
/// in index order.
pub open spec fn sem_pairs(v: Seq<Option<Semantic>>) -> Seq<(usize, Semantic)>
    decreases v.len(),
{
    if v.len() == 0 {
        Seq::empty()
    } else {
        sem_pairs(v.drop_last()) + match v.last() {
            Some(m) => seq![((v.len() - 1) as usize, m)],
            None => Seq::<(usize, Semantic)>::empty(),
        }
    }
}

/// Reduce entries are confined to FOLLOW: every reduce entry of a processed
/// state pairs a lookahead with a rule whose left-hand side's FOLLOW set
/// holds that lookahead.
pub proof fn lemma_reduce_confined_to_follow(
    g: Grammar,
    closures: Seq<Closure>,
    metas: Seq<AutomataState>,
    warnings: Seq<Warning>,
    i: int,
    j: int,
)
    requires
        state_done(g, closures, metas, warnings, i),
        0 <= i < closures.len(),
        0 <= j < metas[i].reduce_actions@.len(),
    ensures
        ({
            let (t, r) = metas[i].reduce_actions@[j];
            0 <= r < g.rules@.len() && g.follows_view()[g.rules@[r as int].symbol.0 as int].contains(t)
        }),
{
    assert(reduce_justified(g, closures[i].key_set(), metas[i].reduce_actions@[j].0, metas[i].reduce_actions@[j].1 as int));
}

/// Shift wins on a shift-reduce conflict: when a token both shifts and
/// reduces in a processed state, the shift entry stands in the emitted
/// table, and a diagnostic naming the reduce rule, the token and the state
/// was recorded.
pub proof fn lemma_shift_wins_with_diagnostic(
    g: Grammar,
    closures: Seq<Closure>,
    metas: Seq<AutomataState>,
    warnings: Seq<Warning>,
    i: int,
    j: int,
    j2: int,
)
    requires
        state_done(g, closures, metas, warnings, i),
        0 <= i < closures.len(),
        0 <= j < metas[i].shift_actions@.len(),
        0 <= j2 < metas[i].reduce_actions@.len(),
        metas[i].reduce_actions@[j2].0 == Some(metas[i].shift_actions@[j].0),
    ensures
        0 <= metas[i].shift_actions@[j].1 < closures.len(),
        warnings.contains(
            Warning::ShiftReduce {
                rule: metas[i].reduce_actions@[j2].1,
                token: metas[i].shift_actions@[j].0,
                state: i as usize,
            },
        ),
{
}

/// Goto totality: a processed state that holds an item with a nonterminal
/// after the dot has a goto entry for that nonterminal.
pub proof fn lemma_goto_total(
    g: Grammar,
    closures: Seq<Closure>,
    metas: Seq<AutomataState>,
    warnings: Seq<Warning>,
    i: int,
    s: Symbol,
)
    requires
        state_done(g, closures, metas, warnings, i),
        0 <= i < closures.len(),
        has_next(g.rules@, closures[i].key_set(), GrammarSymbol::Symbol(s)),
    ensures
        assoc_has(metas[i].goto_actions@, s),
{
}

/// Every shift and goto target of state `k` lies in `s`.
pub open spec fn successors_in(ms: Seq<AutomataState>, k: int, s: Set<int>) -> bool {
    &&& forall|j: int|
        0 <= j < ms[k].shift_actions@.len() ==> s.contains(
            (#[trigger] ms[k].shift_actions@[j]).1 as int,
        )
    &&& forall|j: int|
        0 <= j < ms[k].goto_actions@.len() ==> s.contains(
            (#[trigger] ms[k].goto_actions@[j]).1 as int,
        )
}

/// A diagnostic is justified by the state it names: the conflict or the
/// marker situation it reports really stands in that state's tables and
/// items.
pub open spec fn warning_ok(g: Grammar, cs: Seq<Closure>, w: Warning) -> bool {
    match w {
        Warning::ReduceReduce { kept, dropped, state } => {
            &&& (state as int) < cs.len()
            &&& kept != dropped
            &&& exists|t: Option<Token>|
                #[trigger] reduce_justified(g, cs[state as int].key_set(), t, kept as int)
                    && reduce_justified(g, cs[state as int].key_set(), t, dropped as int)
        },
        Warning::ShiftReduce { rule, token, state } => {
            &&& (state as int) < cs.len()
            &&& reduce_justified(g, cs[state as int].key_set(), Some(token), rule as int)
            &&& has_next(g.rules@, cs[state as int].key_set(), GrammarSymbol::Token(token))
        },
        Warning::SemanticAfterNonterminal { sem, state, prev } => {
            &&& (state as int) < cs.len()
            &&& exists|j: int|
                0 <= j < cs[state as int].keys().len() && marker_at(
                    g,
                    #[trigger] cs[state as int].keys()[j],
                ) == Some(sem) && cs[state as int].keys()[j].1 >= 1
                    && g.rules@[cs[state as int].keys()[j].0].tokens@[cs[state as int].keys()[j].1
                    - 1] == GrammarSymbol::Symbol(prev)
        },
        Warning::DuplicateStateSem { state, first, second } => {
            &&& (state as int) < cs.len()
            &&& first != second
            &&& markers_of(g, cs[state as int].keys()).contains(first)
            &&& markers_of(g, cs[state as int].keys()).contains(second)
        },
        Warning::DuplicateReduceSem { .. } => false,
    }
}

/// The same account, stated against the one state an item scan works on.
pub open spec fn scan_warning_ok(g: Grammar, c: Closure, cur: usize, w: Warning) -> bool {
    match w {
        Warning::ReduceReduce { kept, dropped, state } => {
            &&& state == cur
            &&& kept != dropped
            &&& exists|t: Option<Token>|
                #[trigger] reduce_justified(g, c.key_set(), t, kept as int) && reduce_justified(
                    g,
                    c.key_set(),
                    t,
                    dropped as int,
                )
        },
        Warning::ShiftReduce { .. } => false,
        Warning::SemanticAfterNonterminal { sem, state, prev } => {
            &&& state == cur
            &&& exists|j: int|
                0 <= j < c.keys().len() && marker_at(g, #[trigger] c.keys()[j]) == Some(sem)
                    && c.keys()[j].1 >= 1 && g.rules@[c.keys()[j].0].tokens@[c.keys()[j].1 - 1]
                    == GrammarSymbol::Symbol(prev)
        },
        Warning::DuplicateStateSem { state, first, second } => {
            &&& state == cur
            &&& first != second
            &&& markers_of(g, c.keys()).contains(first)
            &&& markers_of(g, c.keys()).contains(second)
        },
        Warning::DuplicateReduceSem { .. } => false,
    }
}

/// A justified diagnostic stays justified as the collection grows.
pub proof fn lemma_warning_ok_grow(g: Grammar, cs1: Seq<Closure>, cs2: Seq<Closure>, w: Warning)
    requires
        warning_ok(g, cs1, w),
        cs2.len() >= cs1.len(),
        forall|i: int| 0 <= i < cs1.len() ==> (#[trigger] cs2[i]) == cs1[i],
    ensures
        warning_ok(g, cs2, w),
{
    match w {
        Warning::ReduceReduce { kept, dropped, state } => {
            assert(cs2[state as int] == cs1[state as int]);
        },
        Warning::ShiftReduce { rule, token, state } => {
            assert(cs2[state as int] == cs1[state as int]);
        },
        Warning::SemanticAfterNonterminal { sem, state, prev } => {
            assert(cs2[state as int] == cs1[state as int]);
        },
        Warning::DuplicateStateSem { state, first, second } => {
            assert(cs2[state as int] == cs1[state as int]);
        },
        Warning::DuplicateReduceSem { .. } => {},
    }
}

/// The scan account of a diagnostic gives the collection-level account once
/// the scanned state stands at its slot.
pub proof fn lemma_scan_warning_ok(g: Grammar, cs: Seq<Closure>, cur: usize, w: Warning)
    requires
        scan_warning_ok(g, cs[cur as int], cur, w),
        (cur as int) < cs.len(),
    ensures
        warning_ok(g, cs, w),
{
}

/// Some entry of the table targets state `m`.
pub open spec fn covered_by<K>(tab: Seq<(K, usize)>, m: int) -> bool {
    exists|q: int| 0 <= q < tab.len() && (#[trigger] tab[q]).1 == m
}

/// `s` is closed under the automaton's transitions.
pub open spec fn reach_closed(ms: Seq<AutomataState>, s: Set<int>) -> bool {
    forall|k: int| 0 <= k < ms.len() && s.contains(k) ==> #[trigger] successors_in(ms, k, s)
}

/// `s` is closed under the transitions of the states off the worklist.
pub open spec fn done_reach_closed(ms: Seq<AutomataState>, todo: Seq<usize>, s: Set<int>) -> bool {
    forall|k: int|
        0 <= k < ms.len() && !todo.contains(k as usize) && s.contains(k) ==> #[trigger] successors_in(
            ms,
            k,
            s,
        )
}

/// The item sets of the state table, indexed by state number.
pub open spec fn states_closures(states: Seq<(Closure, AutomataState)>) -> Seq<Closure> {
    states.map_values(|p: (Closure, AutomataState)| p.0)
}

/// The action tables of the state table, indexed by state number.
pub open spec fn states_metas(states: Seq<(Closure, AutomataState)>) -> Seq<AutomataState> {
    states.map_values(|p: (Closure, AutomataState)| p.1)
}

impl Automata {
    /// Builds the canonical collection and the SLR(1) tables: breadth-first
    /// worklist exploration from the closure of the start item, with item
    /// sets deduplicated by their canonical ordered views, and the semantic
    /// markers resolved to the two dispatch tables. Diagnostics for every
    /// conflict met on the way are returned beside the automaton.
    #[verifier::loop_isolation(false)]
    #[verifier::rlimit(100)]
    pub fn new(grammar: &Grammar) -> (res: (Automata, Vec<Warning>))
        requires
            grammar.wf(),
        ensures
            res.0.reduce_semantics@.len() == grammar.rules@.len(),
            res.0.state_semantics@.len() == res.0.states@.len(),
            grammar.rules@.len() == 0 ==> res.0.states@.len() == 0 && res.1@.len() == 0,
            grammar.rules@.len() > 0 ==> res.0.states@.len() >= 1 && is_closure_of(
                grammar.rules@,
                Set::<(int, int)>::empty().insert((0int, 0int)),
                res.0.states@[0].0.key_set(),
            ),
            forall|i: int|
                0 <= i < res.0.states@.len() ==> (#[trigger] res.0.states@[i]).1.state == i
                    && res.0.states@[i].0.wf(grammar.rules@),
            forall|i: int, j: int|
                0 <= i < j < res.0.states@.len() ==> (#[trigger] res.0.states@[i]).0.keys() != (
                #[trigger] res.0.states@[j]).0.keys(),
            forall|s: Set<int>|
                s.contains(0) && #[trigger] reach_closed(states_metas(res.0.states@), s) ==> (
                forall|i: int| 0 <= i < res.0.states@.len() ==> s.contains(i)),
            forall|x: Warning|
                res.1@.contains(x) ==> #[trigger] warning_ok(
                    *grammar,
                    states_closures(res.0.states@),
                    x,
                ),
            forall|i: int|
                0 <= i < res.0.states@.len() ==> #[trigger] state_done(
                    *grammar,
                    states_closures(res.0.states@),
                    states_metas(res.0.states@),
                    res.1@,
                    i,
                ),
            forall|i: int|
                0 <= i < res.0.states@.len() ==> res.0.state_semantics@[i] == last_marker(
                    *grammar,
                    (#[trigger] res.0.states@[i]).0.keys(),
                ),
            forall|r: int|
                0 <= r < grammar.rules@.len() ==> #[trigger] res.0.reduce_semantics@[r] == (if (
                exists|k: int|
                    0 <= k < res.0.states@.len() && reducible_in(
                        *grammar,
                        (#[trigger] res.0.states@[k]).0.key_set(),
                        r,
                    )) {
                    grammar.rules@[r].reduce_sem
                } else {
                    None::<Semantic>
                }),
    {
        let ghost g = *grammar;
        let mut warnings: Vec<Warning> = Vec::new();
        let nrules = grammar.rules.len();
        let mut rsems = vec_of_none(nrules);
        if nrules == 0 {
            let a = Automata {
                states: Vec::new(),
                state_semantics: Vec::new(),
                reduce_semantics: rsems,
            };
            return (a, warnings);
        }
        let mut kernel0 = Closure::new();
        let it0 = Item::new(grammar.rules[0].clone(), 0);
        proof {
            assert(it0.wf(g.rules@));
            assert(kernel0.wf(g.rules@));
        }
        let _ = kernel0.add(it0);
        let ghost init_base = Set::<(int, int)>::empty().insert((0int, 0int));
        proof {
            assert(item_key(it0) == (0int, 0int));
            assert(kernel0.key_set() == init_base);
            assert(kernel0.wf(g.rules@));
        }
        let i0 = closure(kernel0, grammar);
        let mut closures_v: Vec<Closure> = Vec::new();
        let mut metas: Vec<AutomataState> = Vec::new();
        let mut sems: Vec<Option<Semantic>> = Vec::new();
        let mut todo: Vec<usize> = Vec::new();
        closures_v.push(i0);
        metas.push(AutomataState::new(0));
        sems.push(None);
        todo.push(0);
        let ghost sbound = vstd::arithmetic::power2::pow2(
            (g.rules@.len() * ((max_rhs_len(g.rules@) + 1) as int)) as nat,
        ) as int;
        proof {
            assert(todo@[0] == 0usize);
            lemma_state_count_bound(closures_v@, g.rules@);
            assert forall|s: Set<int>|
                s.contains(0) && #[trigger] done_reach_closed(metas@, todo@, s) implies (forall|
                i: int,
            | 0 <= i < closures_v@.len() ==> s.contains(i)) by {
                assert(closures_v@.len() == 1);
            }
        }
        while todo.len() > 0
            invariant
                build_inv(g, closures_v@, metas@, sems@, todo@),
                forall|s: Set<int>|
                    s.contains(0) && #[trigger] done_reach_closed(metas@, todo@, s) ==> (forall|
                        i: int,
                    | 0 <= i < closures_v@.len() ==> s.contains(i)),
                forall|x: Warning|
                    warnings@.contains(x) ==> #[trigger] warning_ok(g, closures_v@, x),
                closures_v@.len() >= 1,
                is_closure_of(g.rules@, init_base, closures_v@[0].key_set()),
                rsems@.len() == g.rules@.len(),
                done_inv(g, closures_v@, metas@, sems@, todo@, warnings@),
                rsems_inv(g, closures_v@, todo@, rsems@),
                closures_v@.len() <= sbound,
            decreases sbound - closures_v@.len(), todo@.len(),
        {
            let ghost cs0 = closures_v@;
            let ghost ms_entry = metas@;
            let ghost todo_at_entry = todo@;
            let cur = todo[0];
            proof {
                assert(todo@.contains(cur)) by {
                    assert(todo@[0] == cur);
                }
            }
            let ghost w0 = warnings@;
            let ghost rsems0 = rsems@;
            let len_anchor = closures_v.len();
            let (ra, cur_sem) = reduce_scan(
                grammar,
                &closures_v[cur],
                cur,
                &mut warnings,
                &mut rsems,
            );
            let ghost cl_cur = closures_v@[cur as int];
            let ghost ks_cur = cl_cur.key_set();
            let ghost keys_cur = cl_cur.keys();
            proof {
                lemma_done_mono(g, closures_v@, metas@, sems@, todo@, w0, warnings@);
                assert forall|x: Warning| warnings@.contains(x) implies #[trigger] warning_ok(
                    g,
                    closures_v@,
                    x,
                ) by {
                    if !w0.contains(x) {
                        assert(scan_warning_ok(g, cl_cur, cur, x));
                        lemma_scan_warning_ok(g, closures_v@, cur, x);
                    }
                }
                // Between taking a state up and retiring it, the reduce
                // dispatch account holds with this state already counted.
                assert(rsems_inv(g, closures_v@, todo@.drop_first(), rsems@)) by {
                    let td = todo@.drop_first();
                    assert forall|r: int| 0 <= r < g.rules@.len() implies #[trigger] rsems@[r]
                        == (if (exists|k: int|
                        0 <= k < closures_v@.len() && !td.contains(k as usize) && reducible_in(
                            g,
                            (#[trigger] closures_v@[k]).key_set(),
                            r,
                        )) {
                        g.rules@[r].reduce_sem
                    } else {
                        None::<Semantic>
                    }) by {
                        lemma_drop_first_contains(todo@, cur);
                        if exists|k: int|
                            0 <= k < closures_v@.len() && !todo@.contains(k as usize)
                                && reducible_in(g, (#[trigger] closures_v@[k]).key_set(), r) {
                            let k = choose|k: int|
                                0 <= k < closures_v@.len() && !todo@.contains(k as usize)
                                    && reducible_in(g, (#[trigger] closures_v@[k]).key_set(), r);
                            assert(!td.contains(k as usize));
                            assert(rsems0[r] == g.rules@[r].reduce_sem);
                        } else {
                            assert(rsems0[r] is None);
                            if reducible_in(g, ks_cur, r) {
                                assert(!td.contains(cur));
                                assert(rsems@[r] == g.rules@[r].reduce_sem);
                            } else {
                                if exists|k: int|
                                    0 <= k < closures_v@.len() && !td.contains(k as usize)
                                        && reducible_in(
                                        g,
                                        (#[trigger] closures_v@[k]).key_set(),
                                        r,
                                    ) {
                                    let k = choose|k: int|
                                        0 <= k < closures_v@.len() && !td.contains(k as usize)
                                            && reducible_in(
                                            g,
                                            (#[trigger] closures_v@[k]).key_set(),
                                            r,
                                        );
                                    assert(closures_v@.len() == len_anchor as int);
                                    assert((k as usize) as int == k);
                                    if k != cur as int {
                                        assert((k as usize) != cur);
                                        assert(!todo@.contains(k as usize));
                                    } else {
                                        assert(reducible_in(g, ks_cur, r));
                                    }
                                }
                            }
                        }
                    }
                }
            }
            let ghost sems0 = sems@;
            sems.set(cur, cur_sem);
            proof {
                assert(closures_v@.len() == len_anchor as int);
                assert forall|k: int|
                    0 <= k < closures_v@.len() && !todo@.contains(k as usize) implies
                    #[trigger] state_done(g, closures_v@, metas@, warnings@, k) && sems@[k]
                    == last_marker(g, closures_v@[k].keys()) by {
                    assert((k as usize) as int == k);
                    assert(todo@.contains(cur));
                    assert(k != cur as int);
                    assert(sems@[k] == sems0[k]);
                    assert(state_done(g, closures_v@, metas@, warnings@, k));
                }
            }
            let ghost w1 = warnings@;
            // Gather the nonterminals after a dot, in first-seen order.
            let mut seen_syms: Vec<Symbol> = Vec::new();
            let nitems = closures_v[cur].data.len();
            let mut p: usize = 0;
            while p < nitems
                invariant
                    closures_v@[cur as int] == cl_cur,
                    cur < closures_v@.len(),
                    nitems == cl_cur.data@.len(),
                    p <= nitems,
                    forall|q1: int, q2: int|
                        0 <= q1 < q2 < seen_syms@.len() ==> (#[trigger] seen_syms@[q1]) != (
                        #[trigger] seen_syms@[q2]),
                    forall|q: int|
                        0 <= q < seen_syms@.len() ==> has_next(
                            g.rules@,
                            ks_cur,
                            GrammarSymbol::Symbol(#[trigger] seen_syms@[q]),
                        ),
                    forall|pp: int|
                        0 <= pp < p ==> (match key_next(g, #[trigger] keys_cur[pp]) {
                            Some(GrammarSymbol::Symbol(s)) => seen_syms@.contains(s),
                            _ => true,
                        }),
                decreases nitems - p,
            {
                let it = &closures_v[cur].data[p];
                proof {
                    assert(it.wf(g.rules@));
                    assert(keys_cur[p as int] == item_key(*it));
                    assert(it.rule.tokens@ == g.rules@[it.ruleno as int].tokens@);
                    assert(ks_cur.contains(keys_cur[p as int])) by {
                        assert(cl_cur.keys()[p as int] == keys_cur[p as int]);
                    }
                }
                let nx = it.next_gram_sym();
                proof {
                    assert(key_next(g, keys_cur[p as int]) == nx);
                }
                match nx {
                    Some(GrammarSymbol::Symbol(s)) => {
                        proof {
                            assert(has_next(g.rules@, ks_cur, GrammarSymbol::Symbol(s)));
                        }
                        if !contains_symbol(&seen_syms, s) {
                            let ghost seen0 = seen_syms@;
                            seen_syms.push(s);
                            proof {
                                assert(seen_syms@[seen_syms@.len() - 1] == s);
                                assert forall|x: Symbol| seen0.contains(x) implies
                                    seen_syms@.contains(x) by {
                                    let qx = choose|qx: int|
                                        0 <= qx < seen0.len() && seen0[qx] == x;
                                    assert(seen_syms@[qx] == x);
                                }
                                assert(seen_syms@.contains(s));
                            }
                        }
                    },
                    _ => {},
                }
                proof {
                    assert forall|pp: int| 0 <= pp < p + 1 implies (match key_next(
                        g,
                        #[trigger] keys_cur[pp],
                    ) {
                        Some(GrammarSymbol::Symbol(s)) => seen_syms@.contains(s),
                        _ => true,
                    }) by {}
                }
                p = p + 1;
            }
            // Gather the terminals after a dot, in first-seen order.
            let mut seen_toks: Vec<Token> = Vec::new();
            let mut p2: usize = 0;
            while p2 < nitems
                invariant
                    closures_v@[cur as int] == cl_cur,
                    cur < closures_v@.len(),
                    nitems == cl_cur.data@.len(),
                    p2 <= nitems,
                    forall|q1: int, q2: int|
                        0 <= q1 < q2 < seen_toks@.len() ==> (#[trigger] seen_toks@[q1]) != (
                        #[trigger] seen_toks@[q2]),
                    forall|q: int|
                        0 <= q < seen_toks@.len() ==> has_next(
                            g.rules@,
                            ks_cur,
                            GrammarSymbol::Token(#[trigger] seen_toks@[q]),
                        ),
                    forall|pp: int|
                        0 <= pp < p2 ==> (match key_next(g, #[trigger] keys_cur[pp]) {
                            Some(GrammarSymbol::Token(t)) => seen_toks@.contains(t),
                            _ => true,
                        }),
                decreases nitems - p2,
            {
                let it = &closures_v[cur].data[p2];
                proof {
                    assert(it.wf(g.rules@));
                    assert(keys_cur[p2 as int] == item_key(*it));
                    assert(it.rule.tokens@ == g.rules@[it.ruleno as int].tokens@);
                    assert(ks_cur.contains(keys_cur[p2 as int])) by {
                        assert(cl_cur.keys()[p2 as int] == keys_cur[p2 as int]);
                    }
                }
                let nx = it.next_gram_sym();
                proof {
                    assert(key_next(g, keys_cur[p2 as int]) == nx);
                }
                match nx {
                    Some(GrammarSymbol::Token(t)) => {
                        proof {
                            assert(has_next(g.rules@, ks_cur, GrammarSymbol::Token(t)));
                        }
                        if !contains_token(&seen_toks, t) {
                            let ghost seen0 = seen_toks@;
                            seen_toks.push(t);
                            proof {
                                assert(seen_toks@[seen_toks@.len() - 1] == t);
                                assert forall|x: Token| seen0.contains(x) implies
                                    seen_toks@.contains(x) by {
                                    let qx = choose|qx: int|
                                        0 <= qx < seen0.len() && seen0[qx] == x;
                                    assert(seen_toks@[qx] == x);
                                }
                                assert(seen_toks@.contains(t));
                            }
                        }
                    },
                    _ => {},
                }
                proof {
                    assert forall|pp: int| 0 <= pp < p2 + 1 implies (match key_next(
                        g,
                        #[trigger] keys_cur[pp],
                    ) {
                        Some(GrammarSymbol::Token(t)) => seen_toks@.contains(t),
                        _ => true,
                    }) by {}
                }
                p2 = p2 + 1;
            }
            // Goto transitions: one per gathered nonterminal.
            let mut goto_local: Vec<(Symbol, usize)> = Vec::new();
            let mut q: usize = 0;
            while q < seen_syms.len()
                invariant
                    build_inv(g, closures_v@, metas@, sems@, todo@),
                    done_inv(g, closures_v@, metas@, sems@, todo@, warnings@),
                    rsems_inv(g, closures_v@, todo@.drop_first(), rsems@),
                    rsems@.len() == g.rules@.len(),
                    closures_v@.len() >= 1,
                    is_closure_of(g.rules@, init_base, closures_v@[0].key_set()),
                    closures_v@.len() >= cs0.len(),
                    forall|i: int| 0 <= i < cs0.len() ==> (#[trigger] closures_v@[i]) == cs0[i],
                    todo@.len() >= 1,
                    todo@[0] == cur,
                    todo@.len() - closures_v@.len() == todo_at_entry.len() - cs0.len(),
                    forall|i: int| 0 <= i < cs0.len() ==> (#[trigger] metas@[i]) == ms_entry[i],
                    forall|q3: int|
                        0 <= q3 < todo_at_entry.len() ==> (#[trigger] todo@[q3])
                            == todo_at_entry[q3],
                    forall|q3: int|
                        todo_at_entry.len() <= q3 < todo@.len() ==> (#[trigger] todo@[q3])
                            >= cs0.len(),
                    forall|m: int|
                        cs0.len() <= m < closures_v@.len() ==> #[trigger] covered_by(
                            goto_local@,
                            m,
                        ),
                    cur < closures_v@.len(),
                    closures_v@[cur as int] == cl_cur,
                    forall|x: Warning| w1.contains(x) ==> warnings@.contains(x),
                    forall|x: Warning|
                        warnings@.contains(x) ==> #[trigger] warning_ok(g, closures_v@, x),
                    sems@[cur as int] == cur_sem,
                    q <= seen_syms@.len(),
                    goto_local@.len() == q,
                    forall|qq: int|
                        0 <= qq < q ==> (#[trigger] goto_local@[qq]).0 == seen_syms@[qq],
                    forall|qq: int|
                        0 <= qq < q ==> {
                            let (s, n) = #[trigger] goto_local@[qq];
                            &&& 0 <= n < closures_v@.len()
                            &&& is_closure_of(
                                g.rules@,
                                goto_kernel(g.rules@, ks_cur, GrammarSymbol::Symbol(s)),
                                closures_v@[n as int].key_set(),
                            )
                        },
                decreases seen_syms@.len() - q,
            {
                let s = seen_syms[q];
                let kern = build_kernel(grammar, &closures_v[cur], GrammarSymbol::Symbol(s));
                let cnew = closure(kern, grammar);
                let ghost cs_pre = closures_v@;
                let ghost ms_pre = metas@;
                let ghost sems_pre = sems@;
                let ghost todo_pre = todo@;
                let n = lookup_or_add(
                    grammar,
                    &mut closures_v,
                    &mut metas,
                    &mut sems,
                    &mut todo,
                    cnew,
                );
                proof {
                    if n == cs_pre.len() {
                        assert(metas@ =~= ms_pre.push(metas@[n as int]));
                        lemma_done_after_push(
                            g,
                            cs_pre,
                            ms_pre,
                            sems_pre,
                            todo_pre,
                            warnings@,
                            cnew,
                            metas@[n as int],
                            None,
                        );
                        lemma_rsems_after_push(g, cs_pre, todo_pre.drop_first(), rsems@, cnew);
                        assert(todo@.drop_first() =~= todo_pre.drop_first().push(n));
                    }
                    assert(closures_v@[n as int].key_set() == cnew.key_set()) by {
                        assert(closures_v@[n as int].keys() == cnew.keys());
                    }
                    assert forall|x: Warning| warnings@.contains(x) implies #[trigger] warning_ok(
                        g,
                        closures_v@,
                        x,
                    ) by {
                        assert(warning_ok(g, cs_pre, x));
                        lemma_warning_ok_grow(g, cs_pre, closures_v@, x);
                    }
                    assert(is_closure_of(
                        g.rules@,
                        goto_kernel(g.rules@, ks_cur, GrammarSymbol::Symbol(s)),
                        closures_v@[n as int].key_set(),
                    ));
                    assert forall|qq: int| 0 <= qq < q implies {
                        let (s2, n2) = #[trigger] goto_local@[qq];
                        &&& 0 <= n2 < closures_v@.len()
                        &&& is_closure_of(
                            g.rules@,
                            goto_kernel(g.rules@, ks_cur, GrammarSymbol::Symbol(s2)),
                            closures_v@[n2 as int].key_set(),
                        )
                    } by {
                        let (s2, n2) = goto_local@[qq];
                        assert(closures_v@[n2 as int] == cs_pre[n2 as int]);
                    }
                }
                let ghost gl_pre = goto_local@;
                goto_local.push((s, n));
                proof {
                    assert(goto_local@[goto_local@.len() - 1] == (s, n));
                    assert forall|m: int| cs0.len() <= m < closures_v@.len() implies
                        #[trigger] covered_by(goto_local@, m) by {
                        if m < cs_pre.len() {
                            assert(covered_by(gl_pre, m));
                            let q3 = choose|q3: int|
                                0 <= q3 < gl_pre.len() && (#[trigger] gl_pre[q3]).1 == m;
                            assert((goto_local@[q3]).1 == m);
                        } else {
                            assert(m == n as int);
                            assert((goto_local@[goto_local@.len() - 1]).1 == m);
                        }
                    }
                }
                q = q + 1;
            }
            // Shift transitions: one per gathered terminal, with a
            // diagnostic wherever the token also reduces.
            let mut shift_local: Vec<(Token, usize)> = Vec::new();
            let mut q2: usize = 0;
            while q2 < seen_toks.len()
                invariant
                    build_inv(g, closures_v@, metas@, sems@, todo@),
                    done_inv(g, closures_v@, metas@, sems@, todo@, warnings@),
                    rsems_inv(g, closures_v@, todo@.drop_first(), rsems@),
                    rsems@.len() == g.rules@.len(),
                    closures_v@.len() >= 1,
                    is_closure_of(g.rules@, init_base, closures_v@[0].key_set()),
                    closures_v@.len() >= cs0.len(),
                    forall|i: int| 0 <= i < cs0.len() ==> (#[trigger] closures_v@[i]) == cs0[i],
                    todo@.len() >= 1,
                    todo@[0] == cur,
                    todo@.len() - closures_v@.len() == todo_at_entry.len() - cs0.len(),
                    forall|i: int| 0 <= i < cs0.len() ==> (#[trigger] metas@[i]) == ms_entry[i],
                    forall|q3: int|
                        0 <= q3 < todo_at_entry.len() ==> (#[trigger] todo@[q3])
                            == todo_at_entry[q3],
                    forall|q3: int|
                        todo_at_entry.len() <= q3 < todo@.len() ==> (#[trigger] todo@[q3])
                            >= cs0.len(),
                    forall|m: int|
                        cs0.len() <= m < closures_v@.len() ==> #[trigger] covered_by(
                            goto_local@,
                            m,
                        ) || covered_by(shift_local@, m),
                    cur < closures_v@.len(),
                    closures_v@[cur as int] == cl_cur,
                    forall|x: Warning| w1.contains(x) ==> warnings@.contains(x),
                    forall|x: Warning|
                        warnings@.contains(x) ==> #[trigger] warning_ok(g, closures_v@, x),
                    sems@[cur as int] == cur_sem,
                    q2 <= seen_toks@.len(),
                    shift_local@.len() == q2,
                    forall|qq: int|
                        0 <= qq < q2 ==> (#[trigger] shift_local@[qq]).0 == seen_toks@[qq],
                    forall|qq: int|
                        0 <= qq < q2 ==> {
                            let (t, n) = #[trigger] shift_local@[qq];
                            &&& 0 <= n < closures_v@.len()
                            &&& is_closure_of(
                                g.rules@,
                                goto_kernel(g.rules@, ks_cur, GrammarSymbol::Token(t)),
                                closures_v@[n as int].key_set(),
                            )
                        },
                    forall|qq: int, j2: int|
                        0 <= qq < q2 && 0 <= j2 < ra@.len() && (#[trigger] ra@[j2]).0 == Some(
                            (#[trigger] shift_local@[qq]).0,
                        ) ==> warnings@.contains(
                            (Warning::ShiftReduce {
                                rule: ra@[j2].1,
                                token: shift_local@[qq].0,
                                state: cur,
                            }),
                        ),
                    forall|qq: int|
                        0 <= qq < goto_local@.len() ==> (#[trigger] goto_local@[qq]).0
                            == seen_syms@[qq],
                    forall|qq: int|
                        0 <= qq < goto_local@.len() ==> {
                            let (s, n) = #[trigger] goto_local@[qq];
                            &&& 0 <= n < closures_v@.len()
                            &&& is_closure_of(
                                g.rules@,
                                goto_kernel(g.rules@, ks_cur, GrammarSymbol::Symbol(s)),
                                closures_v@[n as int].key_set(),
                            )
                        },
                decreases seen_toks@.len() - q2,
            {
                let t = seen_toks[q2];
                let ghost wpre = warnings@;
                match find_assoc_opt(&ra, Some(t)) {
                    Some(idx) => {
                        let rule = ra[idx].1;
                        proof {
                            // The reduce entry and the pending shift under
                            // `t` both stand in this state: the diagnostic
                            // is justified.
                            assert(reduce_justified(g, ks_cur, Some(t), rule as int));
                            assert(seen_toks@.contains(t)) by {
                                assert(seen_toks@[q2 as int] == t);
                            }
                            assert(has_next(g.rules@, ks_cur, GrammarSymbol::Token(t)));
                            assert(warning_ok(
                                g,
                                closures_v@,
                                (Warning::ShiftReduce { rule, token: t, state: cur }),
                            ));
                        }
                        push_warning(
                            &mut warnings,
                            Warning::ShiftReduce { rule, token: t, state: cur },
                        );
                        proof {
                            lemma_done_mono(g, closures_v@, metas@, sems@, todo@, wpre, warnings@);
                            assert forall|x: Warning| warnings@.contains(x) implies
                                #[trigger] warning_ok(g, closures_v@, x) by {
                                let q3 = choose|q3: int|
                                    0 <= q3 < warnings@.len() && warnings@[q3] == x;
                                if q3 < wpre.len() {
                                    assert(wpre[q3] == x);
                                    assert(wpre.contains(x));
                                }
                            }
                            assert forall|j2: int|
                                0 <= j2 < ra@.len() && (#[trigger] ra@[j2]).0 == Some(t) implies
                                warnings@.contains(
                                (Warning::ShiftReduce { rule: ra@[j2].1, token: t, state: cur }),
                            ) by {
                                if j2 != idx as int {
                                    assert(ra@[j2].0 == ra@[idx as int].0);
                                }
                            }
                        }
                    },
                    None => {},
                }
                let kern = build_kernel(grammar, &closures_v[cur], GrammarSymbol::Token(t));
                let cnew = closure(kern, grammar);
                let ghost cs_pre = closures_v@;
                let ghost ms_pre = metas@;
                let ghost sems_pre = sems@;
                let ghost todo_pre = todo@;
                let n = lookup_or_add(
                    grammar,
                    &mut closures_v,
                    &mut metas,
                    &mut sems,
                    &mut todo,
                    cnew,
                );
                proof {
                    if n == cs_pre.len() {
                        assert(metas@ =~= ms_pre.push(metas@[n as int]));
                        lemma_done_after_push(
                            g,
                            cs_pre,
                            ms_pre,
                            sems_pre,
                            todo_pre,
                            warnings@,
                            cnew,
                            metas@[n as int],
                            None,
                        );
                        lemma_rsems_after_push(g, cs_pre, todo_pre.drop_first(), rsems@, cnew);
                        assert(todo@.drop_first() =~= todo_pre.drop_first().push(n));
                    }
                    assert(closures_v@[n as int].key_set() == cnew.key_set()) by {
                        assert(closures_v@[n as int].keys() == cnew.keys());
                    }
                    assert forall|x: Warning| warnings@.contains(x) implies #[trigger] warning_ok(
                        g,
                        closures_v@,
                        x,
                    ) by {
                        assert(warning_ok(g, cs_pre, x));
                        lemma_warning_ok_grow(g, cs_pre, closures_v@, x);
                    }
                    assert forall|qq: int| 0 <= qq < q2 implies {
                        let (t2, n2) = #[trigger] shift_local@[qq];
                        &&& 0 <= n2 < closures_v@.len()
                        &&& is_closure_of(
                            g.rules@,
                            goto_kernel(g.rules@, ks_cur, GrammarSymbol::Token(t2)),
                            closures_v@[n2 as int].key_set(),
                        )
                    } by {
                        let (t2, n2) = shift_local@[qq];
                        assert(closures_v@[n2 as int] == cs_pre[n2 as int]);
                    }
                    assert forall|qq: int| 0 <= qq < goto_local@.len() implies {
                        let (s2, n2) = #[trigger] goto_local@[qq];
                        &&& 0 <= n2 < closures_v@.len()
                        &&& is_closure_of(
                            g.rules@,
                            goto_kernel(g.rules@, ks_cur, GrammarSymbol::Symbol(s2)),
                            closures_v@[n2 as int].key_set(),
                        )
                    } by {
                        let (s2, n2) = goto_local@[qq];
                        assert(closures_v@[n2 as int] == cs_pre[n2 as int]);
                    }
                }
                let ghost sl_pre = shift_local@;
                shift_local.push((t, n));
                proof {
                    assert(shift_local@[shift_local@.len() - 1] == (t, n));
                    assert forall|m: int| cs0.len() <= m < closures_v@.len() implies
                        #[trigger] covered_by(goto_local@, m) || covered_by(shift_local@, m) by {
                        if m < cs_pre.len() {
                            if !covered_by(goto_local@, m) {
                                assert(covered_by(sl_pre, m));
                                let q3 = choose|q3: int|
                                    0 <= q3 < sl_pre.len() && (#[trigger] sl_pre[q3]).1 == m;
                                assert((shift_local@[q3]).1 == m);
                            }
                        } else {
                            assert(m == n as int);
                            assert((shift_local@[shift_local@.len() - 1]).1 == m);
                        }
                    }
                }
                q2 = q2 + 1;
            }
            // Retire the state: install its tables and take it off the
            // worklist.
            let ghost gl = goto_local@;
            let ghost sl = shift_local@;
            let meta = AutomataState {
                state: cur,
                shift_actions: shift_local,
                reduce_actions: ra,
                goto_actions: goto_local,
            };
            proof {
                assert(meta.goto_actions@ == gl);
                assert(meta.shift_actions@ == sl);
            }
            let ghost ms_pre = metas@;
            let len_anchor2 = closures_v.len();
            metas.set(cur, meta);
            let ghost todo_pre = todo@;
            let _ = todo.remove(0);
            proof {
                assert(todo@ =~= todo_pre.drop_first());
                lemma_drop_first_contains(todo_pre, cur);
                assert(!todo@.contains(cur));
                // The retired state satisfies the full account.
                assert(state_done(g, closures_v@, metas@, warnings@, cur as int)) by {
                    let st = metas@[cur as int];
                    assert(st == meta);
                    let ks = closures_v@[cur as int].key_set();
                    assert(ks == ks_cur);
                    // The reduce table and the scan diagnostics carry over;
                    // diagnostics were only appended since the scan.
                    assert forall|j2: int, r2: int|
                        #![trigger reduce_justified(g, ks, st.reduce_actions@[j2].0, r2)]
                        0 <= j2 < st.reduce_actions@.len() && reduce_justified(
                            g,
                            ks,
                            st.reduce_actions@[j2].0,
                            r2,
                        ) && r2 != st.reduce_actions@[j2].1 implies warnings@.contains(
                        (Warning::ReduceReduce {
                            kept: st.reduce_actions@[j2].1,
                            dropped: r2 as usize,
                            state: cur,
                        }),
                    ) by {
                        assert(st.reduce_actions@ == ra@);
                        assert(reduce_justified(g, cl_cur.key_set(), ra@[j2].0, r2));
                        assert(w1.contains(
                            (Warning::ReduceReduce {
                                kept: ra@[j2].1,
                                dropped: r2 as usize,
                                state: cur,
                            }),
                        ));
                    }
                    assert forall|j2: int| 0 <= j2 < cl_cur.keys().len() implies {
                        let k = #[trigger] cl_cur.keys()[j2];
                        marker_at(g, k) matches Some(m) ==> k.1 >= 1 ==> (
                        g.rules@[k.0].tokens@[k.1 - 1] matches GrammarSymbol::Symbol(s)
                            ==> warnings@.contains(
                            (Warning::SemanticAfterNonterminal { sem: m, state: cur, prev: s }),
                        ))
                    } by {
                        let k = cl_cur.keys()[j2];
                        match marker_at(g, k) {
                            Some(m) => {
                                if k.1 >= 1 {
                                    match g.rules@[k.0].tokens@[k.1 - 1] {
                                        GrammarSymbol::Symbol(s) => {
                                            assert(w1.contains(
                                                (Warning::SemanticAfterNonterminal {
                                                    sem: m,
                                                    state: cur,
                                                    prev: s,
                                                }),
                                            ));
                                        },
                                        _ => {},
                                    }
                                }
                            },
                            None => {},
                        }
                    }
                    if exists|a: Semantic, b: Semantic|
                        a != b && markers_of(g, cl_cur.keys()).contains(a) && markers_of(
                            g,
                            cl_cur.keys(),
                        ).contains(b) {
                        let (a, b) = choose|a: Semantic, b: Semantic|
                            a != b && markers_of(g, cl_cur.keys()).contains(a) && markers_of(
                                g,
                                cl_cur.keys(),
                            ).contains(b) && w1.contains(
                                (Warning::DuplicateStateSem { state: cur, first: a, second: b }),
                            );
                        assert(warnings@.contains(
                            (Warning::DuplicateStateSem { state: cur, first: a, second: b }),
                        ));
                    }
                    assert forall|tk: Token|
                        #[trigger] has_next(g.rules@, ks, GrammarSymbol::Token(tk)) implies
                        assoc_has(st.shift_actions@, tk) by {
                        let k = choose|k: (int, int)|
                            #[trigger] ks.contains(k) && 0 <= k.0 < g.rules@.len() && 0 <= k.1
                                < g.rules@[k.0].tokens@.len() && g.rules@[k.0].tokens@[k.1]
                                == GrammarSymbol::Token(tk);
                        let pp = choose|pp: int|
                            0 <= pp < keys_cur.len() && keys_cur[pp] == k;
                        assert(key_next(g, keys_cur[pp]) == Some(GrammarSymbol::Token(tk)));
                        assert(seen_toks@.contains(tk));
                        let qq = choose|qq: int|
                            0 <= qq < seen_toks@.len() && seen_toks@[qq] == tk;
                        assert(st.shift_actions@[qq].0 == tk);
                    }
                    assert forall|sy: Symbol|
                        #[trigger] has_next(g.rules@, ks, GrammarSymbol::Symbol(sy)) implies
                        assoc_has(st.goto_actions@, sy) by {
                        let k = choose|k: (int, int)|
                            #[trigger] ks.contains(k) && 0 <= k.0 < g.rules@.len() && 0 <= k.1
                                < g.rules@[k.0].tokens@.len() && g.rules@[k.0].tokens@[k.1]
                                == GrammarSymbol::Symbol(sy);
                        let pp = choose|pp: int|
                            0 <= pp < keys_cur.len() && keys_cur[pp] == k;
                        assert(key_next(g, keys_cur[pp]) == Some(GrammarSymbol::Symbol(sy)));
                        assert(seen_syms@.contains(sy));
                        let qq = choose|qq: int|
                            0 <= qq < seen_syms@.len() && seen_syms@[qq] == sy;
                        assert(st.goto_actions@[qq].0 == sy);
                    }
                    assert forall|jj: int| 0 <= jj < st.shift_actions@.len() implies {
                        let (t, n) = #[trigger] st.shift_actions@[jj];
                        &&& has_next(g.rules@, ks, GrammarSymbol::Token(t))
                        &&& 0 <= n < closures_v@.len()
                        &&& is_closure_of(
                            g.rules@,
                            goto_kernel(g.rules@, ks, GrammarSymbol::Token(t)),
                            closures_v@[n as int].key_set(),
                        )
                    } by {
                        assert(st.shift_actions@[jj].0 == seen_toks@[jj]);
                    }
                    assert forall|jj: int| 0 <= jj < st.goto_actions@.len() implies {
                        let (s, n) = #[trigger] st.goto_actions@[jj];
                        &&& has_next(g.rules@, ks, GrammarSymbol::Symbol(s))
                        &&& 0 <= n < closures_v@.len()
                        &&& is_closure_of(
                            g.rules@,
                            goto_kernel(g.rules@, ks, GrammarSymbol::Symbol(s)),
                            closures_v@[n as int].key_set(),
                        )
                    } by {
                        assert(st.goto_actions@[jj].0 == seen_syms@[jj]);
                    }
                }
                // Everyone else keeps their account.
                assert forall|k: int|
                    0 <= k < closures_v@.len() && !todo@.contains(k as usize) implies
                    #[trigger] state_done(g, closures_v@, metas@, warnings@, k) && sems@[k]
                    == last_marker(g, closures_v@[k].keys()) by {
                    if k == cur as int {
                        assert(sems@[k] == cur_sem);
                    } else {
                        assert(closures_v@.len() <= usize::MAX) by {
                            assert(closures_v@.len() == len_anchor2 as int);
                        }
                        assert((k as usize) as int == k);
                        assert((k as usize) != cur);
                        assert(todo_pre.contains(k as usize) == todo@.contains(k as usize));
                        assert(state_done(g, closures_v@, ms_pre, warnings@, k));
                        lemma_state_done_stable(
                            g,
                            closures_v@,
                            ms_pre,
                            warnings@,
                            closures_v@,
                            metas@,
                            warnings@,
                            k,
                        );
                    }
                }
                // The worklist step keeps the measure sound.
                lemma_state_count_bound(closures_v@, g.rules@);
                // Any transition-closed set over the retired states that
                // holds state 0 holds every collected state: the states
                // registered this round are the retired state's successors.
                assert forall|s: Set<int>|
                    s.contains(0) && #[trigger] done_reach_closed(metas@, todo@, s) implies (
                forall|i2: int| 0 <= i2 < closures_v@.len() ==> s.contains(i2)) by {
                    assert(done_reach_closed(ms_entry, todo_at_entry, s)) by {
                        assert forall|kk: int|
                            0 <= kk < ms_entry.len() && !todo_at_entry.contains(kk as usize)
                                && s.contains(kk) implies #[trigger] successors_in(
                            ms_entry,
                            kk,
                            s,
                        ) by {
                            assert(closures_v@.len() <= usize::MAX) by {
                                assert(closures_v@.len() == len_anchor2 as int);
                            }
                            assert((kk as usize) as int == kk);
                            assert(todo_at_entry.contains(cur)) by {
                                assert(todo_at_entry[0] == cur);
                            }
                            assert(kk != cur as int);
                            assert(metas@[kk] == ms_entry[kk]);
                            assert(!todo@.contains(kk as usize)) by {
                                if todo@.contains(kk as usize) {
                                    let q3 = choose|q3: int|
                                        0 <= q3 < todo@.len() && todo@[q3] == kk as usize;
                                    assert(todo_pre[q3 + 1] == kk as usize);
                                    if q3 + 1 < todo_at_entry.len() {
                                        assert(todo_at_entry[q3 + 1] == kk as usize);
                                    } else {
                                        assert(todo_pre[q3 + 1] >= cs0.len());
                                    }
                                }
                            }
                            assert(successors_in(metas@, kk, s));
                        }
                    }
                    assert(forall|i2: int| 0 <= i2 < cs0.len() ==> s.contains(i2));
                    assert(s.contains(cur as int));
                    assert(successors_in(metas@, cur as int, s));
                    assert forall|m: int| cs0.len() <= m < closures_v@.len() implies s.contains(
                        m,
                    ) by {
                        assert(metas@[cur as int].goto_actions@ == gl);
                        assert(metas@[cur as int].shift_actions@ == sl);
                        assert(covered_by(gl, m) || covered_by(sl, m));
                        if covered_by(gl, m) {
                            let q3 = choose|q3: int|
                                0 <= q3 < gl.len() && (#[trigger] gl[q3]).1 == m;
                            assert(s.contains((metas@[cur as int].goto_actions@[q3]).1 as int));
                        } else {
                            let q3 = choose|q3: int|
                                0 <= q3 < sl.len() && (#[trigger] sl[q3]).1 == m;
                            assert(s.contains((metas@[cur as int].shift_actions@[q3]).1 as int));
                        }
                    }
                }
            }
        }
        // With the worklist empty, every state is processed; assemble the
        // final table.
        let ghost cs_fin = closures_v@;
        let ghost ms_fin = metas@;
        let n_states = closures_v.len();
        let mut tmp: Vec<(Closure, AutomataState)> = Vec::new();
        while closures_v.len() > 0
            invariant
                metas@.len() == closures_v@.len(),
                closures_v@ == cs_fin.take(closures_v@.len() as int),
                metas@ == ms_fin.take(closures_v@.len() as int),
                tmp@.len() + closures_v@.len() == cs_fin.len(),
                forall|i: int|
                    0 <= i < tmp@.len() ==> (#[trigger] tmp@[i]) == (
                    cs_fin[cs_fin.len() - 1 - i],
                    ms_fin[cs_fin.len() - 1 - i],
                ),
            decreases closures_v@.len(),
        {
            let ghost lpre = closures_v@.len() as int;
            let c = closures_v.pop().unwrap();
            let m = metas.pop().unwrap();
            proof {
                assert(c == cs_fin.take(lpre)[lpre - 1]);
                assert(m == ms_fin.take(lpre)[lpre - 1]);
                assert(closures_v@ =~= cs_fin.take(lpre - 1));
                assert(metas@ =~= ms_fin.take(lpre - 1));
            }
            tmp.push((c, m));
        }
        let mut states: Vec<(Closure, AutomataState)> = Vec::new();
        while tmp.len() > 0
            invariant
                states@.len() + tmp@.len() == cs_fin.len(),
                forall|i: int|
                    0 <= i < tmp@.len() ==> (#[trigger] tmp@[i]) == (
                    cs_fin[cs_fin.len() - 1 - i],
                    ms_fin[cs_fin.len() - 1 - i],
                ),
                forall|i: int|
                    0 <= i < states@.len() ==> (#[trigger] states@[i]) == (cs_fin[i], ms_fin[i]),
            decreases tmp@.len(),
        {
            let pr = tmp.pop().unwrap();
            proof {
                assert(pr == (cs_fin[states@.len() as int], ms_fin[states@.len() as int]));
            }
            states.push(pr);
        }
        proof {
            assert(states_closures(states@) =~= cs_fin) by {
                assert forall|i: int| 0 <= i < states@.len() implies states_closures(states@)[i]
                    == cs_fin[i] by {
                    assert(states@[i].0 == cs_fin[i]);
                }
            }
            assert(states_metas(states@) =~= ms_fin) by {
                assert forall|i: int| 0 <= i < states@.len() implies states_metas(states@)[i]
                    == ms_fin[i] by {
                    assert(states@[i].1 == ms_fin[i]);
                }
            }
            assert(todo@.len() == 0);
            assert(cs_fin.len() == n_states as int);
            assert(states@.len() == cs_fin.len());
            assert forall|x: Warning| warnings@.contains(x) implies #[trigger] warning_ok(
                g,
                states_closures(states@),
                x,
            ) by {
                assert(warning_ok(g, cs_fin, x));
            }
            assert forall|s: Set<int>|
                s.contains(0) && #[trigger] reach_closed(states_metas(states@), s) implies (
            forall|i: int| 0 <= i < states@.len() ==> s.contains(i)) by {
                assert(states_metas(states@) == ms_fin);
                assert(done_reach_closed(ms_fin, todo@, s)) by {
                    assert forall|k: int|
                        0 <= k < ms_fin.len() && !todo@.contains(k as usize) && s.contains(k)
                            implies #[trigger] successors_in(ms_fin, k, s) by {
                        assert(reach_closed(ms_fin, s));
                    }
                }
            }
            assert forall|i: int| 0 <= i < states@.len() implies #[trigger] state_done(
                g,
                states_closures(states@),
                states_metas(states@),
                warnings@,
                i,
            ) by {
                assert(!todo@.contains(i as usize));
                assert(state_done(g, cs_fin, ms_fin, warnings@, i));
            }
            assert forall|i: int| 0 <= i < states@.len() implies sems@[i] == last_marker(
                g,
                (#[trigger] states@[i]).0.keys(),
            ) by {
                assert(!todo@.contains(i as usize));
                assert(state_done(g, cs_fin, ms_fin, warnings@, i));
                assert(sems@[i] == last_marker(g, cs_fin[i].keys()));
                assert(states@[i].0 == cs_fin[i]);
            }
            assert forall|r: int| 0 <= r < g.rules@.len() implies #[trigger] rsems@[r] == (if (
            exists|k: int|
                0 <= k < states@.len() && reducible_in(
                    g,
                    (#[trigger] states@[k]).0.key_set(),
                    r,
                )) {
                g.rules@[r].reduce_sem
            } else {
                None::<Semantic>
            }) by {
                if exists|k: int|
                    0 <= k < states@.len() && reducible_in(
                        g,
                        (#[trigger] states@[k]).0.key_set(),
                        r,
                    ) {
                    let k = choose|k: int|
                        0 <= k < states@.len() && reducible_in(
                            g,
                            (#[trigger] states@[k]).0.key_set(),
                            r,
                        );
                    assert(states@[k].0 == cs_fin[k]);
                    assert(!todo@.contains(k as usize));
                    assert(reducible_in(g, cs_fin[k].key_set(), r));
                } else {
                    if exists|k: int|
                        0 <= k < cs_fin.len() && !todo@.contains(k as usize)
                            && reducible_in(g, (#[trigger] cs_fin[k]).key_set(), r) {
                        let k = choose|k: int|
                            0 <= k < cs_fin.len() && !todo@.contains(k as usize)
                                && reducible_in(g, (#[trigger] cs_fin[k]).key_set(), r);
                        assert(states@[k].0 == cs_fin[k]);
                        assert(reducible_in(g, states@[k].0.key_set(), r));
                    }
                }
            }
        }
        let a = Automata { states, state_semantics: sems, reduce_semantics: rsems };
        (a, warnings)
    }

    /// All states with their item sets, indexed by state number.
    pub fn iter_all(&self) -> (r: &Vec<(Closure, AutomataState)>)
        ensures
            r == &self.states,
    {
        &self.states
    }

    /// The state table of the given state number.
    pub fn iter(&self, state: usize) -> (r: &AutomataState)
        requires
            state < self.states@.len(),
        ensures
            r == &self.states@[state as int].1,
    {
        &self.states[state].1
    }

    /// The `(state, semantic)` pairs of the state dispatch table, in state
    /// order.
    pub fn iter_state_sem(&self) -> (r: Vec<(usize, Semantic)>)
        ensures
            r@ == sem_pairs(self.state_semantics@),
    {
        sem_pairs_exec(&self.state_semantics)
    }

    /// The `(rule, semantic)` pairs of the reduce dispatch table, in rule
    /// order.
    pub fn iter_reduce_sem(&self) -> (r: Vec<(usize, Semantic)>)
        ensures
            r@ == sem_pairs(self.reduce_semantics@),
    {
        sem_pairs_exec(&self.reduce_semantics)
    }
}

/// Collects the filled entries of a dispatch table with their indices.
fn sem_pairs_exec(v: &Vec<Option<Semantic>>) -> (r: Vec<(usize, Semantic)>)
    ensures
        r@ == sem_pairs(v@),
{
    let mut r: Vec<(usize, Semantic)> = Vec::new();
    let mut i: usize = 0;
    while i < v.len()
        invariant
            i <= v@.len(),
            r@ == sem_pairs(v@.take(i as int)),
        decreases v@.len() - i,
    {
        let ghost pre = v@.take(i as int);
        match v[i] {
            Some(m) => {
                r.push((i, m));
            },
            None => {},
        }
        proof {
            assert(v@.take(i + 1).drop_last() =~= pre);
            assert(v@.take(i + 1).last() == v@[i as int]);
        }
        i = i + 1;
    }
    proof {
        assert(v@.take(v@.len() as int) =~= v@);
    }
    r
}

/// Finds the position of a token key in a shift table.
fn find_assoc_token(v: &Vec<(Token, usize)>, t: Token) -> (r: Option<usize>)
    ensures
        match r {
            Some(j) => j < v@.len() && v@[j as int].0 == t,
            None => !assoc_has(v@, t),
        },
{
    let mut i: usize = 0;
    while i < v.len()
        invariant
            i <= v@.len(),
            forall|j: int| 0 <= j < i ==> (#[trigger] v@[j]).0 != t,
        decreases v@.len() - i,
    {
        if v[i].0.0 == t.0 {
            return Some(i);
        }
        i = i + 1;
    }
    None
}

/// Finds the position of a lookahead key in a reduce table.
fn find_assoc_opt(v: &Vec<(Option<Token>, usize)>, t: Option<Token>) -> (r: Option<usize>)
    ensures
        match r {
            Some(j) => j < v@.len() && v@[j as int].0 == t,
            None => !assoc_has(v@, t),
        },
{
    let mut i: usize = 0;
    while i < v.len()
        invariant
            i <= v@.len(),
            forall|j: int| 0 <= j < i ==> (#[trigger] v@[j]).0 != t,
        decreases v@.len() - i,
    {
        if crate::tokenset::opt_token_eq(v[i].0, t) {
            return Some(i);
        }
        i = i + 1;
    }
    None
}

/// Finds an item set with the given ordered view among the collected states.
fn find_state(closures: &Vec<Closure>, c: &Closure) -> (r: Option<usize>)
    ensures
        match r {
            Some(n) => n < closures@.len() && closures@[n as int].keys() == c.keys(),
            None => forall|n: int| 0 <= n < closures@.len() ==> (#[trigger] closures@[n]).keys() != c.keys(),
        },
{
    let mut n: usize = 0;
    while n < closures.len()
        invariant
            n <= closures@.len(),
            forall|j: int| 0 <= j < n ==> (#[trigger] closures@[j]).keys() != c.keys(),
        decreases closures@.len() - n,
    {
        if keys_equal(&closures[n], c) {
            return Some(n);
        }
        n = n + 1;
    }
    None
}

/// Compares the ordered views of two item sets.
fn keys_equal(a: &Closure, b: &Closure) -> (r: bool)
    ensures
        r == (a.keys() == b.keys()),
{
    if a.data.len() != b.data.len() {
        proof {
            assert(a.keys().len() != b.keys().len());
        }
        return false;
    }
    let mut i: usize = 0;
    while i < a.data.len()
        invariant
            i <= a.data@.len(),
            a.data@.len() == b.data@.len(),
            forall|j: int| 0 <= j < i ==> a.keys()[j] == b.keys()[j],
        decreases a.data@.len() - i,
    {
        proof {
            assert(a.keys()[i as int] == item_key(a.data@[i as int]));
            assert(b.keys()[i as int] == item_key(b.data@[i as int]));
        }
        if !(a.data[i].ruleno == b.data[i].ruleno && a.data[i].position == b.data[i].position) {
            proof {
                assert(a.keys()[i as int] != b.keys()[i as int]);
            }
            return false;
        }
        i = i + 1;
    }
    proof {
        assert(a.keys() =~= b.keys());
    }
    true
}

/// A table of `n` empty semantic slots.
fn vec_of_none(n: usize) -> (r: Vec<Option<Semantic>>)
    ensures
        r@.len() == n,
        forall|i: int| 0 <= i < n ==> r@[i] == None::<Semantic>,
    {
    let mut r: Vec<Option<Semantic>> = Vec::new();
    let mut i: usize = 0;
    while i < n
        invariant
            i <= n,
            r@.len() == i,
            forall|j: int| 0 <= j < i ==> r@[j] == None::<Semantic>,
        decreases n - i,
    {
        r.push(None);
        i = i + 1;
    }
    r
}

/// Appends a diagnostic, keeping everything already recorded.
fn push_warning(warnings: &mut Vec<Warning>, w: Warning)
    ensures
        final(warnings)@ == old(warnings)@.push(w),
        forall|x: Warning| old(warnings)@.contains(x) ==> final(warnings)@.contains(x),
        final(warnings)@.contains(w),
{
    warnings.push(w);
    proof {
        assert forall|x: Warning| old(warnings)@.contains(x) implies warnings@.contains(x) by {
            let i = choose|i: int| 0 <= i < old(warnings)@.len() && old(warnings)@[i] == x;
            assert(warnings@[i] == x);
        }
        assert(warnings@[warnings@.len() - 1] == w);
    }
}

/// Every identity of the scanned prefix stands strictly before the current
/// one in the canonical order.
pub proof fn lemma_prefix_key_lt(c: &Closure, j: int)
    requires
        c.sorted(),
        0 <= j < c.keys().len(),
    ensures
        forall|k: (int, int)|
            #[trigger] c.keys().take(j).to_set().contains(k) ==> key_lt(k, c.keys()[j]),
{
    assert forall|k: (int, int)| #[trigger] c.keys().take(j).to_set().contains(k) implies key_lt(
        k,
        c.keys()[j],
    ) by {
        let p = choose|p: int| 0 <= p < c.keys().take(j).len() && c.keys().take(j)[p] == k;
        assert(c.keys()[p] == k);
    }
}

/// The marker that a scan leaves behind is one of the scanned markers.
pub proof fn lemma_last_marker_in_markers(g: Grammar, keys: Seq<(int, int)>)
    ensures
        last_marker(g, keys) matches Some(m) ==> markers_of(g, keys).contains(m),
    decreases keys.len(),
{
    if keys.len() == 0 {
    } else {
        match marker_at(g, keys.last()) {
            Some(m) => {
                assert(marker_at(g, keys[keys.len() - 1]) == Some(m));
            },
            None => {
                lemma_last_marker_in_markers(g, keys.drop_last());
                match last_marker(g, keys) {
                    Some(m) => {
                        let j = choose|j: int|
                            0 <= j < keys.drop_last().len() && marker_at(
                                g,
                                #[trigger] keys.drop_last()[j],
                            ) == Some(m);
                        assert(keys.drop_last()[j] == keys[j]);
                        assert(marker_at(g, keys[j]) == Some(m));
                    },
                    None => {},
                }
            },
        }
    }
}

/// Extending the scanned prefix by one item adds exactly that item's marker.
pub proof fn lemma_markers_take_step(g: Grammar, keys: Seq<(int, int)>, j: int)
    requires
        0 <= j < keys.len(),
    ensures
        markers_of(g, keys.take(j + 1)) == (match marker_at(g, keys[j]) {
            Some(m) => markers_of(g, keys.take(j)).insert(m),
            None => markers_of(g, keys.take(j)),
        }),
{
    let p0 = keys.take(j);
    let p1 = keys.take(j + 1);
    assert(forall|q: int| 0 <= q < j ==> p1[q] == keys[q] && p0[q] == keys[q]);
    assert(p1[j] == keys[j]);
    match marker_at(g, keys[j]) {
        Some(m) => {
            assert(markers_of(g, p1) =~= markers_of(g, p0).insert(m)) by {
                assert forall|x: Semantic| markers_of(g, p1).contains(x) implies markers_of(
                    g,
                    p0,
                ).insert(m).contains(x) by {
                    let q = choose|q: int| 0 <= q < p1.len() && marker_at(g, #[trigger] p1[q]) == Some(x);
                    if q < j {
                        assert(marker_at(g, p0[q]) == Some(x));
                    }
                }
                assert forall|x: Semantic| markers_of(g, p0).insert(m).contains(x) implies markers_of(
                    g,
                    p1,
                ).contains(x) by {
                    if x == m {
                        assert(marker_at(g, p1[j]) == Some(x));
                    } else {
                        let q = choose|q: int| 0 <= q < p0.len() && marker_at(g, #[trigger] p0[q]) == Some(x);
                        assert(marker_at(g, p1[q]) == Some(x));
                    }
                }
            }
        },
        None => {
            assert(markers_of(g, p1) =~= markers_of(g, p0)) by {
                assert forall|x: Semantic| markers_of(g, p1).contains(x) implies markers_of(
                    g,
                    p0,
                ).contains(x) by {
                    let q = choose|q: int| 0 <= q < p1.len() && marker_at(g, #[trigger] p1[q]) == Some(x);
                    if q < j {
                        assert(marker_at(g, p0[q]) == Some(x));
                    }
                }
                assert forall|x: Semantic| markers_of(g, p0).contains(x) implies markers_of(
                    g,
                    p1,
                ).contains(x) by {
                    let q = choose|q: int| 0 <= q < p0.len() && marker_at(g, #[trigger] p0[q]) == Some(x);
                    assert(marker_at(g, p1[q]) == Some(x));
                }
            }
        },
    }
}

/// Scans the items of one state in canonical order: collects the SLR(1)
/// reduce entries with the earliest reducible rule kept per lookahead,
/// records the rules' reduce-time markers, resolves the state's inline
/// marker, and leaves a diagnostic for each conflict found on the way.
fn reduce_scan(
    grammar: &Grammar,
    c: &Closure,
    cur: usize,
    warnings: &mut Vec<Warning>,
    rsems: &mut Vec<Option<Semantic>>,
) -> (res: (Vec<(Option<Token>, usize)>, Option<Semantic>))
    requires
        grammar.wf(),
        c.wf(grammar.rules@),
        old(rsems)@.len() == grammar.rules@.len(),
    ensures
        final(rsems)@.len() == grammar.rules@.len(),
        forall|x: Warning| old(warnings)@.contains(x) ==> final(warnings)@.contains(x),
        forall|x: Warning|
            final(warnings)@.contains(x) ==> old(warnings)@.contains(x) || scan_warning_ok(
                *grammar,
                *c,
                cur,
                x,
            ),
        forall|r: int|
            0 <= r < grammar.rules@.len() ==> final(rsems)@[r] == (if reducible_in(
                *grammar,
                c.key_set(),
                r,
            ) && grammar.rules@[r].reduce_sem is Some {
                grammar.rules@[r].reduce_sem
            } else {
                old(rsems)@[r]
            }),
        assoc_unique(res.0@),
        forall|j: int|
            0 <= j < res.0@.len() ==> {
                let (t, r) = #[trigger] res.0@[j];
                &&& reduce_justified(*grammar, c.key_set(), t, r as int)
                &&& forall|r2: int| 0 <= r2 < r ==> !reduce_justified(*grammar, c.key_set(), t, r2)
            },
        forall|t: Option<Token>, r: int|
            #[trigger] reduce_justified(*grammar, c.key_set(), t, r) ==> assoc_has(res.0@, t),
        forall|j: int, r2: int|
            #![trigger reduce_justified(*grammar, c.key_set(), res.0@[j].0, r2)]
            0 <= j < res.0@.len() && reduce_justified(*grammar, c.key_set(), res.0@[j].0, r2)
                && r2 != res.0@[j].1 ==> final(warnings)@.contains(
                Warning::ReduceReduce {
                    kept: res.0@[j].1,
                    dropped: r2 as usize,
                    state: cur,
                },
            ),
        forall|j: int|
            0 <= j < c.keys().len() ==> {
                let k = #[trigger] c.keys()[j];
                marker_at(*grammar, k) matches Some(m) ==> k.1 >= 1 ==> (
                grammar.rules@[k.0].tokens@[k.1 - 1] matches GrammarSymbol::Symbol(s)
                    ==> final(warnings)@.contains(
                    Warning::SemanticAfterNonterminal { sem: m, state: cur, prev: s },
                ))
            },
        (exists|a: Semantic, b: Semantic|
            a != b && markers_of(*grammar, c.keys()).contains(a) && markers_of(
                *grammar,
                c.keys(),
            ).contains(b)) ==> (exists|a: Semantic, b: Semantic|
            a != b && markers_of(*grammar, c.keys()).contains(a) && markers_of(
                *grammar,
                c.keys(),
            ).contains(b) && final(warnings)@.contains(
                Warning::DuplicateStateSem { state: cur, first: a, second: b },
            )),
        res.1 == last_marker(*grammar, c.keys()),
{
    let ghost g = *grammar;
    let ghost keys = c.keys();
    let ghost ks = c.key_set();
    let mut ra: Vec<(Option<Token>, usize)> = Vec::new();
    let mut cur_sem: Option<Semantic> = None;
    let mut j: usize = 0;
    proof {
        assert(keys.take(0) =~= Seq::<(int, int)>::empty());
        assert(markers_of(g, keys.take(0)) =~= Set::<Semantic>::empty());
    }
    while j < c.data.len()
        invariant
            grammar.wf(),
            g == *grammar,
            c.wf(g.rules@),
            keys == c.keys(),
            ks == c.key_set(),
            j <= c.data@.len(),
            rsems@.len() == g.rules@.len(),
            forall|x: Warning| old(warnings)@.contains(x) ==> warnings@.contains(x),
            forall|x: Warning|
                warnings@.contains(x) ==> old(warnings)@.contains(x) || scan_warning_ok(
                    g,
                    *c,
                    cur,
                    x,
                ),
            assoc_unique(ra@),
            forall|p: int|
                0 <= p < ra@.len() ==> {
                    let (t, r) = #[trigger] ra@[p];
                    &&& reduce_justified(g, keys.take(j as int).to_set(), t, r as int)
                    &&& forall|r2: int|
                        0 <= r2 < r ==> !reduce_justified(g, keys.take(j as int).to_set(), t, r2)
                },
            forall|t: Option<Token>, r: int|
                #[trigger] reduce_justified(g, keys.take(j as int).to_set(), t, r) ==> assoc_has(
                    ra@,
                    t,
                ),
            forall|p: int, r2: int|
                #![trigger reduce_justified(g, keys.take(j as int).to_set(), ra@[p].0, r2)]
                0 <= p < ra@.len() && reduce_justified(g, keys.take(j as int).to_set(), ra@[p].0, r2)
                    && r2 != ra@[p].1 ==> warnings@.contains(
                    Warning::ReduceReduce { kept: ra@[p].1, dropped: r2 as usize, state: cur },
                ),
            forall|r: int|
                0 <= r < g.rules@.len() ==> rsems@[r] == (if keys.take(j as int).to_set().contains(
                    (r, g.rules@[r].tokens@.len() as int),
                ) && g.rules@[r].reduce_sem is Some {
                    g.rules@[r].reduce_sem
                } else {
                    old(rsems)@[r]
                }),
            cur_sem == last_marker(g, keys.take(j as int)),
            cur_sem is None ==> markers_of(g, keys.take(j as int)) == Set::<Semantic>::empty(),
            (exists|y: Semantic|
                markers_of(g, keys.take(j as int)).contains(y) && Some(y) != cur_sem) ==> (exists|
                a: Semantic,
                b: Semantic,
            |
                a != b && markers_of(g, keys.take(j as int)).contains(a) && markers_of(
                    g,
                    keys.take(j as int),
                ).contains(b) && warnings@.contains(
                    Warning::DuplicateStateSem { state: cur, first: a, second: b },
                )),
            forall|p: int|
                0 <= p < j ==> {
                    let k = #[trigger] keys[p];
                    marker_at(g, k) matches Some(m) ==> k.1 >= 1 ==> (g.rules@[k.0].tokens@[k.1
                        - 1] matches GrammarSymbol::Symbol(s) ==> warnings@.contains(
                        Warning::SemanticAfterNonterminal { sem: m, state: cur, prev: s },
                    ))
                },
        decreases c.data@.len() - j,
    {
        let ghost pfx = keys.take(j as int).to_set();
        let ghost pfx1 = keys.take(j as int + 1).to_set();
        let ghost mk0 = markers_of(g, keys.take(j as int));
        let ghost mk1 = markers_of(g, keys.take(j as int + 1));
        proof {
            assert(keys[j as int] == item_key(c.data@[j as int]));
            assert(c.data@[j as int].wf(g.rules@));
            assert(pfx1 =~= pfx.insert(keys[j as int]));
            lemma_markers_take_step(g, keys, j as int);
            assert(keys.take(j as int + 1).drop_last() =~= keys.take(j as int));
            assert(keys.take(j as int + 1).last() == keys[j as int]);
            lemma_prefix_key_lt(c, j as int);
        }
        let it = &c.data[j];
        let ghost kj = keys[j as int];
        let ghost warn_in = warnings@;
        match it.next_gram_sym() {
            None => {
                // Reducible item: the dot stands at the end of the rule.
                let ruleno = it.ruleno;
                proof {
                    assert(it.rule.tokens@ == g.rules@[ruleno as int].tokens@);
                    assert(kj == (ruleno as int, g.rules@[ruleno as int].tokens@.len() as int));
                    assert(marker_at(g, kj) is None);
                    // Carry the table invariants over to the grown prefix:
                    // every rule already in the table stands strictly before
                    // this one in the canonical order.
                    assert forall|p: int| 0 <= p < ra@.len() implies {
                        let (t, r) = #[trigger] ra@[p];
                        &&& reduce_justified(g, pfx1, t, r as int)
                        &&& r < ruleno
                        &&& forall|r2: int| 0 <= r2 < r ==> !reduce_justified(g, pfx1, t, r2)
                    } by {
                        let (t, r) = ra@[p];
                        let kr = (r as int, g.rules@[r as int].tokens@.len() as int);
                        assert(pfx.contains(kr));
                        assert(key_lt(kr, kj));
                        assert(r < ruleno);
                        assert forall|r2: int| 0 <= r2 < r implies !reduce_justified(
                            g,
                            pfx1,
                            t,
                            r2,
                        ) by {
                            if reduce_justified(g, pfx1, t, r2) {
                                let k2 = (r2, g.rules@[r2].tokens@.len() as int);
                                if k2 == kj {
                                    assert(r2 == ruleno as int);
                                } else {
                                    assert(pfx.contains(k2));
                                    assert(!reduce_justified(g, pfx, t, r2));
                                }
                            }
                        }
                    }
                }
                let fol: &crate::tokenset::TokenSet = grammar.follow(it.rule.symbol);
                let ghost fseq = fol.elems@;
                let nf = fol.len();
                let mut jj: usize = 0;
                while jj < nf
                    invariant
                        grammar.wf(),
                        g == *grammar,
                        c.wf(g.rules@),
                        keys == c.keys(),
                        ks == c.key_set(),
                        j < c.data@.len(),
                        kj == keys[j as int],
                        kj == (ruleno as int, g.rules@[ruleno as int].tokens@.len() as int),
                        ruleno < g.rules@.len(),
                        fseq == fol.elems@,
                        nf == fseq.len(),
                        jj <= nf,
                        fol.wf(),
                        fol@ == g.follows_view()[g.rules@[ruleno as int].symbol.0 as int],
                        forall|x: Warning| old(warnings)@.contains(x) ==> warnings@.contains(x),
                        forall|x: Warning| warn_in.contains(x) ==> warnings@.contains(x),
                        forall|x: Warning|
                            warnings@.contains(x) ==> old(warnings)@.contains(x)
                                || scan_warning_ok(g, *c, cur, x),
                        forall|p: int|
                            0 <= p < ra@.len() && (#[trigger] ra@[p]).1 == ruleno ==> (exists|
                                q3: int,
                            | 0 <= q3 < jj && (#[trigger] fseq[q3]) == ra@[p].0),
                        assoc_unique(ra@),
                        pfx == keys.take(j as int).to_set(),
                        pfx1 == keys.take(j as int + 1).to_set(),
                        pfx1 == pfx.insert(kj),
                        forall|p: int|
                            0 <= p < ra@.len() ==> {
                                let (t, r) = #[trigger] ra@[p];
                                &&& reduce_justified(g, pfx1, t, r as int)
                                &&& forall|r2: int|
                                    0 <= r2 < r ==> !reduce_justified(g, pfx1, t, r2)
                            },
                        forall|t: Option<Token>, r: int|
                            #[trigger] reduce_justified(g, pfx, t, r) ==> assoc_has(ra@, t),
                        forall|q: int| 0 <= q < jj ==> assoc_has(ra@, #[trigger] fseq[q]),
                        forall|p: int, q: int|
                            0 <= p < ra@.len() && 0 <= q < jj && (#[trigger] ra@[p]).0
                                == #[trigger] fseq[q] && ra@[p].1 != ruleno ==> warnings@.contains(
                                Warning::ReduceReduce {
                                    kept: ra@[p].1,
                                    dropped: ruleno,
                                    state: cur,
                                },
                            ),
                        forall|p: int, r2: int|
                            #![trigger reduce_justified(g, pfx, ra@[p].0, r2)]
                            0 <= p < ra@.len() && reduce_justified(g, pfx, ra@[p].0, r2) && r2
                                != ra@[p].1 ==> warnings@.contains(
                                Warning::ReduceReduce {
                                    kept: ra@[p].1,
                                    dropped: r2 as usize,
                                    state: cur,
                                },
                            ),
                    decreases nf - jj,
                {
                    let t = fol.get(jj);
                    let ghost ra0 = ra@;
                    match find_assoc_opt(&ra, t) {
                        None => {
                            proof {
                                assert(fol@.contains(t));
                                assert(reduce_justified(g, pfx1, t, ruleno as int));
                                assert forall|r2: int| 0 <= r2 < ruleno implies !reduce_justified(
                                    g,
                                    pfx1,
                                    t,
                                    r2,
                                ) by {
                                    if reduce_justified(g, pfx1, t, r2) {
                                        let k2 = (r2, g.rules@[r2].tokens@.len() as int);
                                        if k2 == kj {
                                        } else {
                                            assert(pfx.contains(k2));
                                            assert(reduce_justified(g, pfx, t, r2));
                                            assert(assoc_has(ra0, t));
                                        }
                                    }
                                }
                            }
                            ra.push((t, ruleno));
                            proof {
                                assert forall|p: int| 0 <= p < ra0.len() implies ra@[p] == ra0[p]
                                    by {}
                                assert(ra@[ra@.len() - 1] == (t, ruleno));
                                assert forall|t2: Option<Token>, r: int|
                                    #[trigger] reduce_justified(g, pfx, t2, r) implies assoc_has(
                                    ra@,
                                    t2,
                                ) by {
                                    assert(assoc_has(ra0, t2));
                                    let p = choose|p: int|
                                        0 <= p < ra0.len() && (#[trigger] ra0[p]).0 == t2;
                                    assert(ra@[p].0 == t2);
                                }
                                assert forall|q: int| 0 <= q < jj + 1 implies assoc_has(
                                    ra@,
                                    #[trigger] fseq[q],
                                ) by {
                                    if q < jj {
                                        assert(assoc_has(ra0, fseq[q]));
                                        let p = choose|p: int|
                                            0 <= p < ra0.len() && (#[trigger] ra0[p]).0 == fseq[q];
                                        assert(ra@[p].0 == fseq[q]);
                                    } else {
                                        assert(ra@[ra@.len() - 1].0 == t);
                                    }
                                }
                            }
                        },
                        Some(idx) => {
                            let kept = ra[idx].1;
                            proof {
                                // The kept rule stood in the table before
                                // this item's rule, and both reduce under
                                // `t` here: the diagnostic is justified.
                                assert(kept != ruleno) by {
                                    if ra@[idx as int].1 == ruleno {
                                        let q3 = choose|q3: int|
                                            0 <= q3 < jj && (#[trigger] fseq[q3])
                                                == ra@[idx as int].0;
                                        assert(fseq[q3] == t);
                                        assert(fseq[jj as int] == t);
                                        assert(fseq[q3] != fseq[jj as int]);
                                    }
                                }
                                assert forall|x: (int, int)| pfx1.contains(x) implies ks.contains(
                                    x,
                                ) by {
                                    let q3 = choose|q3: int|
                                        0 <= q3 < keys.take(j as int + 1).len() && (
                                        #[trigger] keys.take(j as int + 1)[q3]) == x;
                                    assert(keys[q3] == x);
                                    assert(keys.contains(x));
                                }
                                assert(reduce_justified(g, ks, t, kept as int));
                                assert(ks.contains(kj)) by {
                                    assert(keys[j as int] == kj);
                                    assert(keys.contains(kj));
                                }
                                assert(fol@.contains(t));
                                assert(reduce_justified(g, ks, t, ruleno as int));
                                assert(scan_warning_ok(
                                    g,
                                    *c,
                                    cur,
                                    (Warning::ReduceReduce {
                                        kept,
                                        dropped: ruleno,
                                        state: cur,
                                    }),
                                ));
                            }
                            push_warning(
                                warnings,
                                Warning::ReduceReduce { kept, dropped: ruleno, state: cur },
                            );
                            proof {
                                assert(ra@[idx as int].0 == t);
                                assert forall|q: int| 0 <= q < jj + 1 implies assoc_has(
                                    ra@,
                                    #[trigger] fseq[q],
                                ) by {
                                    if q == jj {
                                        assert(ra@[idx as int].0 == fseq[q]);
                                    }
                                }
                            }
                        },
                    }
                    jj = jj + 1;
                    proof {
                        assert(fseq[jj - 1] == t);
                    }
                }
                proof {
                    // Close the accounts for this item: every lookahead owed
                    // by the new reducible rule has an entry, and every
                    // conflict left its diagnostic.
                    assert forall|t: Option<Token>, r: int|
                        #[trigger] reduce_justified(g, pfx1, t, r) implies assoc_has(ra@, t) by {
                        let k2 = (r, g.rules@[r].tokens@.len() as int);
                        if pfx.contains(k2) {
                            assert(reduce_justified(g, pfx, t, r));
                        } else {
                            assert(k2 == kj);
                            assert(fol@.contains(t));
                            let q = choose|q: int| 0 <= q < fseq.len() && fseq[q] == t;
                            assert(assoc_has(ra@, fseq[q]));
                        }
                    }
                    assert forall|p: int, r2: int|
                        #![trigger reduce_justified(g, pfx1, ra@[p].0, r2)]
                        0 <= p < ra@.len() && reduce_justified(g, pfx1, ra@[p].0, r2) && r2
                            != ra@[p].1 implies warnings@.contains(
                        Warning::ReduceReduce {
                            kept: ra@[p].1,
                            dropped: r2 as usize,
                            state: cur,
                        },
                    ) by {
                        let t = ra@[p].0;
                        let k2 = (r2, g.rules@[r2].tokens@.len() as int);
                        if pfx.contains(k2) {
                            assert(reduce_justified(g, pfx, t, r2));
                        } else {
                            assert(k2 == kj);
                            assert(r2 == ruleno as int);
                            assert(fol@.contains(t));
                            let q = choose|q: int| 0 <= q < fseq.len() && fseq[q] == t;
                            assert(ra@[p].1 != ruleno);
                        }
                    }
                    // Markers are untouched by a reducible item.
                    assert(mk1 == mk0);
                    assert(last_marker(g, keys.take(j as int + 1)) == cur_sem);
                }
                if let Some(x) = it.rule.reduce_sem {
                    proof {
                        assert(g.rules@[ruleno as int].reduce_sem == Some(x));
                    }
                    rsems.set(ruleno, Some(x));
                }
                proof {
                    assert(!pfx.contains(kj)) by {
                        if pfx.contains(kj) {
                            assert(key_lt(kj, kj));
                        }
                    }
                    assert forall|r: int| 0 <= r < g.rules@.len() implies rsems@[r] == (if pfx1
                        .contains((r, g.rules@[r].tokens@.len() as int))
                        && g.rules@[r].reduce_sem is Some {
                        g.rules@[r].reduce_sem
                    } else {
                        old(rsems)@[r]
                    }) by {
                        let kr = (r, g.rules@[r].tokens@.len() as int);
                        if kr == kj {
                            assert(r == ruleno as int);
                        }
                    }
                }
            },
            Some(_) => {
                proof {
                    assert(it.rule.tokens@ == g.rules@[kj.0].tokens@);
                    assert(kj.1 < g.rules@[kj.0].tokens@.len());
                    // No reduce key is added: the new item is not at the end.
                    assert forall|t: Option<Token>, r: int|
                        #[trigger] reduce_justified(g, pfx1, t, r) implies reduce_justified(
                        g,
                        pfx,
                        t,
                        r,
                    ) by {
                        let k2 = (r, g.rules@[r].tokens@.len() as int);
                        if k2 == kj {
                            assert(g.rules@[kj.0].tokens@.len() as int == kj.1);
                        } else {
                            assert(pfx.contains(k2));
                        }
                    }
                    assert forall|r: int| 0 <= r < g.rules@.len() implies rsems@[r] == (if pfx1
                        .contains((r, g.rules@[r].tokens@.len() as int))
                        && g.rules@[r].reduce_sem is Some {
                        g.rules@[r].reduce_sem
                    } else {
                        old(rsems)@[r]
                    }) by {
                        let kr = (r, g.rules@[r].tokens@.len() as int);
                        if kr == kj {
                            assert(g.rules@[kj.0].tokens@.len() as int == kj.1);
                        }
                    }
                }
                match it.current_sem() {
                    Some(x) => {
                        proof {
                            assert(it.rule.semantics@ == g.rules@[kj.0].semantics@);
                            assert(marker_at(g, kj) == Some(x));
                            assert(last_marker(g, keys.take(j as int + 1)) == Some(x));
                            assert(mk1 == mk0.insert(x));
                        }
                        match it.current_gram_sym() {
                            Some(GrammarSymbol::Symbol(s)) => {
                                proof {
                                    // The marked item itself justifies the
                                    // diagnostic.
                                    assert(c.keys()[j as int] == kj);
                                    assert(g.rules@[kj.0].tokens@[kj.1 - 1]
                                        == GrammarSymbol::Symbol(s));
                                    assert(scan_warning_ok(
                                        g,
                                        *c,
                                        cur,
                                        (Warning::SemanticAfterNonterminal {
                                            sem: x,
                                            state: cur,
                                            prev: s,
                                        }),
                                    ));
                                }
                                push_warning(
                                    warnings,
                                    Warning::SemanticAfterNonterminal {
                                        sem: x,
                                        state: cur,
                                        prev: s,
                                    },
                                );
                            },
                            _ => {},
                        }
                        match cur_sem {
                            Some(prev) => {
                                if prev.0 != x.0 {
                                    proof {
                                        // Both markers stand on items of this
                                        // state: the diagnostic is justified.
                                        lemma_last_marker_in_markers(g, keys.take(j as int));
                                        assert(mk0.contains(prev));
                                        let q3 = choose|q3: int|
                                            0 <= q3 < keys.take(j as int).len() && marker_at(
                                                g,
                                                #[trigger] keys.take(j as int)[q3],
                                            ) == Some(prev);
                                        assert(keys[q3] == keys.take(j as int)[q3]);
                                        assert(marker_at(g, keys[q3]) == Some(prev));
                                        assert(markers_of(g, keys).contains(prev));
                                        assert(marker_at(g, keys[j as int]) == Some(x));
                                        assert(markers_of(g, keys).contains(x));
                                        assert(scan_warning_ok(
                                            g,
                                            *c,
                                            cur,
                                            (Warning::DuplicateStateSem {
                                                state: cur,
                                                first: prev,
                                                second: x,
                                            }),
                                        ));
                                    }
                                    push_warning(
                                        warnings,
                                        Warning::DuplicateStateSem {
                                            state: cur,
                                            first: prev,
                                            second: x,
                                        },
                                    );
                                    proof {
                                        lemma_last_marker_in_markers(g, keys.take(j as int));
                                        assert(mk0.contains(prev));
                                        assert(mk1.contains(prev) && mk1.contains(x));
                                    }
                                }
                            },
                            None => {},
                        }
                        proof {
                            // Re-establish the duplicate-marker account.
                            if exists|y: Semantic| mk1.contains(y) && Some(y) != Some(x) {
                                let y = choose|y: Semantic| mk1.contains(y) && Some(y) != Some(x);
                                assert(mk0.contains(y));
                                match cur_sem {
                                    None => {
                                        assert(mk0 == Set::<Semantic>::empty());
                                        assert(false);
                                    },
                                    Some(prev) => {
                                        if prev == x {
                                            assert(Some(y) != cur_sem);
                                        } else {
                                        }
                                    },
                                }
                            }
                        }
                        cur_sem = Some(x);
                    },
                    None => {
                        proof {
                            assert(marker_at(g, kj) is None);
                            assert(mk1 == mk0);
                            assert(last_marker(g, keys.take(j as int + 1)) == cur_sem);
                        }
                    },
                }
            },
        }
        j = j + 1;
    }
    proof {
        assert(keys.take(c.data@.len() as int) =~= keys);
        assert(keys.take(c.data@.len() as int).to_set() =~= ks);
    }
    (ra, cur_sem)
}

/// Collects the kernel of the transition out of `c` under `x`: every item of
/// `c` with the dot before `x`, advanced one step.
fn build_kernel(grammar: &Grammar, c: &Closure, x: GrammarSymbol) -> (kern: Closure)
    requires
        grammar.wf(),
        c.wf(grammar.rules@),
    ensures
        kern.wf(grammar.rules@),
        kern.key_set() == goto_kernel(grammar.rules@, c.key_set(), x),
{
    let ghost g = *grammar;
    let ghost keys = c.keys();
    let mut kern = Closure::new();
    let mut p: usize = 0;
    proof {
        assert(keys.take(0) =~= Seq::<(int, int)>::empty());
        assert(kern.key_set() =~= goto_kernel(g.rules@, keys.take(0).to_set(), x)) by {
            assert forall|k2: (int, int)|
                goto_kernel(g.rules@, keys.take(0).to_set(), x).contains(k2) implies false by {}
        }
    }
    while p < c.data.len()
        invariant
            grammar.wf(),
            g == *grammar,
            c.wf(g.rules@),
            keys == c.keys(),
            p <= c.data@.len(),
            kern.wf(g.rules@),
            kern.key_set() == goto_kernel(g.rules@, keys.take(p as int).to_set(), x),
        decreases c.data@.len() - p,
    {
        let ghost pfx = keys.take(p as int).to_set();
        let ghost pfx1 = keys.take(p as int + 1).to_set();
        let ghost kp = keys[p as int];
        proof {
            assert(kp == item_key(c.data@[p as int]));
            assert(c.data@[p as int].wf(g.rules@));
            assert(pfx1 =~= pfx.insert(kp));
        }
        let it = &c.data[p];
        let mut matched = false;
        match it.next_gram_sym() {
            Some(nx) => {
                if nx == x {
                    matched = true;
                    let adv = it.advance();
                    proof {
                        assert(adv.wf(g.rules@));
                        assert(item_key(adv) == (kp.0, kp.1 + 1));
                        assert(kern.wf(g.rules@));
                    }
                    let _ = kern.add(adv);
                    proof {
                        assert(kern.wf(g.rules@));
                    }
                }
            },
            None => {},
        }
        proof {
            if matched {
                assert(goto_kernel(g.rules@, pfx1, x) =~= goto_kernel(g.rules@, pfx, x).insert(
                    (kp.0, kp.1 + 1),
                )) by {
                    assert forall|k2: (int, int)| goto_kernel(g.rules@, pfx1, x).contains(k2)
                        implies goto_kernel(g.rules@, pfx, x).insert((kp.0, kp.1 + 1)).contains(
                        k2,
                    ) by {
                        let k = choose|k: (int, int)|
                            #[trigger] pfx1.contains(k) && 0 <= k.0 < g.rules@.len() && 0 <= k.1
                                < g.rules@[k.0].tokens@.len() && g.rules@[k.0].tokens@[k.1] == x
                                && k2 == (k.0, k.1 + 1);
                        if k != kp {
                            assert(pfx.contains(k));
                        }
                    }
                    assert forall|k2: (int, int)|
                        goto_kernel(g.rules@, pfx, x).insert((kp.0, kp.1 + 1)).contains(k2) implies
                        goto_kernel(g.rules@, pfx1, x).contains(k2) by {
                        if k2 == (kp.0, kp.1 + 1) {
                            assert(pfx1.contains(kp));
                            assert(c.data@[p as int].rule.tokens@
                                == g.rules@[kp.0].tokens@);
                        } else {
                            let k = choose|k: (int, int)|
                                #[trigger] pfx.contains(k) && 0 <= k.0 < g.rules@.len() && 0 <= k.1
                                    < g.rules@[k.0].tokens@.len() && g.rules@[k.0].tokens@[k.1] == x
                                    && k2 == (k.0, k.1 + 1);
                            assert(pfx1.contains(k));
                        }
                    }
                }
            } else {
                assert(goto_kernel(g.rules@, pfx1, x) =~= goto_kernel(g.rules@, pfx, x)) by {
                    assert forall|k2: (int, int)| goto_kernel(g.rules@, pfx1, x).contains(k2)
                        implies goto_kernel(g.rules@, pfx, x).contains(k2) by {
                        let k = choose|k: (int, int)|
                            #[trigger] pfx1.contains(k) && 0 <= k.0 < g.rules@.len() && 0 <= k.1
                                < g.rules@[k.0].tokens@.len() && g.rules@[k.0].tokens@[k.1] == x
                                && k2 == (k.0, k.1 + 1);
                        if k == kp {
                            assert(c.data@[p as int].rule.tokens@ == g.rules@[kp.0].tokens@);
                            assert(false);
                        }
                        assert(pfx.contains(k));
                    }
                    assert forall|k2: (int, int)| goto_kernel(g.rules@, pfx, x).contains(k2)
                        implies goto_kernel(g.rules@, pfx1, x).contains(k2) by {
                        let k = choose|k: (int, int)|
                            #[trigger] pfx.contains(k) && 0 <= k.0 < g.rules@.len() && 0 <= k.1
                                < g.rules@[k.0].tokens@.len() && g.rules@[k.0].tokens@[k.1] == x
                                && k2 == (k.0, k.1 + 1);
                        assert(pfx1.contains(k));
                    }
                }
            }
        }
        p = p + 1;
    }
    proof {
        assert(keys.take(c.data@.len() as int) =~= keys);
        assert(keys.take(c.data@.len() as int).to_set() =~= c.key_set());
    }
    kern
}

/// The running shape of the state tables while the collection grows: one
/// meta and one semantic slot per item set, dense numbering, pairwise
/// distinct ordered views, and a worklist of in-range, distinct indices.
pub open spec fn build_inv(
    g: Grammar,
    cs: Seq<Closure>,
    ms: Seq<AutomataState>,
    sems: Seq<Option<Semantic>>,
    todo: Seq<usize>,
) -> bool {
    &&& ms.len() == cs.len()
    &&& sems.len() == cs.len()
    &&& forall|k: int| 0 <= k < cs.len() ==> (#[trigger] cs[k]).wf(g.rules@)
    &&& forall|k: int| 0 <= k < ms.len() ==> (#[trigger] ms[k]).state == k
    &&& forall|k1: int, k2: int|
        0 <= k1 < k2 < cs.len() ==> (#[trigger] cs[k1]).keys() != (#[trigger] cs[k2]).keys()
    &&& forall|q: int| 0 <= q < todo.len() ==> (#[trigger] todo[q]) < cs.len()
    &&& forall|q1: int, q2: int|
        0 <= q1 < q2 < todo.len() ==> (#[trigger] todo[q1]) != (#[trigger] todo[q2])
}

/// Looks the item set up among the collected states; if it is new, registers
/// it with the next free number and queues it for processing.
fn lookup_or_add(
    grammar: &Grammar,
    closures_v: &mut Vec<Closure>,
    metas: &mut Vec<AutomataState>,
    sems: &mut Vec<Option<Semantic>>,
    todo: &mut Vec<usize>,
    c: Closure,
) -> (n: usize)
    requires
        grammar.wf(),
        c.wf(grammar.rules@),
        build_inv(*grammar, old(closures_v)@, old(metas)@, old(sems)@, old(todo)@),
        old(closures_v)@.len() >= 1,
    ensures
        build_inv(*grammar, final(closures_v)@, final(metas)@, final(sems)@, final(todo)@),
        n < final(closures_v)@.len(),
        final(closures_v)@[n as int].keys() == c.keys(),
        n <= old(closures_v)@.len(),
        n < old(closures_v)@.len() ==> final(closures_v)@ == old(closures_v)@ && final(metas)@
            == old(metas)@ && final(sems)@ == old(sems)@ && final(todo)@ == old(todo)@,
        n == old(closures_v)@.len() ==> final(closures_v)@ == old(closures_v)@.push(c)
            && final(metas)@.len() == old(metas)@.len() + 1 && (forall|i: int|
            0 <= i < old(metas)@.len() ==> final(metas)@[i] == old(metas)@[i]) && final(sems)@
            == old(sems)@.push(None) && final(todo)@ == old(todo)@.push(n),
{
    match find_state(closures_v, &c) {
        Some(n) => n,
        None => {
            let n = closures_v.len();
            closures_v.push(c);
            metas.push(AutomataState::new(n));
            sems.push(None);
            proof {
                assert(!todo@.contains(n)) by {
                    if todo@.contains(n) {
                        let q = choose|q: int| 0 <= q < todo@.len() && todo@[q] == n;
                        assert(todo@[q] < n);
                    }
                }
            }
            todo.push(n);
            proof {
                assert forall|q1: int, q2: int| 0 <= q1 < q2 < todo@.len() implies (
                #[trigger] todo@[q1]) != (#[trigger] todo@[q2]) by {
                    if q2 == todo@.len() - 1 {
                        assert(todo@[q2] == n);
                        if todo@[q1] == n {
                            assert(old(todo)@[q1] == n);
                            assert(old(todo)@[q1] < n);
                        }
                    }
                }
            }
            n
        },
    }
}

/// A processed state stays processed: its own item set and tables are
/// untouched, the collection only grows, and diagnostics are only appended.
pub proof fn lemma_state_done_stable(
    g: Grammar,
    cs1: Seq<Closure>,
    ms1: Seq<AutomataState>,
    w1: Seq<Warning>,
    cs2: Seq<Closure>,
    ms2: Seq<AutomataState>,
    w2: Seq<Warning>,
    k: int,
)
    requires
        0 <= k < cs1.len(),
        state_done(g, cs1, ms1, w1, k),
        cs2.len() >= cs1.len(),
        forall|i: int| 0 <= i < cs1.len() ==> (#[trigger] cs2[i]) == cs1[i],
        k < ms2.len(),
        ms2[k] == ms1[k],
        forall|x: Warning| w1.contains(x) ==> w2.contains(x),
    ensures
        state_done(g, cs2, ms2, w2, k),
{
    let ks = cs1[k].key_set();
    let st = ms1[k];
    assert(cs2[k] == cs1[k]);
    assert forall|j: int| 0 <= j < st.shift_actions@.len() implies {
        let (t, n) = #[trigger] st.shift_actions@[j];
        &&& has_next(g.rules@, ks, GrammarSymbol::Token(t))
        &&& 0 <= n < cs2.len()
        &&& is_closure_of(
            g.rules@,
            goto_kernel(g.rules@, ks, GrammarSymbol::Token(t)),
            cs2[n as int].key_set(),
        )
    } by {
        let (t, n) = st.shift_actions@[j];
        assert(0 <= n < cs1.len());
        assert(cs2[n as int] == cs1[n as int]);
    }
    assert forall|j: int| 0 <= j < st.goto_actions@.len() implies {
        let (s, n) = #[trigger] st.goto_actions@[j];
        &&& has_next(g.rules@, ks, GrammarSymbol::Symbol(s))
        &&& 0 <= n < cs2.len()
        &&& is_closure_of(
            g.rules@,
            goto_kernel(g.rules@, ks, GrammarSymbol::Symbol(s)),
            cs2[n as int].key_set(),
        )
    } by {
        let (s, n) = st.goto_actions@[j];
        assert(0 <= n < cs1.len());
        assert(cs2[n as int] == cs1[n as int]);
    }
}

/// The identity encoding of an item, as one integer.
pub open spec fn key_enc(rules: Seq<Rule>, k: (int, int)) -> int {
    k.0 * ((max_rhs_len(rules) + 1) as int) + k.1
}

/// The encoded ordered view of an item set.
pub open spec fn closure_encs(c: Closure, rules: Seq<Rule>) -> Seq<int> {
    c.keys().map_values(|k: (int, int)| key_enc(rules, k))
}

/// The encoded ordered view of a well-formed item set is strictly increasing
/// and bounded by the number of distinct item identities.
pub proof fn lemma_closure_encs(c: Closure, rules: Seq<Rule>)
    requires
        c.wf(rules),
    ensures
        crate::bounds::strictly_increasing_below(
            closure_encs(c, rules),
            rules.len() * ((max_rhs_len(rules) + 1) as int),
        ),
{
    let m = (max_rhs_len(rules) + 1) as int;
    crate::closures::lemma_max_rhs_len(rules);
    let encs = closure_encs(c, rules);
    assert forall|i: int| 0 <= i < c.keys().len() implies 0 <= #[trigger] c.keys()[i].0
        < rules.len() && 0 <= c.keys()[i].1 < m by {
        assert(c.data@[i].wf(rules));
        assert(c.keys()[i] == item_key(c.data@[i]));
        assert(c.data@[i].rule.tokens@.len() == rules[c.data@[i].ruleno as int].tokens@.len());
    }
    assert forall|i: int, j: int| 0 <= i < j < encs.len() implies #[trigger] encs[i]
        < #[trigger] encs[j] by {
        let a = c.keys()[i];
        let b = c.keys()[j];
        assert(key_lt(a, b));
        if a.0 < b.0 {
            assert(a.0 * m + a.1 < (a.0 + 1) * m) by (nonlinear_arith)
                requires 0 <= a.1 < m;
            assert((a.0 + 1) * m <= b.0 * m) by (nonlinear_arith)
                requires a.0 + 1 <= b.0, m > 0;
        }
    }
    assert forall|i: int| 0 <= i < encs.len() implies 0 <= #[trigger] encs[i]
        < rules.len() * m by {
        let a = c.keys()[i];
        assert(0 <= a.0 * m + a.1) by (nonlinear_arith)
            requires 0 <= a.0, 0 <= a.1, m > 0;
        assert(a.0 * m + a.1 < rules.len() * m) by (nonlinear_arith)
            requires a.0 + 1 <= rules.len(), 0 <= a.1 < m, m > 0;
    }
}

/// Every state off the worklist is fully processed, and its semantic slot
/// holds its resolved marker.
pub open spec fn done_inv(
    g: Grammar,
    cs: Seq<Closure>,
    ms: Seq<AutomataState>,
    sems: Seq<Option<Semantic>>,
    todo: Seq<usize>,
    w: Seq<Warning>,
) -> bool {
    forall|k: int|
        0 <= k < cs.len() && !todo.contains(k as usize) ==> #[trigger] state_done(g, cs, ms, w, k)
            && sems[k] == last_marker(g, cs[k].keys())
}

/// The reduce dispatch table holds a rule's reduce-time marker exactly when
/// some processed state can reduce by that rule.
pub open spec fn rsems_inv(
    g: Grammar,
    cs: Seq<Closure>,
    todo: Seq<usize>,
    rs: Seq<Option<Semantic>>,
) -> bool {
    forall|r: int|
        0 <= r < g.rules@.len() ==> #[trigger] rs[r] == (if (exists|k: int|
            0 <= k < cs.len() && !todo.contains(k as usize) && reducible_in(
                g,
                (#[trigger] cs[k]).key_set(),
                r,
            )) {
            g.rules@[r].reduce_sem
        } else {
            None::<Semantic>
        })
}

/// Registering a fresh state keeps every processed state processed: the
/// newcomer sits on the worklist.
pub proof fn lemma_done_after_push(
    g: Grammar,
    cs: Seq<Closure>,
    ms: Seq<AutomataState>,
    sems: Seq<Option<Semantic>>,
    todo: Seq<usize>,
    w: Seq<Warning>,
    c: Closure,
    m: AutomataState,
    s0: Option<Semantic>,
)
    requires
        cs.len() <= usize::MAX,
        ms.len() == cs.len(),
        sems.len() == cs.len(),
        forall|q: int| 0 <= q < todo.len() ==> (#[trigger] todo[q]) < cs.len(),
        done_inv(g, cs, ms, sems, todo, w),
    ensures
        done_inv(
            g,
            cs.push(c),
            ms.push(m),
            sems.push(s0),
            todo.push(cs.len() as usize),
            w,
        ),
{
    let n = cs.len() as usize;
    let cs2 = cs.push(c);
    let ms2 = ms.push(m);
    let sems2 = sems.push(s0);
    let todo2 = todo.push(n);
    assert(todo2[todo2.len() - 1] == n);
    assert(todo2.contains(n));
    assert forall|k: int| 0 <= k < cs2.len() && !todo2.contains(k as usize) implies
        #[trigger] state_done(g, cs2, ms2, w, k) && sems2[k] == last_marker(g, cs2[k].keys()) by {
        assert(k < cs.len());
        assert(!todo.contains(k as usize)) by {
            if todo.contains(k as usize) {
                let q = choose|q: int| 0 <= q < todo.len() && todo[q] == k as usize;
                assert(todo2[q] == k as usize);
            }
        }
        assert(state_done(g, cs, ms, w, k));
        lemma_state_done_stable(g, cs, ms, w, cs2, ms2, w, k);
        assert(cs2[k] == cs[k]);
        assert(sems2[k] == sems[k]);
    }
    assert(done_inv(g, cs2, ms2, sems2, todo2, w));
}

/// Registering a fresh state leaves the reduce dispatch account intact: the
/// newcomer is queued, so the processed collection is unchanged.
pub proof fn lemma_rsems_after_push(
    g: Grammar,
    cs: Seq<Closure>,
    todo: Seq<usize>,
    rs: Seq<Option<Semantic>>,
    c: Closure,
)
    requires
        cs.len() <= usize::MAX,
        forall|q: int| 0 <= q < todo.len() ==> (#[trigger] todo[q]) < cs.len(),
        rsems_inv(g, cs, todo, rs),
    ensures
        rsems_inv(g, cs.push(c), todo.push(cs.len() as usize), rs),
{
    let n = cs.len() as usize;
    let cs2 = cs.push(c);
    let todo2 = todo.push(n);
    assert(todo2[todo2.len() - 1] == n);
    assert(todo2.contains(n));
    assert forall|r: int| 0 <= r < g.rules@.len() implies #[trigger] rs[r] == (if (exists|k: int|
        0 <= k < cs2.len() && !todo2.contains(k as usize) && reducible_in(
            g,
            (#[trigger] cs2[k]).key_set(),
            r,
        )) {
        g.rules@[r].reduce_sem
    } else {
        None::<Semantic>
    }) by {
        if exists|k: int|
            0 <= k < cs2.len() && !todo2.contains(k as usize) && reducible_in(
                g,
                (#[trigger] cs2[k]).key_set(),
                r,
            ) {
            let k = choose|k: int|
                0 <= k < cs2.len() && !todo2.contains(k as usize) && reducible_in(
                    g,
                    (#[trigger] cs2[k]).key_set(),
                    r,
                );
            assert(k < cs.len());
            assert(!todo.contains(k as usize)) by {
                if todo.contains(k as usize) {
                    let q = choose|q: int| 0 <= q < todo.len() && todo[q] == k as usize;
                    assert(todo2[q] == k as usize);
                }
            }
            assert(cs2[k] == cs[k]);
            assert(reducible_in(g, cs[k].key_set(), r));
        } else {
            if exists|k: int|
                0 <= k < cs.len() && !todo.contains(k as usize) && reducible_in(
                    g,
                    (#[trigger] cs[k]).key_set(),
                    r,
                ) {
                let k = choose|k: int|
                    0 <= k < cs.len() && !todo.contains(k as usize) && reducible_in(
                        g,
                        (#[trigger] cs[k]).key_set(),
                        r,
                    );
                assert(cs2[k] == cs[k]);
                assert(!todo2.contains(k as usize)) by {
                    assert((k as usize) as int == k);
                    if todo2.contains(k as usize) {
                        let q = choose|q: int| 0 <= q < todo2.len() && todo2[q] == k as usize;
                        if q < todo.len() {
                            assert(todo[q] == k as usize);
                        } else {
                            assert(todo2[q] == n);
                            assert(k as usize == n);
                            assert(k == n as int);
                        }
                    }
                }
                assert(reducible_in(g, cs2[k].key_set(), r));
            }
        }
    }
}

/// Processed states stay processed when diagnostics are appended.
pub proof fn lemma_done_mono(
    g: Grammar,
    cs: Seq<Closure>,
    ms: Seq<AutomataState>,
    sems: Seq<Option<Semantic>>,
    todo: Seq<usize>,
    w1: Seq<Warning>,
    w2: Seq<Warning>,
)
    requires
        ms.len() == cs.len(),
        done_inv(g, cs, ms, sems, todo, w1),
        forall|x: Warning| w1.contains(x) ==> w2.contains(x),
    ensures
        done_inv(g, cs, ms, sems, todo, w2),
{
    assert forall|k: int| 0 <= k < cs.len() && !todo.contains(k as usize) implies #[trigger] state_done(
        g,
        cs,
        ms,
        w2,
        k,
    ) && sems[k] == last_marker(g, cs[k].keys()) by {
        assert(state_done(g, cs, ms, w1, k));
        lemma_state_done_stable(g, cs, ms, w1, cs, ms, w2, k);
    }
}

/// Taking the head off a duplicate-free worklist removes exactly the head.
pub proof fn lemma_drop_first_contains(todo: Seq<usize>, cur: usize)
    requires
        todo.len() >= 1,
        todo[0] == cur,
        forall|q1: int, q2: int|
            0 <= q1 < q2 < todo.len() ==> (#[trigger] todo[q1]) != (#[trigger] todo[q2]),
    ensures
        !todo.drop_first().contains(cur),
        forall|k: usize| k != cur ==> (todo.drop_first().contains(k) == todo.contains(k)),
{
    let td = todo.drop_first();
    assert(!td.contains(cur)) by {
        if td.contains(cur) {
            let q = choose|q: int| 0 <= q < td.len() && td[q] == cur;
            assert(todo[q + 1] == cur);
            assert(todo[0] == todo[q + 1]);
        }
    }
    assert forall|k: usize| k != cur implies (td.contains(k) == todo.contains(k)) by {
        if td.contains(k) {
            let q = choose|q: int| 0 <= q < td.len() && td[q] == k;
            assert(todo[q + 1] == k);
            assert(todo.contains(k));
        }
        if todo.contains(k) {
            let q = choose|q: int| 0 <= q < todo.len() && todo[q] == k;
            assert(q != 0);
            assert(td[q - 1] == k);
            assert(td.contains(k));
        }
    }
}

/// The grammar symbol after the dot of an item identity, if any.
pub open spec fn key_next(g: Grammar, k: (int, int)) -> Option<GrammarSymbol> {
    if 0 <= k.0 < g.rules@.len() && 0 <= k.1 < g.rules@[k.0].tokens@.len() {
        Some(g.rules@[k.0].tokens@[k.1])
    } else {
        None
    }
}

/// Linear membership test on a vector of nonterminals.
fn contains_symbol(v: &Vec<Symbol>, s: Symbol) -> (r: bool)
    ensures
        r == v@.contains(s),
{
    let mut i: usize = 0;
    while i < v.len()
        invariant
            i <= v@.len(),
            forall|j: int| 0 <= j < i ==> v@[j] != s,
        decreases v@.len() - i,
    {
        if v[i].0 == s.0 {
            proof {
                assert(v@[i as int] == s);
            }
            return true;
        }
        i = i + 1;
    }
    false
}

/// Linear membership test on a vector of terminals.
fn contains_token(v: &Vec<Token>, t: Token) -> (r: bool)
    ensures
        r == v@.contains(t),
{
    let mut i: usize = 0;
    while i < v.len()
        invariant
            i <= v@.len(),
            forall|j: int| 0 <= j < i ==> v@[j] != t,
        decreases v@.len() - i,
    {
        if v[i].0 == t.0 {
            proof {
                assert(v@[i as int] == t);
            }
            return true;
        }
        i = i + 1;
    }
    false
}

/// A family of well-formed item sets with pairwise distinct ordered views is
/// no larger than the number of sets of item identities.
pub proof fn lemma_state_count_bound(closures: Seq<Closure>, rules: Seq<Rule>)
    requires
        forall|i: int| 0 <= i < closures.len() ==> (#[trigger] closures[i]).wf(rules),
        forall|i: int, j: int|
            0 <= i < j < closures.len() ==> (#[trigger] closures[i]).keys() != (
            #[trigger] closures[j]).keys(),
    ensures
        closures.len() <= vstd::arithmetic::power2::pow2(
            (rules.len() * ((max_rhs_len(rules) + 1) as int)) as nat,
        ),
{
    let n = rules.len() * ((max_rhs_len(rules) + 1) as int);
    let m = (max_rhs_len(rules) + 1) as int;
    let masks = Seq::new(
        closures.len(),
        |i: int| crate::bounds::bitmask_of(closure_encs(closures[i], rules)),
    );
    assert forall|i: int, j: int|
        0 <= i < masks.len() && 0 <= j < masks.len() && i != j implies masks[i] != masks[j] by {
        lemma_closure_encs(closures[i], rules);
        lemma_closure_encs(closures[j], rules);
        let e1 = closure_encs(closures[i], rules);
        let e2 = closure_encs(closures[j], rules);
        assert(e1 != e2) by {
            if e1 == e2 {
                assert(closures[i].keys() =~= closures[j].keys()) by {
                    assert(e1.len() == closures[i].keys().len());
                    assert forall|p: int| 0 <= p < closures[i].keys().len() implies closures[i].keys()[p]
                        == closures[j].keys()[p] by {
                        let a = closures[i].keys()[p];
                        let b = closures[j].keys()[p];
                        assert(e1[p] == key_enc(rules, a));
                        assert(e2[p] == key_enc(rules, b));
                        assert(closures[i].data@[p].wf(rules));
                        assert(closures[j].data@[p].wf(rules));
                        assert(a == item_key(closures[i].data@[p]));
                        assert(b == item_key(closures[j].data@[p]));
                        crate::closures::lemma_max_rhs_len(rules);
                        assert(0 <= a.1 < m && 0 <= b.1 < m) by {
                            assert(closures[i].data@[p].rule.tokens@.len() == rules[a.0].tokens@.len());
                            assert(closures[j].data@[p].rule.tokens@.len() == rules[b.0].tokens@.len());
                        }
                        assert(a == b) by (nonlinear_arith)
                            requires a.0 * m + a.1 == b.0 * m + b.1, 0 <= a.1 < m, 0 <= b.1 < m, m > 0;
                    }
                }
            }
        }
        crate::bounds::lemma_bitmask_injective(e1, e2, n);
    }
    assert forall|i: int| 0 <= i < masks.len() implies 0 <= #[trigger] masks[i]
        < vstd::arithmetic::power2::pow2(n as nat) by {
        lemma_closure_encs(closures[i], rules);
        crate::bounds::lemma_bitmask_range(closure_encs(closures[i], rules), n);
    }
    assert(masks.no_duplicates());
    crate::bounds::lemma_unique_bounded_int_seq_len(
        masks,
        0,
        vstd::arithmetic::power2::pow2(n as nat) as int,
    );
}

} // verus!

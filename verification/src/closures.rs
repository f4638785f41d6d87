//! LR(0) items and canonically ordered item sets.

use vstd::prelude::*;

use crate::grammar::{copy_vec, gs_wf, rule_eqv, Grammar, GrammarSymbol, Rule, Semantic};

verus! {

/// An LR(0) item: a rule with a dot position in `0..=rhs.len()`. Its identity
/// is the pair `(ruleno, position)`; the rule data rides along so the item
/// can be read without going back to the grammar.
#[derive(Debug, PartialEq, Eq)]
pub struct Item {
    pub rule: Rule,
    pub position: usize,
    pub ruleno: usize,
}

/// The identity of an item.
pub open spec fn item_key(it: Item) -> (int, int) {
    (it.ruleno as int, it.position as int)
}

/// Lexicographic order on item identities.
pub open spec fn key_lt(a: (int, int), b: (int, int)) -> bool {
    a.0 < b.0 || (a.0 == b.0 && a.1 < b.1)
}

/// Two items agree on identity and rule contents.
pub open spec fn item_eqv(a: Item, b: Item) -> bool {
    a.ruleno == b.ruleno && a.position == b.position && rule_eqv(a.rule, b.rule)
}

impl Clone for Item {
    fn clone(&self) -> (res: Self)
        ensures
            item_eqv(*self, res),
    {
        Item { rule: self.rule.clone(), position: self.position, ruleno: self.ruleno }
    }
}

impl Item {
    /// The item's rule number is in range, its rule data matches the
    /// grammar's rule of that number, and the dot sits inside the rule.
    pub open spec fn wf(self, rules: Seq<Rule>) -> bool {
        &&& self.ruleno < rules.len()
        &&& rule_eqv(self.rule, rules[self.ruleno as int])
        &&& self.position <= self.rule.tokens@.len()
    }

    /// A fresh item for the given rule, with the dot at the far left.
    pub fn new(rule: Rule, ruleno: usize) -> (r: Self)
        ensures
            r.rule == rule,
            r.position == 0,
            r.ruleno == ruleno,
    {
        Item { rule, position: 0, ruleno }
    }

    /// The inline semantic marker standing immediately before the dot's
    /// position, if any.
    pub fn current_sem(&self) -> (r: Option<Semantic>)
        ensures
            r == if self.position < self.rule.semantics@.len() {
                self.rule.semantics@[self.position as int]
            } else {
                None::<Semantic>
            },
    {
        if self.position < self.rule.semantics.len() {
            self.rule.semantics[self.position]
        } else {
            None
        }
    }

    /// The item with the dot moved one step to the right, saturating at the
    /// end of the right-hand side.
    pub fn advance(&self) -> (r: Self)
        ensures
            r.ruleno == self.ruleno,
            rule_eqv(r.rule, self.rule),
            r.position == if self.position + 1 <= self.rule.tokens@.len() {
                self.position + 1
            } else {
                self.rule.tokens@.len() as int
            },
    {
        let len = self.rule.tokens.len();
        let p = if self.position < len {
            self.position + 1
        } else {
            len
        };
        Item { rule: self.rule.clone(), position: p, ruleno: self.ruleno }
    }

    /// The grammar symbol immediately after the dot, or `None` when the dot
    /// is at the end (the item is reducible).
    pub fn next_gram_sym(&self) -> (r: Option<GrammarSymbol>)
        ensures
            r == if self.position < self.rule.tokens@.len() {
                Some(self.rule.tokens@[self.position as int])
            } else {
                None::<GrammarSymbol>
            },
    {
        if self.position < self.rule.tokens.len() {
            Some(self.rule.tokens[self.position])
        } else {
            None
        }
    }

    /// The grammar symbol immediately before the dot, or `None` when the dot
    /// is at the far left.
    pub fn current_gram_sym(&self) -> (r: Option<GrammarSymbol>)
        requires
            self.position <= self.rule.tokens@.len(),
        ensures
            r == if self.position == 0 {
                None::<GrammarSymbol>
            } else {
                Some(self.rule.tokens@[self.position - 1])
            },
    {
        if self.position == 0 {
            None
        } else {
            Some(self.rule.tokens[self.position - 1])
        }
    }
}

/// The display name of a grammar symbol.
pub open spec fn gs_name(g: Grammar, gs: GrammarSymbol) -> Seq<char> {
    match gs {
        GrammarSymbol::Token(t) => g.tokens@[t.0 as int]@,
        GrammarSymbol::Symbol(s) => g.symbols@[s.0 as int]@,
    }
}

/// The rendered right-hand side of an item from position `i` on: each symbol
/// name followed by a space, with the dot marker after position
/// `position - 1`.
pub open spec fn item_rhs_display(g: Grammar, r: int, i: int, position: int) -> Seq<char>
    decreases g.rules@[r].tokens@.len() - i,
{
    if i < 0 || i >= g.rules@[r].tokens@.len() {
        Seq::empty()
    } else {
        gs_name(g, g.rules@[r].tokens@[i]) + " "@ + (if i + 1 == position {
            "· "@
        } else {
            Seq::empty()
        }) + item_rhs_display(g, r, i + 1, position)
    }
}

/// The rendered item: left-hand side, arrow, and the right-hand side with
/// the dot marker.
pub open spec fn item_display(g: Grammar, r: int, position: int) -> Seq<char> {
    g.symbols@[g.rules@[r].symbol.0 as int]@ + " -> "@ + (if position == 0 {
        "· "@
    } else {
        Seq::empty()
    }) + item_rhs_display(g, r, 0, position)
}

impl Item {
    /// Renders the item for display, with a dot marking the position.
    pub fn to_string(&self, grammar: &Grammar) -> (r: String)
        requires
            grammar.wf(),
            self.wf(grammar.rules@),
        ensures
            r@ == item_display(*grammar, self.ruleno as int, self.position as int),
    {
        let ghost g = *grammar;
        let ghost rno = self.ruleno as int;
        let ghost pos = self.position as int;
        let mut s = String::new();
        proof {
            assert(self.rule.symbol == g.rules@[rno].symbol);
        }
        s.append(grammar.get_symbol(self.rule.symbol));
        s.append(" -> ");
        if self.position == 0 {
            s.append("· ");
        }
        proof {
            assert(s@ + item_rhs_display(g, rno, 0, pos) =~= item_display(g, rno, pos));
        }
        let n = self.rule.tokens.len();
        let mut i: usize = 0;
        while i < n
            invariant
                grammar.wf(),
                g == *grammar,
                self.wf(g.rules@),
                rno == self.ruleno as int,
                pos == self.position as int,
                n == self.rule.tokens@.len(),
                i <= n,
                s@ + item_rhs_display(g, rno, i as int, pos) == item_display(g, rno, pos),
            decreases n - i,
        {
            let ghost pre = s@;
            proof {
                assert(self.rule.tokens@ == g.rules@[rno].tokens@);
                assert(gs_wf(g.rules@[rno].tokens@[i as int], g.nsyms(), g.ntoks())) by {
                    assert(g.rules@[rno].wf(g.nsyms(), g.ntoks(), g.nsems()));
                }
            }
            s.append(grammar.get_grammar_symbol(self.rule.tokens[i]));
            s.append(" ");
            if i + 1 == self.position {
                s.append("· ");
            }
            proof {
                let nm = gs_name(g, g.rules@[rno].tokens@[i as int]);
                let dotp: Seq<char> = if i + 1 == pos {
                    "· "@
                } else {
                    Seq::<char>::empty()
                };
                assert(item_rhs_display(g, rno, i as int, pos) == nm + " "@ + dotp
                    + item_rhs_display(g, rno, i + 1, pos));
                assert(s@ =~= pre + nm + " "@ + dotp);
                assert(s@ + item_rhs_display(g, rno, i + 1, pos) =~= pre + item_rhs_display(
                    g,
                    rno,
                    i as int,
                    pos,
                ));
            }
            i = i + 1;
        }
        proof {
            assert(item_rhs_display(g, rno, n as int, pos) =~= Seq::<char>::empty());
            assert(s@ =~= s@ + item_rhs_display(g, rno, n as int, pos));
        }
        s
    }
}

/// Compares two items by identity.
fn item_key_lt(a: &Item, b: &Item) -> (r: bool)
    ensures
        r == key_lt(item_key(*a), item_key(*b)),
{
    a.ruleno < b.ruleno || (a.ruleno == b.ruleno && a.position < b.position)
}

/// Tests two items for equal identity.
fn item_key_eq(a: &Item, b: &Item) -> (r: bool)
    ensures
        r == (item_key(*a) == item_key(*b)),
{
    a.ruleno == b.ruleno && a.position == b.position
}

/// An item set kept as a vector sorted strictly by item identity: the sorted
/// vector is the set's canonical ordered view, so two item sets are equal
/// exactly when their vectors agree elementwise.
#[derive(Debug, PartialEq, Eq)]
pub struct Closure {
    pub data: Vec<Item>,
}

impl Closure {
    /// The ordered view: the items' identities in vector order.
    pub open spec fn keys(&self) -> Seq<(int, int)> {
        self.data@.map_values(|it: Item| item_key(it))
    }

    /// The identities as a set.
    pub open spec fn key_set(&self) -> Set<(int, int)> {
        self.keys().to_set()
    }

    /// Strictly ascending identities: no duplicates, canonical order.
    pub open spec fn sorted(&self) -> bool {
        forall|i: int, j: int|
            0 <= i < j < self.keys().len() ==> key_lt(#[trigger] self.keys()[i], #[trigger] self.keys()[j])
    }

    /// Sorted, and every item is well formed for the given rules.
    pub open spec fn wf(&self, rules: Seq<Rule>) -> bool {
        &&& self.sorted()
        &&& forall|i: int| 0 <= i < self.data@.len() ==> (#[trigger] self.data@[i]).wf(rules)
    }

    /// The empty item set.
    pub fn new() -> (r: Self)
        ensures
            r.data@.len() == 0,
            r.sorted(),
            r.key_set() == Set::<(int, int)>::empty(),
            forall|rules: Seq<Rule>| r.wf(rules),
    {
        let r = Closure { data: Vec::new() };
        proof {
            assert(r.key_set() =~= Set::<(int, int)>::empty());
        }
        r
    }

    /// Number of items.
    pub fn len(&self) -> (n: usize)
        ensures
            n == self.data@.len(),
    {
        self.data.len()
    }

    /// Adds an item at its sorted position; reports whether the set grew.
    pub fn add(&mut self, item: Item) -> (added: bool)
        requires
            old(self).sorted(),
        ensures
            final(self).sorted(),
            added == !old(self).key_set().contains(item_key(item)),
            final(self).key_set() == old(self).key_set().insert(item_key(item)),
            !added ==> *final(self) == *old(self),
            added ==> final(self).data@.len() == old(self).data@.len() + 1,
            forall|rules: Seq<Rule>|
                old(self).wf(rules) && item.wf(rules) ==> #[trigger] final(self).wf(rules),
    {
        let ghost k = item_key(item);
        let mut idx: usize = 0;
        loop
            invariant
                k == item_key(item),
                idx <= self.data@.len(),
                forall|j: int| 0 <= j < idx ==> key_lt(#[trigger] self.keys()[j], k),
            ensures
                idx <= self.data@.len(),
                forall|j: int| 0 <= j < idx ==> key_lt(#[trigger] self.keys()[j], k),
                idx < self.data@.len() ==> !key_lt(self.keys()[idx as int], k),
            decreases self.data@.len() - idx,
        {
            if idx >= self.data.len() {
                break;
            }
            proof {
                assert(self.keys()[idx as int] == item_key(self.data@[idx as int]));
            }
            if !item_key_lt(&self.data[idx], &item) {
                break;
            }
            idx = idx + 1;
        }
        if idx < self.data.len() && item_key_eq(&self.data[idx], &item) {
            proof {
                assert(self.keys()[idx as int] == k);
                assert(self.keys().contains(k));
                assert(self.key_set().contains(k));
                assert(self.key_set() =~= self.key_set().insert(k));
            }
            return false;
        }
        proof {
            // The insertion point splits the keys strictly around `k`.
            if idx < self.data@.len() {
                assert(!key_lt(self.keys()[idx as int], k));
                assert(self.keys()[idx as int] != k);
                assert(key_lt(k, self.keys()[idx as int]));
            }
            assert(!self.keys().contains(k)) by {
                if self.keys().contains(k) {
                    let j = choose|j: int| 0 <= j < self.keys().len() && self.keys()[j] == k;
                    if j < idx {
                        assert(key_lt(self.keys()[j], k));
                    } else if j > idx {
                        assert(key_lt(self.keys()[idx as int], self.keys()[j]));
                    }
                }
            }
            assert(!self.key_set().contains(k));
        }
        let ghost pre = self.data@;
        self.data.insert(idx, item);
        proof {
            assert(self.data@ == pre.insert(idx as int, item));
            assert(self.keys() =~= pre.map_values(|it: Item| item_key(it)).insert(idx as int, k)) by {
                assert forall|j: int| 0 <= j < self.keys().len() implies self.keys()[j]
                    == pre.map_values(|it: Item| item_key(it)).insert(idx as int, k)[j] by {
                    if j < idx {
                        assert(self.data@[j] == pre[j]);
                    } else if j == idx {
                        assert(self.data@[j] == item);
                    } else {
                        assert(self.data@[j] == pre[j - 1]);
                    }
                }
            }
            let ghost ks0 = pre.map_values(|it: Item| item_key(it));
            assert forall|i: int, j: int| 0 <= i < j < self.keys().len() implies key_lt(
                #[trigger] self.keys()[i],
                #[trigger] self.keys()[j],
            ) by {
                if i < idx && j < idx {
                    assert(self.keys()[i] == ks0[i] && self.keys()[j] == ks0[j]);
                } else if i < idx && j == idx {
                    assert(self.keys()[i] == ks0[i]);
                } else if i < idx && j > idx {
                    assert(self.keys()[i] == ks0[i] && self.keys()[j] == ks0[j - 1]);
                    if idx < ks0.len() {
                        assert(key_lt(ks0[i], k));
                    }
                    assert(i < j - 1 || key_lt(ks0[i], ks0[j - 1]) || i == j - 1);
                } else if i == idx && j > idx {
                    assert(self.keys()[j] == ks0[j - 1]);
                    assert(key_lt(k, ks0[idx as int]));
                    if j - 1 > idx {
                        assert(key_lt(ks0[idx as int], ks0[j - 1]));
                    }
                } else {
                    assert(self.keys()[i] == ks0[i - 1] && self.keys()[j] == ks0[j - 1]);
                }
            }
            assert(self.key_set() =~= old(self).key_set().insert(k)) by {
                assert forall|x: (int, int)| self.key_set().contains(x) implies old(
                    self,
                ).key_set().insert(k).contains(x) by {
                    let j = choose|j: int| 0 <= j < self.keys().len() && self.keys()[j] == x;
                    if j < idx {
                        assert(ks0[j] == x);
                        assert(ks0.contains(x));
                    } else if j > idx {
                        assert(ks0[j - 1] == x);
                        assert(ks0.contains(x));
                    }
                }
                assert forall|x: (int, int)| old(self).key_set().insert(k).contains(x) implies self
                    .key_set().contains(x) by {
                    if x == k {
                        assert(self.keys()[idx as int] == k);
                        assert(self.keys().contains(x));
                    } else {
                        let j = choose|j: int| 0 <= j < ks0.len() && ks0[j] == x;
                        if j < idx {
                            assert(self.keys()[j] == x);
                        } else {
                            assert(self.keys()[j + 1] == x);
                        }
                        assert(self.keys().contains(x));
                    }
                }
            }
            assert forall|rules: Seq<Rule>|
                old(self).wf(rules) && item.wf(rules) implies #[trigger] final(self).wf(rules) by {
                assert forall|i: int| 0 <= i < self.data@.len() implies (#[trigger] self.data@[i]).wf(
                    rules,
                ) by {
                    if i < idx {
                        assert(self.data@[i] == pre[i]);
                        assert(old(self).data@[i].wf(rules));
                    } else if i == idx {
                    } else {
                        assert(self.data@[i] == pre[i - 1]);
                        assert(old(self).data@[i - 1].wf(rules));
                    }
                }
            }
        }
        true
    }

    /// A copy of the items in canonical order.
    pub fn iter(&self) -> (r: Vec<Item>)
        ensures
            r@.len() == self.data@.len(),
            forall|i: int| 0 <= i < r@.len() ==> item_eqv(#[trigger] r@[i], self.data@[i]),
    {
        let mut r: Vec<Item> = Vec::new();
        let mut i: usize = 0;
        while i < self.data.len()
            invariant
                i <= self.data@.len(),
                r@.len() == i,
                forall|j: int| 0 <= j < i ==> item_eqv(#[trigger] r@[j], self.data@[j]),
            decreases self.data@.len() - i,
        {
            r.push(self.data[i].clone());
            i = i + 1;
        }
        r
    }

    /// The items in canonical order, by reference.
    pub fn ref_iter(&self) -> (r: &Vec<Item>)
        ensures
            r == &self.data,
    {
        &self.data
    }
}

/// The prediction obligation of one item identity `k`: when the dot stands
/// before a nonterminal `B`, every rule with left-hand side `B` contributes
/// its dot-at-far-left item.
pub open spec fn key_expands(rules: Seq<Rule>, ks: Set<(int, int)>, k: (int, int)) -> bool {
    0 <= k.0 < rules.len() && 0 <= k.1 < rules[k.0].tokens@.len() ==> match rules[k.0].tokens@[k.1] {
        GrammarSymbol::Token(_) => true,
        GrammarSymbol::Symbol(b) => forall|r2: int|
            0 <= r2 < rules.len() && (#[trigger] rules[r2]).symbol == b ==> ks.contains((r2, 0)),
    }
}

/// The identity set is closed under prediction.
pub open spec fn keyset_closed(rules: Seq<Rule>, ks: Set<(int, int)>) -> bool {
    forall|k: (int, int)| #[trigger] ks.contains(k) ==> key_expands(rules, ks, k)
}

/// `ks` is the closure of `base`: the least prediction-closed superset.
pub open spec fn is_closure_of(rules: Seq<Rule>, base: Set<(int, int)>, ks: Set<(int, int)>) -> bool {
    &&& base.subset_of(ks)
    &&& keyset_closed(rules, ks)
    &&& forall|s: Set<(int, int)>|
        base.subset_of(s) && #[trigger] keyset_closed(rules, s) ==> ks.subset_of(s)
}

/// The longest right-hand side among the rules.
pub open spec fn max_rhs_len(rules: Seq<Rule>) -> nat
    decreases rules.len(),
{
    if rules.len() == 0 {
        0
    } else {
        let m = max_rhs_len(rules.drop_last());
        let l = rules.last().tokens@.len();
        if l > m {
            l
        } else {
            m
        }
    }
}

/// Every right-hand side is at most the maximum.
pub proof fn lemma_max_rhs_len(rules: Seq<Rule>)
    ensures
        forall|r: int| 0 <= r < rules.len() ==> (#[trigger] rules[r]).tokens@.len() <= max_rhs_len(rules),
    decreases rules.len(),
{
    if rules.len() == 0 {
    } else {
        lemma_max_rhs_len(rules.drop_last());
        assert forall|r: int| 0 <= r < rules.len() implies (#[trigger] rules[r]).tokens@.len()
            <= max_rhs_len(rules) by {
            if r < rules.len() - 1 {
                assert(rules.drop_last()[r] == rules[r]);
            } else {
                assert(rules.last() == rules[r]);
            }
        }
    }
}

/// A well-formed item set holds at most one item per rule and position, so
/// its size is bounded by the number of distinct item identities.
pub proof fn lemma_closure_size_bound(c: &Closure, rules: Seq<Rule>)
    requires
        c.wf(rules),
    ensures
        c.data@.len() <= rules.len() * (max_rhs_len(rules) + 1),
{
    let m = (max_rhs_len(rules) + 1) as int;
    lemma_max_rhs_len(rules);
    let encf = |kk: (int, int)| kk.0 * m + kk.1;
    let encs = c.keys().map_values(encf);
    assert forall|i: int| 0 <= i < c.keys().len() implies 0 <= #[trigger] c.keys()[i].0
        < rules.len() && 0 <= c.keys()[i].1 < m by {
        assert(c.data@[i].wf(rules));
        assert(c.keys()[i] == item_key(c.data@[i]));
        assert(c.data@[i].rule.tokens@.len() == rules[c.data@[i].ruleno as int].tokens@.len());
    }
    assert forall|i: int, j: int| 0 <= i < j < c.keys().len() implies #[trigger] encs[i]
        < #[trigger] encs[j] by {
        let a = c.keys()[i];
        let b = c.keys()[j];
        assert(key_lt(a, b));
        if a.0 < b.0 {
            assert(a.0 * m + a.1 < (a.0 + 1) * m) by (nonlinear_arith)
                requires 0 <= a.1 < m;
            assert((a.0 + 1) * m <= b.0 * m) by (nonlinear_arith)
                requires a.0 + 1 <= b.0, m > 0;
            assert(b.0 * m <= b.0 * m + b.1);
        } else {
            assert(a.0 == b.0 && a.1 < b.1);
        }
    }
    assert(encs.no_duplicates()) by {
        assert forall|i: int, j: int|
            0 <= i < encs.len() && 0 <= j < encs.len() && i != j implies encs[i] != encs[j] by {
            if i < j {
                assert(encs[i] < encs[j]);
            } else {
                assert(encs[j] < encs[i]);
            }
        }
    }
    assert forall|i: int| 0 <= i < encs.len() implies 0 <= #[trigger] encs[i]
        < rules.len() * m by {
        let a = c.keys()[i];
        assert(0 <= a.0 * m + a.1) by (nonlinear_arith)
            requires 0 <= a.0, 0 <= a.1, m > 0;
        assert(a.0 * m + a.1 < rules.len() * m) by (nonlinear_arith)
            requires a.0 + 1 <= rules.len(), 0 <= a.1 < m, m > 0;
    }
    crate::bounds::lemma_unique_bounded_int_seq_len(encs, 0, rules.len() * m);
    assert(rules.len() * m == rules.len() * (max_rhs_len(rules) + 1));
}

/// Two sorted duplicate-free identity sequences with the same contents are
/// the same sequence.
pub proof fn lemma_sorted_keys_unique(s1: Seq<(int, int)>, s2: Seq<(int, int)>)
    requires
        forall|i: int, j: int| 0 <= i < j < s1.len() ==> key_lt(#[trigger] s1[i], #[trigger] s1[j]),
        forall|i: int, j: int| 0 <= i < j < s2.len() ==> key_lt(#[trigger] s2[i], #[trigger] s2[j]),
        s1.to_set() == s2.to_set(),
    ensures
        s1 == s2,
    decreases s1.len(),
{
    if s1.len() == 0 {
        if s2.len() > 0 {
            assert(s2.to_set().contains(s2[0]));
            assert(s1.contains(s2[0]));
        }
        assert(s1 =~= s2);
    } else {
        assert(s1.to_set().contains(s1[0]));
        assert(s2.contains(s1[0]));
        if s2.len() == 0 {
            assert(s2.to_set().contains(s1[0]));
        }
        assert(s2.to_set().contains(s2[0]));
        assert(s1.contains(s2[0]));
        // Both heads are the minimum of the shared contents, hence equal.
        let j1 = choose|j: int| 0 <= j < s2.len() && s2[j] == s1[0];
        let j2 = choose|j: int| 0 <= j < s1.len() && s1[j] == s2[0];
        if j1 > 0 {
            assert(key_lt(s2[0], s2[j1]));
        }
        if j2 > 0 {
            assert(key_lt(s1[0], s1[j2]));
        }
        assert(s1[0] == s2[0]);
        let t1 = s1.drop_first();
        let t2 = s2.drop_first();
        assert forall|i: int, j: int| 0 <= i < j < t1.len() implies key_lt(
            #[trigger] t1[i],
            #[trigger] t1[j],
        ) by {
            assert(t1[i] == s1[i + 1] && t1[j] == s1[j + 1]);
        }
        assert forall|i: int, j: int| 0 <= i < j < t2.len() implies key_lt(
            #[trigger] t2[i],
            #[trigger] t2[j],
        ) by {
            assert(t2[i] == s2[i + 1] && t2[j] == s2[j + 1]);
        }
        assert(t1.to_set() =~= t2.to_set()) by {
            assert forall|x: (int, int)| t1.to_set().contains(x) implies t2.to_set().contains(x) by {
                let j = choose|j: int| 0 <= j < t1.len() && t1[j] == x;
                assert(s1[j + 1] == x);
                assert(key_lt(s1[0], x));
                assert(s1.to_set().contains(x));
                assert(s2.contains(x));
                let j3 = choose|j3: int| 0 <= j3 < s2.len() && s2[j3] == x;
                assert(j3 > 0);
                assert(t2[j3 - 1] == x);
            }
            assert forall|x: (int, int)| t2.to_set().contains(x) implies t1.to_set().contains(x) by {
                let j = choose|j: int| 0 <= j < t2.len() && t2[j] == x;
                assert(s2[j + 1] == x);
                assert(key_lt(s2[0], x));
                assert(s2.to_set().contains(x));
                assert(s1.contains(x));
                let j3 = choose|j3: int| 0 <= j3 < s1.len() && s1[j3] == x;
                assert(j3 > 0);
                assert(t1[j3 - 1] == x);
            }
        }
        lemma_sorted_keys_unique(t1, t2);
        assert(s1 =~= s2) by {
            assert forall|i: int| 0 <= i < s1.len() implies s1[i] == s2[i] by {
                if i > 0 {
                    assert(t1[i - 1] == t2[i - 1]);
                }
            }
        }
    }
}

/// Two well-formed item sets with the same identities are the same ordered
/// view, and carry equivalent items: the canonical order makes an item set's
/// identity independent of how it was built.
pub proof fn lemma_canonical_form(c1: &Closure, c2: &Closure, rules: Seq<Rule>)
    requires
        c1.wf(rules),
        c2.wf(rules),
        c1.key_set() == c2.key_set(),
    ensures
        c1.keys() == c2.keys(),
        c1.data@.len() == c2.data@.len(),
        forall|i: int| 0 <= i < c1.data@.len() ==> item_eqv(#[trigger] c1.data@[i], c2.data@[i]),
{
    lemma_sorted_keys_unique(c1.keys(), c2.keys());
    assert forall|i: int| 0 <= i < c1.data@.len() implies item_eqv(
        #[trigger] c1.data@[i],
        c2.data@[i],
    ) by {
        assert(c1.keys()[i] == item_key(c1.data@[i]));
        assert(c2.keys()[i] == item_key(c2.data@[i]));
        assert(c1.data@[i].wf(rules));
        assert(c2.data@[i].wf(rules));
    }
}

/// Closing an already-closed item set gives back the same ordered view:
/// together with the contract of `closure` this states that `closure` is
/// idempotent.
pub proof fn lemma_closure_idempotent(c1: &Closure, c2: &Closure, rules: Seq<Rule>)
    requires
        c1.wf(rules),
        c2.wf(rules),
        keyset_closed(rules, c1.key_set()),
        is_closure_of(rules, c1.key_set(), c2.key_set()),
    ensures
        c1.keys() == c2.keys(),
        c1.data@.len() == c2.data@.len(),
        forall|i: int| 0 <= i < c1.data@.len() ==> item_eqv(#[trigger] c1.data@[i], c2.data@[i]),
{
    assert(c2.key_set().subset_of(c1.key_set()));
    assert(c1.key_set() =~= c2.key_set());
    lemma_canonical_form(c1, c2, rules);
}

/// Extends an item set to its closure: repeatedly, every item with the dot
/// before a nonterminal predicts all of that nonterminal's rules, until a
/// full pass adds nothing. The result is the least prediction-closed
/// superset of the input.
pub fn closure(items: Closure, grammar: &Grammar) -> (r: Closure)
    requires
        grammar.wf(),
        items.wf(grammar.rules@),
    ensures
        r.wf(grammar.rules@),
        is_closure_of(grammar.rules@, items.key_set(), r.key_set()),
{
    let ghost rules = grammar.rules@;
    let ghost base = items.key_set();
    let ghost ubound = rules.len() * (max_rhs_len(rules) + 1) as int;
    let mut items = items;
    let mut changed = true;
    proof {
        lemma_closure_size_bound(&items, rules);
    }
    while changed
        invariant
            grammar.wf(),
            rules == grammar.rules@,
            items.wf(rules),
            base.subset_of(items.key_set()),
            forall|s: Set<(int, int)>|
                base.subset_of(s) && #[trigger] keyset_closed(rules, s) ==> items.key_set().subset_of(s),
            !changed ==> keyset_closed(rules, items.key_set()),
            items.data@.len() <= ubound,
            ubound == rules.len() * (max_rhs_len(rules) + 1) as int,
        decreases
            ubound - items.data@.len(),
            (if changed { 1int } else { 0int }),
    {
        changed = false;
        let ghost data0 = items.data@;
        let ghost ks0 = items.key_set();
        let snapshot = items.iter();
        let mut i: usize = 0;
        while i < snapshot.len()
            invariant
                grammar.wf(),
                rules == grammar.rules@,
                items.wf(rules),
                base.subset_of(items.key_set()),
                forall|s: Set<(int, int)>|
                    base.subset_of(s) && #[trigger] keyset_closed(rules, s) ==> items.key_set().subset_of(s),
                i <= snapshot@.len(),
                snapshot@.len() == data0.len(),
                forall|j: int| 0 <= j < data0.len() ==> item_eqv(#[trigger] snapshot@[j], data0[j]),
                forall|j: int| 0 <= j < data0.len() ==> (#[trigger] data0[j]).wf(rules),
                ks0 == data0.map_values(|it: Item| item_key(it)).to_set(),
                ks0.subset_of(items.key_set()),
                items.data@.len() >= data0.len(),
                changed ==> items.data@.len() > data0.len(),
                !changed ==> items.data@ == data0 && items.key_set() == ks0,
                !changed ==> forall|j: int|
                    0 <= j < i ==> key_expands(rules, ks0, item_key(#[trigger] data0[j])),
            decreases snapshot@.len() - i,
        {
            let next = snapshot[i].next_gram_sym();
            match next {
                Some(GrammarSymbol::Symbol(b)) => {
                    let mut r2: usize = 0;
                    while r2 < grammar.rules.len()
                        invariant
                            grammar.wf(),
                            rules == grammar.rules@,
                            items.wf(rules),
                            base.subset_of(items.key_set()),
                            forall|s: Set<(int, int)>|
                                base.subset_of(s) && #[trigger] keyset_closed(rules, s)
                                    ==> items.key_set().subset_of(s),
                            i < snapshot@.len(),
                            snapshot@.len() == data0.len(),
                            forall|j: int|
                                0 <= j < data0.len() ==> item_eqv(#[trigger] snapshot@[j], data0[j]),
                            forall|j: int| 0 <= j < data0.len() ==> (#[trigger] data0[j]).wf(rules),
                            ks0 == data0.map_values(|it: Item| item_key(it)).to_set(),
                            ks0.subset_of(items.key_set()),
                            items.data@.len() >= data0.len(),
                            changed ==> items.data@.len() > data0.len(),
                            !changed ==> items.data@ == data0 && items.key_set() == ks0,
                            !changed ==> forall|j: int|
                                0 <= j < i ==> key_expands(rules, ks0, item_key(#[trigger] data0[j])),
                            r2 <= rules.len(),
                            data0[i as int].position < data0[i as int].rule.tokens@.len(),
                            data0[i as int].rule.tokens@[data0[i as int].position as int]
                                == GrammarSymbol::Symbol(b),
                            !changed ==> forall|r3: int|
                                0 <= r3 < r2 && (#[trigger] rules[r3]).symbol == b ==> ks0.contains(
                                    (r3, 0),
                                ),
                        decreases rules.len() - r2,
                    {
                        if grammar.rules[r2].symbol.0 == b.0 {
                            let it = Item::new(grammar.rules[r2].clone(), r2);
                            let ghost pre_ks = items.key_set();
                            let added = items.add(it);
                            proof {
                                assert(it.wf(rules));
                                assert(item_key(it) == (r2 as int, 0int));
                                // Any closed superset of the base already
                                // holds this predicted item.
                                assert forall|s: Set<(int, int)>|
                                    base.subset_of(s) && #[trigger] keyset_closed(rules, s)
                                        implies items.key_set().subset_of(s) by {
                                    assert(pre_ks.subset_of(s));
                                    let ki = item_key(data0[i as int]);
                                    assert(ks0.contains(ki)) by {
                                        let kseq = data0.map_values(|it: Item| item_key(it));
                                        assert(kseq[i as int] == ki);
                                        assert(kseq.contains(ki));
                                    }
                                    assert(s.contains(ki));
                                    assert(key_expands(rules, s, ki));
                                    assert(rules[ki.0].tokens@[ki.1] == GrammarSymbol::Symbol(b))
                                        by {
                                        assert(data0[i as int].wf(rules));
                                    }
                                    assert(s.contains((r2 as int, 0int)));
                                }
                            }
                            if added {
                                changed = true;
                            }
                        }
                        r2 = r2 + 1;
                        proof {
                            if !changed {
                                assert forall|r3: int|
                                    0 <= r3 < r2 && (#[trigger] rules[r3]).symbol == b implies ks0
                                    .contains((r3, 0)) by {
                                    if r3 == r2 - 1 {
                                        assert(items.key_set().contains((r3, 0)));
                                    }
                                }
                            }
                        }
                    }
                },
                _ => {},
            }
            i = i + 1;
            proof {
                if !changed {
                    assert forall|j: int| 0 <= j < i implies key_expands(
                        rules,
                        ks0,
                        item_key(#[trigger] data0[j]),
                    ) by {
                        if j == i - 1 {
                            let ki = item_key(data0[j]);
                            assert(data0[j].wf(rules));
                            if 0 <= ki.0 < rules.len() && 0 <= ki.1 < rules[ki.0].tokens@.len() {
                                assert(data0[j].position < data0[j].rule.tokens@.len());
                                assert(item_eqv(snapshot@[j], data0[j]));
                            }
                        }
                    }
                }
            }
        }
        proof {
            if !changed {
                assert(keyset_closed(rules, items.key_set())) by {
                    assert forall|k: (int, int)| #[trigger] items.key_set().contains(k) implies
                        key_expands(rules, items.key_set(), k) by {
                        let j = choose|j: int| 0 <= j < items.keys().len() && items.keys()[j] == k;
                        assert(items.keys()[j] == item_key(items.data@[j]));
                        assert(items.data@ == data0);
                        assert(key_expands(rules, ks0, item_key(data0[j])));
                    }
                }
            }
            lemma_closure_size_bound(&items, rules);
        }
    }
    items
}

impl Clone for Closure {
    fn clone(&self) -> (res: Self)
        ensures
            res.data@.len() == self.data@.len(),
            forall|i: int| 0 <= i < res.data@.len() ==> item_eqv(#[trigger] res.data@[i], self.data@[i]),
            res.keys() == self.keys(),
            res.key_set() == self.key_set(),
            res.sorted() == self.sorted(),
            forall|rules: Seq<Rule>| self.wf(rules) ==> #[trigger] res.wf(rules),
    {
        let res = Closure { data: self.iter() };
        proof {
            assert(res.keys() =~= self.keys());
            assert forall|rules: Seq<Rule>| self.wf(rules) implies #[trigger] res.wf(rules) by {
                assert forall|i: int| 0 <= i < res.data@.len() implies (#[trigger] res.data@[i]).wf(
                    rules,
                ) by {
                    assert(item_eqv(res.data@[i], self.data@[i]));
                    assert(self.data@[i].wf(rules));
                }
            }
        }
        res
    }
}

} // verus!

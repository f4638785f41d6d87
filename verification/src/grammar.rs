//! Grammar model: interned identifiers, rules, and the grammar itself.

use vstd::prelude::*;
use vstd::string::StrSliceExecFns;

use crate::first_follow::{
    compute_firsts, compute_follows, first_closed, first_form_spec, first_least, first_of_form,
    first_union, follow_closed, follow_least, form_syms_below, rules_syms_below, rules_toks_below,
    sets_view, sets_wf, ssets_below, sym_below,
};
use crate::tokenset::TokenSet;

verus! {

/// A nonterminal, as a dense index into the grammar's symbol table.
#[derive(Debug, Clone, Copy, PartialEq, Eq, Hash, Structural)]
pub struct Symbol(pub usize);

/// A terminal, as a dense index into the grammar's token table.
#[derive(Debug, Clone, Copy, PartialEq, Eq, Hash, Structural)]
pub struct Token(pub usize);

/// A semantic-action name, as a dense index into the grammar's table of
/// semantic names.
#[derive(Debug, Clone, Copy, PartialEq, Eq, Hash, Structural)]
pub struct Semantic(pub usize);

/// One element of a rule's right-hand side: either a terminal or a
/// nonterminal.
#[derive(Debug, Clone, Copy, PartialEq, Eq, Structural)]
pub enum GrammarSymbol {
    Token(Token),
    Symbol(Symbol),
}

/// A production rule `symbol -> tokens`, together with its inline semantic
/// markers (`semantics[i]` is the marker standing immediately before
/// right-hand-side position `i`; index `tokens.len()` is a marker at the very
/// end) and its optional reduce-time marker.
#[derive(Debug, PartialEq, Eq)]
pub struct Rule {
    pub symbol: Symbol,
    pub tokens: Vec<GrammarSymbol>,
    pub semantics: Vec<Option<Semantic>>,
    pub reduce_sem: Option<Semantic>,
}

/// Field-wise equivalence of two rules, comparing the vectors by contents.
pub open spec fn rule_eqv(a: Rule, b: Rule) -> bool {
    &&& a.symbol == b.symbol
    &&& a.tokens@ == b.tokens@
    &&& a.semantics@ == b.semantics@
    &&& a.reduce_sem == b.reduce_sem
}

/// Copies a vector of `Copy` elements.
pub fn copy_vec<T: Copy>(v: &Vec<T>) -> (r: Vec<T>)
    ensures
        r@ == v@,
{
    let mut r: Vec<T> = Vec::new();
    let mut i: usize = 0;
    while i < v.len()
        invariant
            i <= v.len(),
            r@ == v@.take(i as int),
        decreases v.len() - i,
    {
        r.push(v[i]);
        i = i + 1;
        proof {
            assert(r@ =~= v@.take(i as int));
        }
    }
    proof {
        assert(v@.take(v@.len() as int) =~= v@);
    }
    r
}

impl Clone for Rule {
    fn clone(&self) -> (res: Self)
        ensures
            rule_eqv(*self, res),
    {
        Rule {
            symbol: self.symbol,
            tokens: copy_vec(&self.tokens),
            semantics: copy_vec(&self.semantics),
            reduce_sem: self.reduce_sem,
        }
    }
}

/// The grammar symbol names only identifiers in range for the given table
/// sizes.
pub open spec fn gs_wf(gs: GrammarSymbol, nsyms: nat, ntoks: nat) -> bool {
    match gs {
        GrammarSymbol::Token(t) => t.0 < ntoks,
        GrammarSymbol::Symbol(s) => s.0 < nsyms,
    }
}

/// The optional semantic marker, if present, is in range.
pub open spec fn sem_wf(m: Option<Semantic>, nsems: nat) -> bool {
    match m {
        Some(s) => s.0 < nsems,
        None => true,
    }
}

impl Rule {
    /// The rule is internally consistent and all identifiers it mentions are
    /// in range for a grammar with the given table sizes.
    pub open spec fn wf(&self, nsyms: nat, ntoks: nat, nsems: nat) -> bool {
        &&& self.symbol.0 < nsyms
        &&& forall|i: int| 0 <= i < self.tokens@.len() ==> gs_wf(#[trigger] self.tokens@[i], nsyms, ntoks)
        &&& self.semantics@.len() <= self.tokens@.len() + 1
        &&& forall|i: int| 0 <= i < self.semantics@.len() ==> sem_wf(#[trigger] self.semantics@[i], nsems)
        &&& sem_wf(self.reduce_sem, nsems)
    }
}

/// Every rule is well formed for the given table sizes.
pub open spec fn rules_wf(rules: Seq<Rule>, nsyms: nat, ntoks: nat, nsems: nat) -> bool {
    forall|r: int| 0 <= r < rules.len() ==> (#[trigger] rules[r]).wf(nsyms, ntoks, nsems)
}

/// Well-formed rules keep their nonterminals and terminals in range.
pub proof fn lemma_rules_wf_below(rules: Seq<Rule>, nsyms: nat, ntoks: nat, nsems: nat)
    requires
        rules_wf(rules, nsyms, ntoks, nsems),
    ensures
        rules_syms_below(rules, nsyms),
        rules_toks_below(rules, ntoks),
{
    assert forall|r: int| 0 <= r < rules.len() implies (#[trigger] rules[r]).symbol.0 < nsyms
        && form_syms_below(rules[r].tokens@, nsyms) && crate::first_follow::form_toks_below(
        rules[r].tokens@,
        ntoks,
    ) by {
        assert(rules[r].wf(nsyms, ntoks, nsems));
        assert forall|i: int| 0 <= i < rules[r].tokens@.len() implies sym_below(
            #[trigger] rules[r].tokens@[i],
            nsyms,
        ) && match rules[r].tokens@[i] {
            GrammarSymbol::Token(t) => t.0 < ntoks,
            GrammarSymbol::Symbol(_) => true,
        } by {
            assert(gs_wf(rules[r].tokens@[i], nsyms, ntoks));
        }
    }
}

/// Rule well-formedness survives growth of the terminal and semantic tables.
pub proof fn lemma_rules_wf_mono(
    rules: Seq<Rule>,
    ns: nat,
    nt1: nat,
    nm1: nat,
    nt2: nat,
    nm2: nat,
)
    requires
        rules_wf(rules, ns, nt1, nm1),
        nt1 <= nt2,
        nm1 <= nm2,
    ensures
        rules_wf(rules, ns, nt2, nm2),
{
    assert forall|r: int| 0 <= r < rules.len() implies (#[trigger] rules[r]).wf(ns, nt2, nm2) by {
        assert(rules[r].wf(ns, nt1, nm1));
        assert forall|i: int| 0 <= i < rules[r].tokens@.len() implies gs_wf(
            #[trigger] rules[r].tokens@[i],
            ns,
            nt2,
        ) by {
            assert(gs_wf(rules[r].tokens@[i], ns, nt1));
        }
        assert forall|i: int| 0 <= i < rules[r].semantics@.len() implies sem_wf(
            #[trigger] rules[r].semantics@[i],
            nm2,
        ) by {
            assert(sem_wf(rules[r].semantics@[i], nm1));
        }
    }
}

/// Interning a fresh name keeps the table duplicate-free.
pub proof fn lemma_names_distinct_after(arr0: Seq<String>, arr1: Seq<String>, name: Seq<char>)
    requires
        names_distinct(arr0),
        names_contain(arr0, name) ==> arr1 == arr0,
        !names_contain(arr0, name) ==> arr1.len() == arr0.len() + 1 && arr1[arr0.len() as int]@
            == name && (forall|j: int| 0 <= j < arr0.len() ==> arr1[j] == arr0[j]),
    ensures
        names_distinct(arr1),
        arr1.len() >= arr0.len(),
{
    if !names_contain(arr0, name) {
        assert forall|i2: int, j2: int| 0 <= i2 < j2 < arr1.len() implies (#[trigger] arr1[i2])@
            != (#[trigger] arr1[j2])@ by {
            if j2 < arr1.len() - 1 {
                assert(arr1[i2] == arr0[i2] && arr1[j2] == arr0[j2]);
            } else {
                assert(arr1[i2] == arr0[i2]);
                if arr1[i2]@ == name {
                    assert(names_contain(arr0, name));
                }
            }
        }
    }
}

/// Compares two string slices character by character.
pub fn str_eq(a: &str, b: &str) -> (r: bool)
    ensures
        r == (a@ == b@),
{
    let na = a.unicode_len();
    let nb = b.unicode_len();
    if na != nb {
        return false;
    }
    let mut i: usize = 0;
    while i < na
        invariant
            i <= na,
            na == a@.len(),
            na == b@.len(),
            forall|j: int| 0 <= j < i ==> a@[j] == b@[j],
        decreases na - i,
    {
        if a.get_char(i) != b.get_char(i) {
            return false;
        }
        i = i + 1;
    }
    proof {
        assert(a@ =~= b@);
    }
    true
}

/// The sequence of interned names holds `name`.
pub open spec fn names_contain(arr: Seq<String>, name: Seq<char>) -> bool {
    exists|j: int| 0 <= j < arr.len() && (#[trigger] arr[j])@ == name
}

/// Finds the first entry equal to `name`.
pub fn find_name(arr: &Vec<String>, name: &str) -> (r: Option<usize>)
    ensures
        match r {
            Some(i) => i < arr@.len() && arr@[i as int]@ == name@ && forall|j: int|
                0 <= j < i ==> (#[trigger] arr@[j])@ != name@,
            None => !names_contain(arr@, name@),
        },
{
    let mut i: usize = 0;
    while i < arr.len()
        invariant
            i <= arr@.len(),
            forall|j: int| 0 <= j < i ==> (#[trigger] arr@[j])@ != name@,
        decreases arr@.len() - i,
    {
        if str_eq(arr[i].as_str(), name) {
            return Some(i);
        }
        i = i + 1;
    }
    None
}

/// Interns `name` into `arr`: returns the index of the first equal entry, or
/// appends `name` and returns its new index.
pub fn add_or_get(arr: &mut Vec<String>, name: &str) -> (i: usize)
    ensures
        i < final(arr)@.len(),
        final(arr)@[i as int]@ == name@,
        forall|j: int| 0 <= j < i ==> (#[trigger] final(arr)@[j])@ != name@,
        names_contain(old(arr)@, name@) ==> final(arr)@ == old(arr)@,
        !names_contain(old(arr)@, name@) ==> final(arr)@.len() == old(arr)@.len() + 1
            && i == old(arr)@.len() && (forall|j: int|
            0 <= j < old(arr)@.len() ==> final(arr)@[j] == old(arr)@[j]),
{
    match find_name(arr, name) {
        Some(i) => {
            proof {
                assert(names_contain(arr@, name@));
            }
            i
        },
        None => {
            let i = arr.len();
            arr.push(name.to_owned());
            i
        },
    }
}

/// A character counted as whitespace when splitting grammar lines.
pub open spec fn is_ws(c: char) -> bool {
    c == ' ' || c == '\t' || c == '\n' || c == '\r' || c == '\u{b}' || c == '\u{c}'
}

/// Whitespace test for one character.
pub fn is_ws_char(c: char) -> (r: bool)
    ensures
        r == is_ws(c),
{
    c == ' ' || c == '\t' || c == '\n' || c == '\r' || c == '\u{b}' || c == '\u{c}'
}

/// The characters of a string slice, in order.
pub fn str_chars(s: &str) -> (r: Vec<char>)
    ensures
        r@ == s@,
{
    let n = s.unicode_len();
    let mut r: Vec<char> = Vec::new();
    let mut i: usize = 0;
    while i < n
        invariant
            i <= n,
            n == s@.len(),
            r@ == s@.take(i as int),
        decreases n - i,
    {
        r.push(s.get_char(i));
        proof {
            assert(r@ =~= s@.take(i + 1));
        }
        i = i + 1;
    }
    proof {
        assert(s@.take(n as int) =~= s@);
    }
    r
}

/// Relies on `String`'s `FromIterator` over `char`: collecting characters
/// yields the string of exactly those characters in order.
#[verifier::external_body]
fn chars_to_string(v: &Vec<char>) -> (r: String)
    ensures
        r@ == v@,
{
    v.iter().collect()
}

/// A copy of the characters in `[from, to)`.
pub fn subvec(v: &Vec<char>, from: usize, to: usize) -> (r: Vec<char>)
    requires
        from <= to <= v@.len(),
    ensures
        r@ == v@.subrange(from as int, to as int),
{
    let mut r: Vec<char> = Vec::new();
    let mut i: usize = from;
    while i < to
        invariant
            from <= i <= to <= v@.len(),
            r@ == v@.subrange(from as int, i as int),
        decreases to - i,
    {
        r.push(v[i]);
        proof {
            assert(r@ =~= v@.subrange(from as int, i + 1));
        }
        i = i + 1;
    }
    r
}

/// The line holds a rule arrow `->` somewhere.
pub open spec fn has_arrow(s: Seq<char>) -> bool {
    exists|i: int| 0 <= i && i + 1 < s.len() && (#[trigger] s[i]) == '-' && s[i + 1] == '>'
}

/// The position of the first rule arrow of the line.
pub open spec fn arrow_pos(s: Seq<char>) -> int
    decreases s.len(),
{
    if s.len() < 2 {
        0
    } else if s[0] == '-' && s[1] == '>' {
        0
    } else {
        1 + arrow_pos(s.drop_first())
    }
}

/// On a line with an arrow, `arrow_pos` names the first one.
pub proof fn lemma_arrow_pos(s: Seq<char>)
    requires
        has_arrow(s),
    ensures
        0 <= arrow_pos(s),
        arrow_pos(s) + 1 < s.len(),
        s[arrow_pos(s)] == '-',
        s[arrow_pos(s) + 1] == '>',
        forall|j: int| 0 <= j < arrow_pos(s) ==> !((#[trigger] s[j]) == '-' && s[j + 1] == '>'),
    decreases s.len(),
{
    if s.len() < 2 {
        let a = choose|a: int| 0 <= a && a + 1 < s.len() && (#[trigger] s[a]) == '-' && s[a + 1] == '>';
        assert(false);
    } else if s[0] == '-' && s[1] == '>' {
    } else {
        let t = s.drop_first();
        assert(has_arrow(t)) by {
            let a = choose|a: int|
                0 <= a && a + 1 < s.len() && (#[trigger] s[a]) == '-' && s[a + 1] == '>';
            assert(a >= 1);
            assert(t[a - 1] == s[a] && t[a] == s[a + 1]);
        }
        lemma_arrow_pos(t);
        assert(s[arrow_pos(s)] == t[arrow_pos(t)]);
        assert(s[arrow_pos(s) + 1] == t[arrow_pos(t) + 1]);
        assert forall|j: int| 0 <= j < arrow_pos(s) implies !((#[trigger] s[j]) == '-' && s[j + 1]
            == '>') by {
            if j >= 1 {
                assert(t[j - 1] == s[j] && t[j] == s[j + 1]);
            }
        }
    }
}

/// Finds the first rule arrow.
pub fn find_arrow(v: &Vec<char>) -> (r: Option<usize>)
    ensures
        match r {
            Some(a) => a + 1 < v@.len() && v@[a as int] == '-' && v@[a as int + 1] == '>'
                && (forall|j: int|
                0 <= j < a ==> !((#[trigger] v@[j]) == '-' && v@[j + 1] == '>')) && a as int
                == arrow_pos(v@),
            None => !has_arrow(v@),
        },
{
    if v.len() == 0 {
        return None;
    }
    let mut i: usize = 0;
    while i < v.len() - 1
        invariant
            v@.len() >= 1,
            i <= v@.len(),
            forall|j: int| 0 <= j && j < i ==> !((#[trigger] v@[j]) == '-' && v@[j + 1] == '>'),
        decreases v@.len() - i,
    {
        if v[i] == '-' && v[i + 1] == '>' {
            proof {
                lemma_arrow_pos(v@);
                if (i as int) < arrow_pos(v@) {
                    assert(false);
                }
                if arrow_pos(v@) < i as int {
                    assert(!(v@[arrow_pos(v@)] == '-' && v@[arrow_pos(v@) + 1] == '>'));
                }
            }
            return Some(i);
        }
        i = i + 1;
    }
    proof {
        assert(!has_arrow(v@)) by {
            if has_arrow(v@) {
                let j = choose|j: int| 0 <= j && j + 1 < v@.len() && (#[trigger] v@[j]) == '-' && v@[j + 1] == '>';
                assert(j < i);
            }
        }
    }
    None
}

/// The sequence without its leading whitespace.
pub open spec fn trim_front(s: Seq<char>) -> Seq<char>
    decreases s.len(),
{
    if s.len() > 0 && is_ws(s[0]) {
        trim_front(s.drop_first())
    } else {
        s
    }
}

/// The sequence without its trailing whitespace.
pub open spec fn trim_back(s: Seq<char>) -> Seq<char>
    decreases s.len(),
{
    if s.len() > 0 && is_ws(s.last()) {
        trim_back(s.drop_last())
    } else {
        s
    }
}

/// The sequence without leading and trailing whitespace.
pub open spec fn trim_of(s: Seq<char>) -> Seq<char> {
    trim_back(trim_front(s))
}

/// Dropping the leading whitespace is skipping up to the first non-blank.
pub proof fn lemma_trim_front_skip(s: Seq<char>, k: int)
    requires
        0 <= k <= s.len(),
        forall|j: int| 0 <= j < k ==> is_ws(s[j]),
        k == s.len() || !is_ws(s[k]),
    ensures
        trim_front(s) == s.skip(k),
    decreases k,
{
    if k == 0 {
        assert(s.skip(0) =~= s);
    } else {
        let t = s.drop_first();
        assert(t =~= s.skip(1));
        lemma_trim_front_skip(t, k - 1);
        assert(t.skip(k - 1) =~= s.skip(k));
    }
}

/// Dropping the trailing whitespace is taking up to the last non-blank.
pub proof fn lemma_trim_back_take(s: Seq<char>, h: int)
    requires
        -1 <= h < s.len(),
        forall|j: int| h < j < s.len() ==> is_ws(s[j]),
        h == -1 || !is_ws(s[h]),
    ensures
        trim_back(s) == s.take(h + 1),
    decreases s.len(),
{
    if h == s.len() - 1 {
        assert(s.take(h + 1) =~= s);
        if s.len() > 0 {
            assert(!is_ws(s.last()));
        }
    } else {
        let t = s.drop_last();
        assert(is_ws(s.last()));
        lemma_trim_back_take(t, h);
        assert(t.take(h + 1) =~= s.take(h + 1));
    }
}

/// The trimmed copy of the characters in `[from, to)`.
pub fn trimmed_sub(v: &Vec<char>, from: usize, to: usize) -> (r: Vec<char>)
    requires
        from <= to <= v@.len(),
    ensures
        r@ == trim_of(v@.subrange(from as int, to as int)),
{
    let ghost sub = v@.subrange(from as int, to as int);
    let mut lo: usize = from;
    loop
        invariant
            from <= lo <= to <= v@.len(),
            forall|j: int| from <= j < lo ==> is_ws(v@[j]),
        ensures
            from <= lo <= to,
            forall|j: int| from <= j < lo ==> is_ws(v@[j]),
            lo < to ==> !is_ws(v@[lo as int]),
        decreases to - lo,
    {
        if lo >= to {
            break;
        }
        if !is_ws_char(v[lo]) {
            break;
        }
        lo = lo + 1;
    }
    proof {
        assert(forall|j: int| 0 <= j < lo - from ==> sub[j] == v@[from + j] && is_ws(#[trigger] sub[j]));
        if lo < to {
            assert(sub[lo - from] == v@[lo as int]);
        }
        lemma_trim_front_skip(sub, lo - from);
    }
    if lo == to {
        proof {
            assert(trim_front(sub) =~= Seq::<char>::empty());
            assert(trim_of(sub) =~= Seq::<char>::empty());
        }
        return Vec::new();
    }
    let mut hi: usize = to - 1;
    loop
        invariant
            lo <= hi < to <= v@.len(),
            forall|j: int| hi < j < to ==> is_ws(v@[j]),
            !is_ws(v@[lo as int]),
        ensures
            lo <= hi < to,
            forall|j: int| hi < j < to ==> is_ws(v@[j]),
            !is_ws(v@[hi as int]),
        decreases hi,
    {
        if hi == lo {
            break;
        }
        if !is_ws_char(v[hi]) {
            break;
        }
        hi = hi - 1;
    }
    let r = subvec(v, lo, hi + 1);
    proof {
        let tf = trim_front(sub);
        assert(tf == sub.skip(lo - from));
        assert(tf.len() == to - lo);
        assert(forall|j: int| 0 <= j < tf.len() ==> tf[j] == v@[lo + j]);
        assert(forall|j: int| hi + 1 - lo <= j < tf.len() ==> is_ws(#[trigger] tf[j]));
        assert(!is_ws(tf[hi - lo]));
        lemma_trim_back_take(tf, hi - lo);
        assert(trim_back(tf) == tf.take(hi + 1 - lo));
        assert(r@ =~= tf.take(hi + 1 - lo));
    }
    r
}

/// The left-hand-side name of a rule line: what stands before the first
/// arrow, trimmed.
pub open spec fn lhs_of(s: Seq<char>) -> Seq<char> {
    trim_of(s.take(arrow_pos(s)))
}

/// The right-hand side of a rule line: what stands after the first arrow.
pub open spec fn rhs_of(s: Seq<char>) -> Seq<char> {
    s.skip(arrow_pos(s) + 2)
}

/// The line carries a rule: it is nonempty and holds an arrow.
pub open spec fn line_valid(s: Seq<char>) -> bool {
    s.len() > 0 && has_arrow(s)
}

/// The rule lines of the source, in order: the nonempty lines with an arrow.
pub open spec fn rule_lines(lines: Seq<String>) -> Seq<Seq<char>>
    decreases lines.len(),
{
    if lines.len() == 0 {
        Seq::empty()
    } else {
        rule_lines(lines.drop_last()) + (if line_valid(lines.last()@) {
            seq![lines.last()@]
        } else {
            Seq::<Seq<char>>::empty()
        })
    }
}

/// Every rule line is one of the source lines.
pub proof fn lemma_rule_lines_member(lines: Seq<String>, k: int)
    requires
        0 <= k < rule_lines(lines).len(),
    ensures
        exists|i: int|
            0 <= i < lines.len() && (#[trigger] lines[i])@ == rule_lines(lines)[k] && line_valid(
                lines[i]@,
            ),
    decreases lines.len(),
{
    let front = rule_lines(lines.drop_last());
    if k < front.len() {
        lemma_rule_lines_member(lines.drop_last(), k);
        let i = choose|i: int|
            0 <= i < lines.drop_last().len() && (#[trigger] lines.drop_last()[i])@ == rule_lines(
                lines.drop_last(),
            )[k] && line_valid(lines.drop_last()[i]@);
        assert(lines[i] == lines.drop_last()[i]);
        assert(rule_lines(lines)[k] == front[k]);
    } else {
        assert(line_valid(lines.last()@));
        assert(rule_lines(lines)[k] == lines.last()@);
        assert(lines[lines.len() - 1] == lines.last());
    }
}

/// Every rule-carrying source line appears among the rule lines.
pub proof fn lemma_rule_lines_covers(lines: Seq<String>, i: int)
    requires
        0 <= i < lines.len(),
        line_valid(lines[i]@),
    ensures
        exists|k: int|
            0 <= k < rule_lines(lines).len() && (#[trigger] rule_lines(lines)[k]) == lines[i]@,
    decreases lines.len(),
{
    let front = rule_lines(lines.drop_last());
    if i < lines.len() - 1 {
        assert(lines.drop_last()[i] == lines[i]);
        lemma_rule_lines_covers(lines.drop_last(), i);
        let k = choose|k: int|
            0 <= k < front.len() && (#[trigger] front[k]) == lines.drop_last()[i]@;
        assert(rule_lines(lines)[k] == front[k]);
    } else {
        assert(rule_lines(lines)[front.len() as int] == lines.last()@);
    }
}

/// The names of the rule lines' left-hand sides, in order.
pub open spec fn lhs_names(lines: Seq<String>) -> Seq<Seq<char>> {
    rule_lines(lines).map_values(|l: Seq<char>| lhs_of(l))
}

/// The table after interning one name: unchanged when the name is present,
/// else the name appended.
pub open spec fn interned(tab: Seq<Seq<char>>, name: Seq<char>) -> Seq<Seq<char>> {
    if tab.contains(name) {
        tab
    } else {
        tab.push(name)
    }
}

/// The table after interning the names left to right.
pub open spec fn intern_names(tab: Seq<Seq<char>>, names: Seq<Seq<char>>) -> Seq<Seq<char>>
    decreases names.len(),
{
    if names.len() == 0 {
        tab
    } else {
        interned(intern_names(tab, names.drop_last()), names.last())
    }
}

/// The index of the first table entry equal to the name.
pub open spec fn name_slot(tab: Seq<Seq<char>>, name: Seq<char>) -> int
    decreases tab.len(),
{
    if tab.len() == 0 {
        0
    } else if tab[0] == name {
        0
    } else {
        1 + name_slot(tab.drop_first(), name)
    }
}

/// An index whose entry is the first one spelling the name is its slot.
pub proof fn lemma_name_slot_witness(tab: Seq<Seq<char>>, name: Seq<char>, i: int)
    requires
        0 <= i < tab.len(),
        tab[i] == name,
        forall|j: int| 0 <= j < i ==> tab[j] != name,
    ensures
        name_slot(tab, name) == i,
    decreases tab.len(),
{
    if tab[0] == name {
        assert(i == 0);
    } else {
        let t = tab.drop_first();
        assert(t[i - 1] == name);
        assert(forall|j: int| 0 <= j < i - 1 ==> t[j] == tab[j + 1] && #[trigger] t[j] != name);
        lemma_name_slot_witness(t, name, i - 1);
    }
}

/// Interning a fresh name puts it at the end.
pub proof fn lemma_name_slot_push(tab: Seq<Seq<char>>, name: Seq<char>)
    requires
        !tab.contains(name),
    ensures
        name_slot(tab.push(name), name) == tab.len(),
    decreases tab.len(),
{
    let p = tab.push(name);
    if tab.len() == 0 {
        assert(p[0] == name);
    } else {
        assert(tab[0] != name);
        assert(p[0] == tab[0]);
        assert(p.drop_first() =~= tab.drop_first().push(name));
        assert(!tab.drop_first().contains(name)) by {
            if tab.drop_first().contains(name) {
                let j = choose|j: int|
                    0 <= j < tab.drop_first().len() && tab.drop_first()[j] == name;
                assert(tab[j + 1] == name);
            }
        }
        lemma_name_slot_push(tab.drop_first(), name);
    }
}

/// Splits the characters into whitespace-separated words, carrying the
/// word under construction.
pub open spec fn words_acc(s: Seq<char>, i: int, cur: Seq<char>) -> Seq<Seq<char>>
    decreases s.len() - i,
{
    if i < 0 || i >= s.len() {
        if cur.len() > 0 {
            seq![cur]
        } else {
            Seq::empty()
        }
    } else if is_ws(s[i]) {
        (if cur.len() > 0 {
            seq![cur]
        } else {
            Seq::<Seq<char>>::empty()
        }) + words_acc(s, i + 1, Seq::empty())
    } else {
        words_acc(s, i + 1, cur.push(s[i]))
    }
}

/// The maximal whitespace-free words of the characters, in order.
pub open spec fn words_of(s: Seq<char>) -> Seq<Seq<char>> {
    words_acc(s, 0, Seq::empty())
}

/// Splits the characters into their whitespace-separated words.
pub fn split_words(v: &Vec<char>) -> (r: Vec<Vec<char>>)
    ensures
        r@.map_values(|w: Vec<char>| w@) == words_of(v@),
{
    let ghost goal = words_of(v@);
    let mut r: Vec<Vec<char>> = Vec::new();
    let mut cur: Vec<char> = Vec::new();
    let mut i: usize = 0;
    proof {
        assert(r@.map_values(|w: Vec<char>| w@) =~= Seq::<Seq<char>>::empty());
        assert(cur@ =~= Seq::<char>::empty());
        assert(Seq::<Seq<char>>::empty() + words_acc(v@, 0, cur@) =~= words_acc(v@, 0, cur@));
    }
    while i < v.len()
        invariant
            i <= v@.len(),
            goal == words_of(v@),
            goal == r@.map_values(|w: Vec<char>| w@) + words_acc(v@, i as int, cur@),
        decreases v@.len() - i,
    {
        let ghost rv = r@.map_values(|w: Vec<char>| w@);
        let ghost cv = cur@;
        if is_ws_char(v[i]) {
            if cur.len() > 0 {
                proof {
                    assert(words_acc(v@, i as int, cv) == seq![cv] + words_acc(
                        v@,
                        i as int + 1,
                        Seq::<char>::empty(),
                    ));
                }
                r.push(cur);
                cur = Vec::new();
                proof {
                    assert(cur@ =~= Seq::<char>::empty());
                    assert(r@[r@.len() - 1]@ == cv);
                    assert(r@.map_values(|w: Vec<char>| w@) =~= rv.push(cv));
                    assert(rv.push(cv) + words_acc(v@, i as int + 1, cur@) =~= rv + (seq![cv]
                        + words_acc(v@, i as int + 1, cur@)));
                    assert(goal == r@.map_values(|w: Vec<char>| w@) + words_acc(
                        v@,
                        i as int + 1,
                        cur@,
                    ));
                }
            } else {
                proof {
                    assert(cv =~= Seq::<char>::empty());
                    assert(words_acc(v@, i as int, cv) =~= Seq::<Seq<char>>::empty()
                        + words_acc(v@, i as int + 1, Seq::<char>::empty()));
                    assert(Seq::<Seq<char>>::empty() + words_acc(v@, i as int + 1, cur@)
                        =~= words_acc(v@, i as int + 1, cur@));
                    assert(words_acc(v@, i as int + 1, cur@) == words_acc(
                        v@,
                        i as int + 1,
                        Seq::<char>::empty(),
                    ));
                    assert(goal == r@.map_values(|w: Vec<char>| w@) + words_acc(
                        v@,
                        i as int + 1,
                        cur@,
                    ));
                }
            }
        } else {
            proof {
                assert(words_acc(v@, i as int, cv) == words_acc(
                    v@,
                    i as int + 1,
                    cv.push(v@[i as int]),
                ));
            }
            cur.push(v[i]);
            proof {
                assert(cur@ == cv.push(v@[i as int]));
                assert(goal == r@.map_values(|w: Vec<char>| w@) + words_acc(
                    v@,
                    i as int + 1,
                    cur@,
                ));
            }
        }
        i = i + 1;
    }
    if cur.len() > 0 {
        proof {
            assert(words_acc(v@, i as int, cur@) == seq![cur@]);
        }
        let ghost rv = r@.map_values(|w: Vec<char>| w@);
        r.push(cur);
        proof {
            assert(r@.map_values(|w: Vec<char>| w@) =~= rv.push(r@[r@.len() - 1]@));
            assert(rv.push(r@[r@.len() - 1]@) =~= rv + seq![r@[r@.len() - 1]@]);
        }
    } else {
        proof {
            assert(words_acc(v@, i as int, cur@) =~= Seq::<Seq<char>>::empty());
            assert(r@.map_values(|w: Vec<char>| w@) + Seq::<Seq<char>>::empty()
                =~= r@.map_values(|w: Vec<char>| w@));
        }
    }
    r
}

/// The word is an inline marker `{name}`.
pub open spec fn is_marker_spec(w: Seq<char>) -> bool {
    w.len() >= 2 && w[0] == '{' && w[w.len() - 1] == '}'
}

/// The word is a reduce-time marker `R{name}`.
pub open spec fn is_rmarker_spec(w: Seq<char>) -> bool {
    w.len() >= 3 && w[0] == 'R' && w[1] == '{' && w[w.len() - 1] == '}'
}

/// Inline-marker test.
pub fn is_marker(w: &Vec<char>) -> (r: bool)
    ensures
        r == is_marker_spec(w@),
{
    w.len() >= 2 && w[0] == '{' && w[w.len() - 1] == '}'
}

/// Reduce-marker test.
pub fn is_rmarker(w: &Vec<char>) -> (r: bool)
    ensures
        r == is_rmarker_spec(w@),
{
    w.len() >= 3 && w[0] == 'R' && w[1] == '{' && w[w.len() - 1] == '}'
}

/// The name inside an inline marker `{name}`.
pub open spec fn marker_name(w: Seq<char>) -> Seq<char> {
    w.subrange(1, w.len() - 1)
}

/// The name inside a reduce marker `R{name}`.
pub open spec fn rmarker_name(w: Seq<char>) -> Seq<char> {
    w.subrange(2, w.len() - 1)
}

/// One word of a right-hand side applied to the parse state: the rule parts
/// built so far, the marker-adjacency flag, and the terminal and semantic
/// interning tables. An inline marker interns its name and binds before the
/// next position; a reduce marker interns and binds to the rule; any other
/// word is the next grammar symbol, a nonterminal exactly when some rule
/// line defines it.
pub open spec fn rhs_word_step(
    st: (
        (Seq<GrammarSymbol>, Seq<Option<Semantic>>, Option<Semantic>),
        bool,
        Seq<Seq<char>>,
        Seq<Seq<char>>,
    ),
    w: Seq<char>,
    syms: Seq<Seq<char>>,
) -> (
    (Seq<GrammarSymbol>, Seq<Option<Semantic>>, Option<Semantic>),
    bool,
    Seq<Seq<char>>,
    Seq<Seq<char>>,
) {
    if is_marker_spec(w) {
        let nm = marker_name(w);
        let semt = interned(st.3, nm);
        (
            (st.0.0, st.0.1.push(Some(Semantic(name_slot(semt, nm) as usize))), st.0.2),
            true,
            st.2,
            semt,
        )
    } else if is_rmarker_spec(w) {
        let nm = rmarker_name(w);
        let semt = interned(st.3, nm);
        ((st.0.0, st.0.1, Some(Semantic(name_slot(semt, nm) as usize))), st.1, st.2, semt)
    } else {
        let sems2 = if st.1 {
            st.0.1
        } else {
            st.0.1.push(None)
        };
        if syms.contains(w) {
            (
                (st.0.0.push(GrammarSymbol::Symbol(Symbol(name_slot(syms, w) as usize))), sems2, st.0.2),
                false,
                st.2,
                st.3,
            )
        } else {
            let tokt = interned(st.2, w);
            (
                (st.0.0.push(GrammarSymbol::Token(Token(name_slot(tokt, w) as usize))), sems2, st.0.2),
                false,
                tokt,
                st.3,
            )
        }
    }
}

/// The parse state after the words from position `i` on.
pub open spec fn rhs_words_parse(
    words: Seq<Seq<char>>,
    i: int,
    syms: Seq<Seq<char>>,
    st: (
        (Seq<GrammarSymbol>, Seq<Option<Semantic>>, Option<Semantic>),
        bool,
        Seq<Seq<char>>,
        Seq<Seq<char>>,
    ),
) -> (
    (Seq<GrammarSymbol>, Seq<Option<Semantic>>, Option<Semantic>),
    bool,
    Seq<Seq<char>>,
    Seq<Seq<char>>,
)
    decreases words.len() - i,
{
    if i < 0 || i >= words.len() {
        st
    } else {
        rhs_words_parse(words, i + 1, syms, rhs_word_step(st, words[i], syms))
    }
}

/// The parse of the rule lines from index `k` on: each line's words build
/// one rule's parts, threading the terminal and semantic tables through.
pub open spec fn rules_parse(
    vl: Seq<Seq<char>>,
    k: int,
    syms: Seq<Seq<char>>,
    tokt: Seq<Seq<char>>,
    semt: Seq<Seq<char>>,
) -> (Seq<(Seq<GrammarSymbol>, Seq<Option<Semantic>>, Option<Semantic>)>, Seq<Seq<char>>, Seq<
    Seq<char>,
>)
    decreases vl.len() - k,
{
    if k < 0 || k >= vl.len() {
        (Seq::empty(), tokt, semt)
    } else {
        let st = rhs_words_parse(
            words_of(rhs_of(vl[k])),
            0,
            syms,
            (
                (Seq::<GrammarSymbol>::empty(), Seq::<Option<Semantic>>::empty(), None::<Semantic>),
                false,
                tokt,
                semt,
            ),
        );
        let rest = rules_parse(vl, k + 1, syms, st.2, st.3);
        (seq![st.0] + rest.0, rest.1, rest.2)
    }
}

/// The parse lists one rule per rule line.
pub proof fn lemma_rules_parse_len(
    vl: Seq<Seq<char>>,
    k: int,
    syms: Seq<Seq<char>>,
    tokt: Seq<Seq<char>>,
    semt: Seq<Seq<char>>,
)
    requires
        0 <= k <= vl.len(),
    ensures
        rules_parse(vl, k, syms, tokt, semt).0.len() == vl.len() - k,
    decreases vl.len() - k,
{
    if k < vl.len() {
        let st = rhs_words_parse(
            words_of(rhs_of(vl[k])),
            0,
            syms,
            (
                (Seq::<GrammarSymbol>::empty(), Seq::<Option<Semantic>>::empty(), None::<Semantic>),
                false,
                tokt,
                semt,
            ),
        );
        lemma_rules_parse_len(vl, k + 1, syms, st.2, st.3);
    }
}

/// Two inline markers stand adjacent somewhere among the words, with only
/// reduce markers between them.
pub open spec fn words_fault(words: Seq<Seq<char>>, i: int, last: bool) -> bool
    decreases words.len() - i,
{
    if i < 0 || i >= words.len() {
        false
    } else if is_marker_spec(words[i]) {
        last || words_fault(words, i + 1, true)
    } else if is_rmarker_spec(words[i]) {
        words_fault(words, i + 1, last)
    } else {
        words_fault(words, i + 1, false)
    }
}

/// The rule line carries adjacent inline markers: the fatal condition.
pub open spec fn line_faults(l: Seq<char>) -> bool {
    line_valid(l) && words_fault(words_of(rhs_of(l)), 0, false)
}

/// The grammar is the two-pass parse of the source lines: the symbol table
/// interns the rule lines' left-hand sides in order of first occurrence; the
/// rules, the terminal table and the semantic-name table are the left-to-
/// right parse of the rule lines' words against those nonterminal names; and
/// no line carries adjacent inline markers.
pub open spec fn grammar_parses(lines: Seq<String>, g: Grammar) -> bool {
    let vl = rule_lines(lines);
    let symsv = g.symbols@.map_values(|s: String| s@);
    let parsed = rules_parse(vl, 0, symsv, Seq::empty(), Seq::empty());
    &&& symsv == intern_names(Seq::empty(), lhs_names(lines))
    &&& g.tokens@.map_values(|s: String| s@) == parsed.1
    &&& g.semantics@.map_values(|s: String| s@) == parsed.2
    &&& g.rules@.len() == vl.len()
    &&& forall|k: int|
        0 <= k < vl.len() ==> {
            let rl = #[trigger] g.rules@[k];
            &&& rl.symbol.0 == name_slot(symsv, lhs_of(vl[k]))
            &&& rl.tokens@ == parsed.0[k].0
            &&& rl.semantics@ == parsed.0[k].1
            &&& rl.reduce_sem == parsed.0[k].2
        }
    &&& forall|i: int| 0 <= i < lines.len() ==> !line_faults((#[trigger] lines[i])@)
}

/// Interning through the table of strings matches interning its views: the
/// table becomes `interned` of the old views, and the returned index is the
/// name's slot.
pub proof fn lemma_intern_step(tab0: Seq<String>, tab1: Seq<String>, name: Seq<char>, id: usize)
    requires
        id < tab1.len(),
        tab1[id as int]@ == name,
        forall|j: int| 0 <= j < id ==> (#[trigger] tab1[j])@ != name,
        names_contain(tab0, name) ==> tab1 == tab0,
        !names_contain(tab0, name) ==> tab1.len() == tab0.len() + 1 && id == tab0.len() && (forall|
            j: int,
        | 0 <= j < tab0.len() ==> tab1[j] == tab0[j]),
    ensures
        tab1.map_values(|s: String| s@) == interned(tab0.map_values(|s: String| s@), name),
        id as int == name_slot(tab1.map_values(|s: String| s@), name),
{
    let v0 = tab0.map_values(|s: String| s@);
    let v1 = tab1.map_values(|s: String| s@);
    assert(names_contain(tab0, name) <==> v0.contains(name)) by {
        if names_contain(tab0, name) {
            let j = choose|j: int| 0 <= j < tab0.len() && (#[trigger] tab0[j])@ == name;
            assert(v0[j] == name);
        }
        if v0.contains(name) {
            let j = choose|j: int| 0 <= j < v0.len() && v0[j] == name;
            assert(tab0[j]@ == name);
        }
    }
    if names_contain(tab0, name) {
        assert(v1 =~= v0);
        assert(v1 == interned(v0, name));
    } else {
        assert(v1 =~= v0.push(name));
        assert(v1 == interned(v0, name));
    }
    assert(v1[id as int] == name);
    assert(forall|j: int| 0 <= j < id ==> (#[trigger] v1[j]) != name);
    lemma_name_slot_witness(v1, name, id as int);
}

/// No two entries of the interning table carry the same name.
pub open spec fn names_distinct(arr: Seq<String>) -> bool {
    forall|i: int, j: int| 0 <= i < j < arr.len() ==> (#[trigger] arr[i])@ != (#[trigger] arr[j])@
}

/// Why a grammar source could not be accepted.
#[derive(Debug, Clone, Copy, PartialEq, Eq, Structural)]
pub enum GrammarError {
    /// Two inline semantic markers stand adjacent: a single position cannot
    /// bear two distinct inline semantics.
    AdjacentSemantics,
    /// No line of the source held a rule.
    EmptyGrammar,
}

/// A context-free grammar: the numbered rules, the three interning tables,
/// and the cached FIRST and FOLLOW sets. Rule 0's left-hand side is the start
/// nonterminal.
#[derive(Debug)]
pub struct Grammar {
    pub rules: Vec<Rule>,
    pub symbols: Vec<String>,
    pub tokens: Vec<String>,
    pub semantics: Vec<String>,
    pub firsts: Vec<TokenSet>,
    pub follows: Vec<TokenSet>,
}

impl Grammar {
    /// Number of nonterminals.
    pub open spec fn nsyms(&self) -> nat {
        self.symbols@.len()
    }

    /// Number of terminals.
    pub open spec fn ntoks(&self) -> nat {
        self.tokens@.len()
    }

    /// Number of semantic names.
    pub open spec fn nsems(&self) -> nat {
        self.semantics@.len()
    }

    /// The FIRST sets as mathematical sets, indexed by nonterminal.
    pub open spec fn firsts_view(&self) -> Seq<Set<Option<Token>>> {
        sets_view(self.firsts@)
    }

    /// The FOLLOW sets as mathematical sets, indexed by nonterminal.
    pub open spec fn follows_view(&self) -> Seq<Set<Option<Token>>> {
        sets_view(self.follows@)
    }

    /// Structural well-formedness: every identifier of every rule is in
    /// range, and the cached set tables have one entry per nonterminal.
    pub open spec fn wf(&self) -> bool {
        &&& rules_wf(self.rules@, self.nsyms(), self.ntoks(), self.nsems())
        &&& self.firsts@.len() == self.nsyms()
        &&& self.follows@.len() == self.nsyms()
        &&& sets_wf(self.firsts@)
        &&& sets_wf(self.follows@)
        &&& ssets_below(self.firsts_view(), self.ntoks())
        &&& ssets_below(self.follows_view(), self.ntoks())
    }

    /// The cached FIRST sets are the least fixed point of the FIRST rules.
    pub open spec fn firsts_ok(&self) -> bool {
        &&& first_closed(self.rules@, self.firsts_view())
        &&& forall|a: int|
            0 <= a < self.nsyms() ==> self.firsts_view()[a] == first_union(
                self.rules@,
                a,
                self.firsts_view(),
            )
        &&& first_least(self.rules@, self.firsts_view())
    }

    /// The cached FOLLOW sets are the least fixed point of the FOLLOW rules
    /// over the cached FIRST sets, with the end marker in the start
    /// nonterminal's set.
    pub open spec fn follows_ok(&self) -> bool {
        &&& self.rules@.len() > 0
        &&& self.follows_view()[self.rules@[0].symbol.0 as int].contains(None)
        &&& follow_closed(self.rules@, self.firsts_view(), self.follows_view())
        &&& follow_least(
            self.rules@,
            self.firsts_view(),
            self.rules@[0].symbol.0 as int,
            self.follows_view(),
        )
    }

    /// The numbered rules.
    pub fn get_rules(&self) -> (r: &Vec<Rule>)
        ensures
            r == &self.rules,
    {
        &self.rules
    }

    /// The display name of a nonterminal.
    pub fn get_symbol(&self, symbol: Symbol) -> (r: &str)
        requires
            symbol.0 < self.nsyms(),
        ensures
            r@ == self.symbols@[symbol.0 as int]@,
    {
        self.symbols[symbol.0].as_str()
    }

    /// The display name of a terminal.
    pub fn get_token(&self, token: Token) -> (r: &str)
        requires
            token.0 < self.ntoks(),
        ensures
            r@ == self.tokens@[token.0 as int]@,
    {
        self.tokens[token.0].as_str()
    }

    /// The display name of a semantic action.
    pub fn get_semantic(&self, semantic: Semantic) -> (r: &str)
        requires
            semantic.0 < self.nsems(),
        ensures
            r@ == self.semantics@[semantic.0 as int]@,
    {
        self.semantics[semantic.0].as_str()
    }

    /// The display name of a grammar symbol of either kind.
    pub fn get_grammar_symbol(&self, s: GrammarSymbol) -> (r: &str)
        requires
            gs_wf(s, self.nsyms(), self.ntoks()),
        ensures
            r@ == match s {
                GrammarSymbol::Token(t) => self.tokens@[t.0 as int]@,
                GrammarSymbol::Symbol(sym) => self.symbols@[sym.0 as int]@,
            },
    {
        match s {
            GrammarSymbol::Token(t) => self.get_token(t),
            GrammarSymbol::Symbol(sym) => self.get_symbol(sym),
        }
    }

    /// FIRST of a sentential form, over the cached per-symbol FIRST sets.
    pub fn first(&self, form: &[GrammarSymbol]) -> (r: TokenSet)
        requires
            self.wf(),
            form_syms_below(form@, self.nsyms()),
        ensures
            r.wf(),
            r@ == first_form_spec(form@, self.firsts_view()),
    {
        first_of_form(form, &self.firsts)
    }

    /// The FOLLOW set of a nonterminal.
    pub fn follow(&self, v: Symbol) -> (r: &TokenSet)
        requires
            self.wf(),
            v.0 < self.nsyms(),
        ensures
            *r == self.follows@[v.0 as int],
            r@ == self.follows_view()[v.0 as int],
    {
        proof {
            assert(self.follows_view()[v.0 as int] == self.follows@[v.0 as int]@);
        }
        &self.follows[v.0]
    }

    /// Parses a grammar from its source lines, in two passes: the first
    /// interns every left-hand-side name, so that the second can tell
    /// nonterminals from terminals on the right-hand sides; then the FIRST
    /// and FOLLOW sets are computed. A nonempty line without an arrow is
    /// skipped and its index reported; adjacent inline markers are fatal; a
    /// source with no rule at all is fatal.
    #[verifier::loop_isolation(false)]
    #[verifier::rlimit(60)]
    pub fn new(lines: &Vec<String>) -> (r: Result<(Grammar, Vec<usize>), GrammarError>)
        ensures
            match r {
                Ok(pair) => {
                    &&& pair.0.wf()
                    &&& pair.0.rules@.len() >= 1
                    &&& pair.0.firsts_ok()
                    &&& pair.0.follows_ok()
                    &&& names_distinct(pair.0.symbols@)
                    &&& names_distinct(pair.0.tokens@)
                    &&& names_distinct(pair.0.semantics@)
                    &&& grammar_parses(lines@, pair.0)
                    &&& forall|q1: int, q2: int|
                        0 <= q1 < q2 < pair.1@.len() ==> (#[trigger] pair.1@[q1]) < (
                        #[trigger] pair.1@[q2])
                    &&& forall|i: int|
                        0 <= i < lines@.len() ==> (pair.1@.contains(i as usize) <==> ((
                        #[trigger] lines@[i])@.len() > 0 && !has_arrow(lines@[i]@)))
                },
                Err(GrammarError::EmptyGrammar) => forall|i: int|
                    0 <= i < lines@.len() ==> !line_valid((#[trigger] lines@[i])@),
                Err(GrammarError::AdjacentSemantics) => exists|i: int|
                    0 <= i < lines@.len() && line_faults((#[trigger] lines@[i])@),
            },
            ((exists|i: int| 0 <= i < lines@.len() && line_valid((#[trigger] lines@[i])@))
                && (forall|i: int|
                0 <= i < lines@.len() ==> !line_faults((#[trigger] lines@[i])@))) ==> r is Ok,
    {
        let nlines = lines.len();
        let mut symbols: Vec<String> = Vec::new();
        let mut lhs_ids: Vec<usize> = Vec::new();
        let mut rhss: Vec<Vec<char>> = Vec::new();
        let mut skipped: Vec<usize> = Vec::new();
        let mut i: usize = 0;
        proof {
            assert(lines@.take(0) =~= Seq::<String>::empty());
            assert(symbols@.map_values(|s: String| s@) =~= Seq::<Seq<char>>::empty());
            assert(lhs_names(lines@.take(0)) =~= Seq::<Seq<char>>::empty());
        }
        while i < nlines
            invariant
                i <= nlines,
                names_distinct(symbols@),
                lhs_ids@.len() == rhss@.len(),
                symbols@.map_values(|s: String| s@) == intern_names(
                    Seq::empty(),
                    lhs_names(lines@.take(i as int)),
                ),
                rhss@.len() == rule_lines(lines@.take(i as int)).len(),
                forall|k: int|
                    0 <= k < rhss@.len() ==> (#[trigger] rhss@[k])@ == rhs_of(
                        rule_lines(lines@.take(i as int))[k],
                    ),
                forall|k: int|
                    0 <= k < lhs_ids@.len() ==> (#[trigger] lhs_ids@[k]) < symbols@.len()
                        && symbols@[lhs_ids@[k] as int]@ == lhs_of(
                        rule_lines(lines@.take(i as int))[k],
                    ) && (forall|j: int|
                        0 <= j < lhs_ids@[k] ==> (#[trigger] symbols@[j])@ != lhs_of(
                            rule_lines(lines@.take(i as int))[k],
                        )),
                forall|q1: int, q2: int|
                    0 <= q1 < q2 < skipped@.len() ==> (#[trigger] skipped@[q1]) < (
                    #[trigger] skipped@[q2]),
                forall|q: int| 0 <= q < skipped@.len() ==> (#[trigger] skipped@[q]) < i,
                forall|ii: int|
                    0 <= ii < i ==> (skipped@.contains(ii as usize) <==> ((
                    #[trigger] lines@[ii])@.len() > 0 && !has_arrow(lines@[ii]@))),
            decreases nlines - i,
        {
            let ghost vl0 = rule_lines(lines@.take(i as int));
            let cs = str_chars(lines[i].as_str());
            proof {
                assert(lines@.take(i + 1).drop_last() =~= lines@.take(i as int));
                assert(lines@.take(i + 1).last() == lines@[i as int]);
            }
            if cs.len() > 0 {
                match find_arrow(&cs) {
                    None => {
                        let ghost sk0 = skipped@;
                        skipped.push(i);
                        proof {
                            assert(!line_valid(lines@[i as int]@));
                            assert(rule_lines(lines@.take(i + 1)) =~= vl0);
                            assert(skipped@[skipped@.len() - 1] == i);
                            assert forall|ii: int| 0 <= ii < i + 1 implies (skipped@.contains(
                                ii as usize,
                            ) <==> ((#[trigger] lines@[ii])@.len() > 0 && !has_arrow(
                                lines@[ii]@,
                            ))) by {
                                if ii < i {
                                    assert(sk0.contains(ii as usize) <==> skipped@.contains(
                                        ii as usize,
                                    )) by {
                                        if sk0.contains(ii as usize) {
                                            let q = choose|q: int|
                                                0 <= q < sk0.len() && sk0[q] == ii as usize;
                                            assert(skipped@[q] == ii as usize);
                                        }
                                        if skipped@.contains(ii as usize) {
                                            let q = choose|q: int|
                                                0 <= q < skipped@.len() && skipped@[q]
                                                    == ii as usize;
                                            if q == skipped@.len() - 1 {
                                                assert(ii as usize == i);
                                            } else {
                                                assert(sk0[q] == ii as usize);
                                            }
                                        }
                                    }
                                } else {
                                    assert(skipped@.contains(i));
                                }
                            }
                        }
                    },
                    Some(a) => {
                        proof {
                            assert(line_valid(lines@[i as int]@));
                            assert(rule_lines(lines@.take(i + 1)) =~= vl0 + seq![
                                lines@[i as int]@,
                            ]);
                            assert(cs@.subrange(0, a as int) =~= cs@.take(a as int));
                        }
                        let lhs_chars = trimmed_sub(&cs, 0, a);
                        let lhs_string = chars_to_string(&lhs_chars);
                        proof {
                            assert(lhs_string@ == lhs_of(lines@[i as int]@));
                        }
                        let ghost syms0 = symbols@;
                        let sid = add_or_get(&mut symbols, lhs_string.as_str());
                        proof {
                            lemma_names_distinct_after(syms0, symbols@, lhs_string@);
                            // The table is the fold extended by this name.
                            let sv0 = syms0.map_values(|s: String| s@);
                            let sv1 = symbols@.map_values(|s: String| s@);
                            assert(lhs_names(lines@.take(i + 1)) =~= lhs_names(
                                lines@.take(i as int),
                            ).push(lhs_of(lines@[i as int]@)));
                            assert(lhs_names(lines@.take(i + 1)).drop_last() =~= lhs_names(
                                lines@.take(i as int),
                            ));
                            assert(names_contain(syms0, lhs_string@) <==> sv0.contains(
                                lhs_string@,
                            )) by {
                                if names_contain(syms0, lhs_string@) {
                                    let j = choose|j: int|
                                        0 <= j < syms0.len() && (#[trigger] syms0[j])@
                                            == lhs_string@;
                                    assert(sv0[j] == lhs_string@);
                                }
                                if sv0.contains(lhs_string@) {
                                    let j = choose|j: int|
                                        0 <= j < sv0.len() && sv0[j] == lhs_string@;
                                    assert(syms0[j]@ == lhs_string@);
                                }
                            }
                            if names_contain(syms0, lhs_string@) {
                                assert(sv1 =~= interned(sv0, lhs_string@));
                            } else {
                                assert(sv1 =~= sv0.push(lhs_string@));
                                assert(sv1 =~= interned(sv0, lhs_string@));
                            }
                        }
                        lhs_ids.push(sid);
                        let rhs = subvec(&cs, a + 2, cs.len());
                        let ghost rhss0 = rhss@;
                        rhss.push(rhs);
                        proof {
                            assert(rhs@ =~= rhs_of(lines@[i as int]@));
                            let vl1 = rule_lines(lines@.take(i + 1));
                            assert forall|k: int| 0 <= k < rhss@.len() implies (
                            #[trigger] rhss@[k])@ == rhs_of(vl1[k]) by {
                                if k < rhss@.len() - 1 {
                                    assert(rhss@[k] == rhss0[k]);
                                    assert(vl1[k] == vl0[k]);
                                } else {
                                    assert(vl1[k] == lines@[i as int]@);
                                }
                            }
                            assert forall|k: int| 0 <= k < lhs_ids@.len() implies (
                            #[trigger] lhs_ids@[k]) < symbols@.len() && symbols@[lhs_ids@[k] as int]@
                                == lhs_of(vl1[k]) && (forall|j: int|
                                0 <= j < lhs_ids@[k] ==> (#[trigger] symbols@[j])@ != lhs_of(
                                    vl1[k],
                                )) by {
                                if k < lhs_ids@.len() - 1 {
                                    assert(vl1[k] == vl0[k]);
                                    assert(symbols@.len() >= syms0.len());
                                    assert(lhs_ids@[k] < syms0.len());
                                    assert(symbols@[lhs_ids@[k] as int] == syms0[lhs_ids@[k] as int]);
                                    assert(forall|j: int|
                                        0 <= j < lhs_ids@[k] ==> symbols@[j] == syms0[j]);
                                } else {
                                    assert(vl1[k] == lines@[i as int]@);
                                    assert(lhs_ids@[k] == sid);
                                }
                            }
                        }
                    },
                }
            } else {
                proof {
                    assert(!line_valid(lines@[i as int]@));
                    assert(rule_lines(lines@.take(i + 1)) =~= vl0);
                }
            }
            i = i + 1;
        }
        proof {
            assert(lines@.take(nlines as int) =~= lines@);
        }
        let ghost vl = rule_lines(lines@);
        let ghost symsv = symbols@.map_values(|s: String| s@);
        let ghost total = rules_parse(vl, 0, symsv, Seq::empty(), Seq::empty());
        let mut tokens: Vec<String> = Vec::new();
        let mut semantics: Vec<String> = Vec::new();
        let mut rules: Vec<Rule> = Vec::new();
        let nrules = rhss.len();
        let mut k: usize = 0;
        proof {
            assert(tokens@.map_values(|s: String| s@) =~= Seq::<Seq<char>>::empty());
            assert(semantics@.map_values(|s: String| s@) =~= Seq::<Seq<char>>::empty());
            assert(total.0.skip(0) =~= total.0);
            lemma_rules_parse_len(vl, 0, symsv, Seq::empty(), Seq::empty());
        }
        while k < nrules
            invariant
                k <= nrules,
                nrules == vl.len(),
                rules@.len() == k,
                names_distinct(tokens@),
                names_distinct(semantics@),
                rules_wf(rules@, symbols@.len(), tokens@.len(), semantics@.len()),
                rules_parse(
                    vl,
                    k as int,
                    symsv,
                    tokens@.map_values(|s: String| s@),
                    semantics@.map_values(|s: String| s@),
                ) == (total.0.skip(k as int), total.1, total.2),
                total.0.len() == vl.len(),
                forall|q: int|
                    0 <= q < k ==> {
                        let rl = #[trigger] rules@[q];
                        &&& rl.symbol.0 == lhs_ids@[q]
                        &&& rl.tokens@ == total.0[q].0
                        &&& rl.semantics@ == total.0[q].1
                        &&& rl.reduce_sem == total.0[q].2
                    },
                forall|q: int| 0 <= q < k ==> !words_fault(words_of(rhs_of(#[trigger] vl[q])), 0, false),
            decreases nrules - k,
        {
            let ghost tokt0 = tokens@.map_values(|s: String| s@);
            let ghost semt0 = semantics@.map_values(|s: String| s@);
            let ghost line_words = words_of(rhs_of(vl[k as int]));
            let ghost line_final = rhs_words_parse(
                line_words,
                0,
                symsv,
                (
                    (Seq::<GrammarSymbol>::empty(), Seq::<Option<Semantic>>::empty(), None::<Semantic>),
                    false,
                    tokt0,
                    semt0,
                ),
            );
            proof {
                // Unfold the remaining parse once at this rule.
                assert(rules_parse(vl, k as int, symsv, tokt0, semt0) == (
                    seq![line_final.0] + rules_parse(vl, k + 1, symsv, line_final.2, line_final.3).0,
                    rules_parse(vl, k + 1, symsv, line_final.2, line_final.3).1,
                    rules_parse(vl, k + 1, symsv, line_final.2, line_final.3).2,
                ));
                assert(total.0.skip(k as int)[0] == line_final.0);
                assert(total.0.skip(k as int).drop_first() =~= total.0.skip(k + 1));
                assert(total.0[k as int] == line_final.0);
                assert(rules_parse(vl, k + 1, symsv, line_final.2, line_final.3) == (
                    total.0.skip(k + 1),
                    total.1,
                    total.2,
                ));
            }
            let words = split_words(&rhss[k]);
            proof {
                assert(rhss@[k as int]@ == rhs_of(vl[k as int]));
                assert(words@.map_values(|w: Vec<char>| w@) == line_words);
            }
            let mut toks: Vec<GrammarSymbol> = Vec::new();
            let mut sems: Vec<Option<Semantic>> = Vec::new();
            let mut reduce_sem: Option<Semantic> = None;
            let mut last_sem = false;
            let mut w: usize = 0;
            while w < words.len()
                invariant
                    w <= words@.len(),
                    names_distinct(tokens@),
                    names_distinct(semantics@),
                    rules_wf(rules@, symbols@.len(), tokens@.len(), semantics@.len()),
                    forall|p: int|
                        0 <= p < toks@.len() ==> gs_wf(
                            #[trigger] toks@[p],
                            symbols@.len(),
                            tokens@.len(),
                        ),
                    forall|p: int|
                        0 <= p < sems@.len() ==> sem_wf(#[trigger] sems@[p], semantics@.len()),
                    sem_wf(reduce_sem, semantics@.len()),
                    last_sem ==> sems@.len() == toks@.len() + 1,
                    !last_sem ==> sems@.len() == toks@.len(),
                    rhs_words_parse(
                        line_words,
                        w as int,
                        symsv,
                        (
                            (toks@, sems@, reduce_sem),
                            last_sem,
                            tokens@.map_values(|s: String| s@),
                            semantics@.map_values(|s: String| s@),
                        ),
                    ) == line_final,
                    words_fault(line_words, 0, false) == words_fault(
                        line_words,
                        w as int,
                        last_sem,
                    ),
                decreases words@.len() - w,
            {
                let ghost tokv = tokens@.map_values(|s: String| s@);
                let ghost semv = semantics@.map_values(|s: String| s@);
                let ghost wv = line_words[w as int];
                let wd = &words[w];
                proof {
                    assert(wd@ == wv);
                }
                if is_marker(wd) {
                    if last_sem {
                        proof {
                            assert(words_fault(line_words, w as int, true));
                            assert(words_fault(line_words, 0, false));
                            lemma_rule_lines_member(lines@, k as int);
                            let ii = choose|ii: int|
                                0 <= ii < lines@.len() && (#[trigger] lines@[ii])@
                                    == vl[k as int] && line_valid(lines@[ii]@);
                            assert(line_faults(lines@[ii]@));
                        }
                        return Err(GrammarError::AdjacentSemantics);
                    }
                    let name_chars = subvec(wd, 1, wd.len() - 1);
                    let name = chars_to_string(&name_chars);
                    proof {
                        assert(name@ == marker_name(wv));
                    }
                    let ghost sems_tab0 = semantics@;
                    let id = add_or_get(&mut semantics, name.as_str());
                    proof {
                        lemma_names_distinct_after(sems_tab0, semantics@, name@);
                        lemma_rules_wf_mono(
                            rules@,
                            symbols@.len(),
                            tokens@.len(),
                            sems_tab0.len(),
                            tokens@.len(),
                            semantics@.len(),
                        );
                        lemma_intern_step(sems_tab0, semantics@, name@, id);
                    }
                    sems.push(Some(Semantic(id)));
                    last_sem = true;
                } else if is_rmarker(wd) {
                    let name_chars = subvec(wd, 2, wd.len() - 1);
                    let name = chars_to_string(&name_chars);
                    proof {
                        assert(name@ == rmarker_name(wv));
                    }
                    let ghost sems_tab0 = semantics@;
                    let id = add_or_get(&mut semantics, name.as_str());
                    proof {
                        lemma_names_distinct_after(sems_tab0, semantics@, name@);
                        lemma_rules_wf_mono(
                            rules@,
                            symbols@.len(),
                            tokens@.len(),
                            sems_tab0.len(),
                            tokens@.len(),
                            semantics@.len(),
                        );
                        lemma_intern_step(sems_tab0, semantics@, name@, id);
                    }
                    reduce_sem = Some(Semantic(id));
                } else {
                    let name = chars_to_string(wd);
                    match find_name(&symbols, name.as_str()) {
                        Some(si) => {
                            proof {
                                assert(symsv[si as int] == name@);
                                assert(symsv.contains(name@));
                                lemma_name_slot_witness(symsv, name@, si as int);
                            }
                            toks.push(GrammarSymbol::Symbol(Symbol(si)));
                        },
                        None => {
                            proof {
                                assert(!symsv.contains(name@)) by {
                                    if symsv.contains(name@) {
                                        let j = choose|j: int|
                                            0 <= j < symsv.len() && symsv[j] == name@;
                                        assert(symbols@[j]@ == name@);
                                        assert(names_contain(symbols@, name@));
                                    }
                                }
                            }
                            let ghost toks_tab0 = tokens@;
                            let ti = add_or_get(&mut tokens, name.as_str());
                            proof {
                                lemma_names_distinct_after(toks_tab0, tokens@, name@);
                                lemma_rules_wf_mono(
                                    rules@,
                                    symbols@.len(),
                                    toks_tab0.len(),
                                    semantics@.len(),
                                    tokens@.len(),
                                    semantics@.len(),
                                );
                                lemma_intern_step(toks_tab0, tokens@, name@, ti);
                            }
                            toks.push(GrammarSymbol::Token(Token(ti)));
                        },
                    }
                    if !last_sem {
                        sems.push(None);
                    }
                    last_sem = false;
                }
                w = w + 1;
            }
            proof {
                assert(line_final == (
                    (toks@, sems@, reduce_sem),
                    last_sem,
                    tokens@.map_values(|s: String| s@),
                    semantics@.map_values(|s: String| s@),
                ));
                assert(!words_fault(line_words, 0, false));
            }
            let rule = Rule { symbol: Symbol(lhs_ids[k]), tokens: toks, semantics: sems, reduce_sem };
            proof {
                assert(rule.wf(symbols@.len(), tokens@.len(), semantics@.len()));
            }
            rules.push(rule);
            k = k + 1;
        }
        if rules.len() == 0 {
            proof {
                assert forall|ii: int| 0 <= ii < lines@.len() implies !line_valid(
                    (#[trigger] lines@[ii])@,
                ) by {
                    if line_valid(lines@[ii]@) {
                        lemma_rule_lines_covers(lines@, ii);
                    }
                }
            }
            return Err(GrammarError::EmptyGrammar);
        }
        proof {
            // With every rule line consumed, the tables are the parse's.
            assert(rules_parse(
                vl,
                nrules as int,
                symsv,
                tokens@.map_values(|s: String| s@),
                semantics@.map_values(|s: String| s@),
            ) == (
                Seq::<(Seq<GrammarSymbol>, Seq<Option<Semantic>>, Option<Semantic>)>::empty(),
                tokens@.map_values(|s: String| s@),
                semantics@.map_values(|s: String| s@),
            ));
            assert(total.0.skip(nrules as int) =~= Seq::<(
                Seq<GrammarSymbol>,
                Seq<Option<Semantic>>,
                Option<Semantic>,
            )>::empty());
            assert forall|ii: int| 0 <= ii < lines@.len() implies !line_faults(
                (#[trigger] lines@[ii])@,
            ) by {
                if line_valid(lines@[ii]@) {
                    lemma_rule_lines_covers(lines@, ii);
                    let q = choose|q: int|
                        0 <= q < vl.len() && (#[trigger] vl[q]) == lines@[ii]@;
                    assert(!words_fault(words_of(rhs_of(vl[q])), 0, false));
                }
            }
        }
        let nsyms = symbols.len();
        let mut firsts0: Vec<TokenSet> = Vec::new();
        let mut follows0: Vec<TokenSet> = Vec::new();
        let mut e: usize = 0;
        while e < nsyms
            invariant
                e <= nsyms,
                firsts0@.len() == e,
                follows0@.len() == e,
                sets_wf(firsts0@),
                sets_wf(follows0@),
                forall|j: int| 0 <= j < e ==> (#[trigger] firsts0@[j])@ == Set::<Option<Token>>::empty(),
                forall|j: int| 0 <= j < e ==> (#[trigger] follows0@[j])@ == Set::<Option<Token>>::empty(),
            decreases nsyms - e,
        {
            firsts0.push(TokenSet::new());
            follows0.push(TokenSet::new());
            e = e + 1;
        }
        let mut g = Grammar {
            rules,
            symbols,
            tokens,
            semantics,
            firsts: firsts0,
            follows: follows0,
        };
        proof {
            assert(g.wf()) by {
                assert(ssets_below(g.firsts_view(), g.ntoks())) by {
                    assert forall|j: int| 0 <= j < g.firsts_view().len() implies
                        crate::bounds::ts_elems_below(#[trigger] g.firsts_view()[j], g.ntoks()) by {
                        assert(g.firsts_view()[j] == g.firsts@[j]@);
                    }
                }
                assert(ssets_below(g.follows_view(), g.ntoks())) by {
                    assert forall|j: int| 0 <= j < g.follows_view().len() implies
                        crate::bounds::ts_elems_below(#[trigger] g.follows_view()[j], g.ntoks()) by {
                        assert(g.follows_view()[j] == g.follows@[j]@);
                    }
                }
            }
            // The assembled grammar is the parse of the source.
            assert(grammar_parses(lines@, g)) by {
                assert forall|q: int| 0 <= q < vl.len() implies {
                    let rl = #[trigger] g.rules@[q];
                    &&& rl.symbol.0 == name_slot(symsv, lhs_of(vl[q]))
                    &&& rl.tokens@ == total.0[q].0
                    &&& rl.semantics@ == total.0[q].1
                    &&& rl.reduce_sem == total.0[q].2
                } by {
                    lemma_name_slot_witness(symsv, lhs_of(vl[q]), lhs_ids@[q] as int);
                }
            }
        }
        g.firsts();
        g.follows();
        proof {
            assert(g.firsts_ok());
            assert(grammar_parses(lines@, g));
        }
        Ok((g, skipped))
    }


    /// Recomputes the per-symbol FIRST sets as the least fixed point of the
    /// FIRST rules.
    pub fn firsts(&mut self)
        requires
            old(self).wf(),
        ensures
            final(self).wf(),
            final(self).firsts_ok(),
            final(self).rules == old(self).rules,
            final(self).symbols == old(self).symbols,
            final(self).tokens == old(self).tokens,
            final(self).semantics == old(self).semantics,
            final(self).follows == old(self).follows,
    {
        proof {
            lemma_rules_wf_below(self.rules@, self.nsyms(), self.ntoks(), self.nsems());
        }
        let nsyms = self.symbols.len();
        let ntoks = self.tokens.len();
        self.firsts = compute_firsts(&self.rules, nsyms, ntoks);
    }

    /// Recomputes the FOLLOW sets as the least fixed point of the FOLLOW
    /// rules over the cached FIRST sets.
    pub fn follows(&mut self)
        requires
            old(self).wf(),
            old(self).rules@.len() > 0,
        ensures
            final(self).wf(),
            final(self).follows_ok(),
            final(self).rules == old(self).rules,
            final(self).symbols == old(self).symbols,
            final(self).tokens == old(self).tokens,
            final(self).semantics == old(self).semantics,
            final(self).firsts == old(self).firsts,
    {
        proof {
            lemma_rules_wf_below(self.rules@, self.nsyms(), self.ntoks(), self.nsems());
        }
        let nsyms = self.symbols.len();
        let ntoks = self.tokens.len();
        let start_sym = self.rules[0].symbol;
        self.follows = compute_follows(&self.rules, nsyms, ntoks, &self.firsts, start_sym);
    }
}

} // verus!

//! FIRST and FOLLOW engines.
//!
//! Both are computed as least fixed points by iterating over the rules until
//! no set grows, which stays correct in the presence of empty productions and
//! of left-recursive rules.

use vstd::prelude::*;

use crate::grammar::{GrammarSymbol, Rule, Token};
use crate::tokenset::TokenSet;

verus! {

/// View of a vector of token sets as a sequence of mathematical sets.
pub open spec fn sets_view(v: Seq<TokenSet>) -> Seq<Set<Option<Token>>> {
    v.map_values(|t: TokenSet| t@)
}

/// Every set of the vector is duplicate-free.
pub open spec fn sets_wf(v: Seq<TokenSet>) -> bool {
    forall|i: int| 0 <= i < v.len() ==> (#[trigger] v[i]).wf()
}

/// Every nonterminal mentioned by the grammar symbol is an index below `n`.
pub open spec fn sym_below(gs: GrammarSymbol, n: nat) -> bool {
    match gs {
        GrammarSymbol::Token(_) => true,
        GrammarSymbol::Symbol(s) => s.0 < n,
    }
}

/// Every nonterminal of the form is an index below `n`.
pub open spec fn form_syms_below(form: Seq<GrammarSymbol>, n: nat) -> bool {
    forall|i: int| 0 <= i < form.len() ==> sym_below(#[trigger] form[i], n)
}

/// Left-hand sides and right-hand-side nonterminals of all rules are indices
/// below `n`.
pub open spec fn rules_syms_below(rules: Seq<Rule>, n: nat) -> bool {
    forall|r: int|
        0 <= r < rules.len() ==> (#[trigger] rules[r]).symbol.0 < n && form_syms_below(
            rules[r].tokens@,
            n,
        )
}

/// FIRST of a sentential form, given per-symbol FIRST sets `fm`: scanned left
/// to right, a terminal contributes itself and stops; a nonterminal
/// contributes its FIRST set, and the scan continues past it only while the
/// empty word (`None`) remains derivable.
pub open spec fn first_form_spec(
    form: Seq<GrammarSymbol>,
    fm: Seq<Set<Option<Token>>>,
) -> Set<Option<Token>>
    decreases form.len(),
{
    if form.len() == 0 {
        set![None]
    } else {
        match form[0] {
            GrammarSymbol::Token(t) => set![Some(t)],
            GrammarSymbol::Symbol(s) => {
                let fs = fm[s.0 as int];
                if fs.contains(None) {
                    fs.remove(None) + first_form_spec(form.drop_first(), fm)
                } else {
                    fs
                }
            },
        }
    }
}

/// `fm` is closed under the FIRST rules: each rule's right-hand-side FIRST is
/// contained in the left-hand side's set.
pub open spec fn first_closed(rules: Seq<Rule>, fm: Seq<Set<Option<Token>>>) -> bool {
    forall|r: int|
        0 <= r < rules.len() ==> first_form_spec(
            (#[trigger] rules[r]).tokens@,
            fm,
        ).subset_of(fm[rules[r].symbol.0 as int])
}

/// The union, over the productions of nonterminal `a`, of the right-hand
/// sides' FIRST sets.
pub open spec fn first_union(rules: Seq<Rule>, a: int, fm: Seq<Set<Option<Token>>>) -> Set<
    Option<Token>,
> {
    Set::new(
        |x: Option<Token>|
            exists|r: int|
                0 <= r < rules.len() && (#[trigger] rules[r]).symbol.0 == a && first_form_spec(
                    rules[r].tokens@,
                    fm,
                ).contains(x),
    )
}

/// FIRST of a form grows monotonically with the per-symbol sets.
pub proof fn lemma_first_form_mono(
    form: Seq<GrammarSymbol>,
    f: Seq<Set<Option<Token>>>,
    g: Seq<Set<Option<Token>>>,
)
    requires
        f.len() == g.len(),
        forall|i: int| 0 <= i < f.len() ==> (#[trigger] f[i]).subset_of(g[i]),
        form_syms_below(form, f.len() as nat),
    ensures
        first_form_spec(form, f).subset_of(first_form_spec(form, g)),
    decreases form.len(),
{
    if form.len() == 0 {
    } else {
        match form[0] {
            GrammarSymbol::Token(_) => {},
            GrammarSymbol::Symbol(s) => {
                assert(sym_below(form[0], f.len() as nat));
                assert(form_syms_below(form.drop_first(), f.len() as nat)) by {
                    assert forall|i: int| 0 <= i < form.drop_first().len() implies sym_below(
                        #[trigger] form.drop_first()[i],
                        f.len() as nat,
                    ) by {
                        assert(form.drop_first()[i] == form[i + 1]);
                    }
                }
                lemma_first_form_mono(form.drop_first(), f, g);
                let a = s.0 as int;
                if f[a].contains(None) {
                    assert(g[a].contains(None));
                    assert(f[a].remove(None).subset_of(g[a].remove(None)));
                } else {
                    if g[a].contains(None) {
                        assert(f[a].subset_of(g[a].remove(None)));
                    }
                }
            },
        }
    }
}

/// The per-nonterminal union of right-hand-side FIRSTs grows monotonically
/// with the per-symbol sets.
pub proof fn lemma_first_union_mono(
    rules: Seq<Rule>,
    a: int,
    f: Seq<Set<Option<Token>>>,
    g: Seq<Set<Option<Token>>>,
)
    requires
        f.len() == g.len(),
        forall|i: int| 0 <= i < f.len() ==> (#[trigger] f[i]).subset_of(g[i]),
        rules_syms_below(rules, f.len() as nat),
    ensures
        first_union(rules, a, f).subset_of(first_union(rules, a, g)),
{
    assert forall|x: Option<Token>| first_union(rules, a, f).contains(x) implies first_union(
        rules,
        a,
        g,
    ).contains(x) by {
        let r = choose|r: int|
            0 <= r < rules.len() && (#[trigger] rules[r]).symbol.0 == a && first_form_spec(
                rules[r].tokens@,
                f,
            ).contains(x);
        lemma_first_form_mono(rules[r].tokens@, f, g);
        assert(first_form_spec(rules[r].tokens@, g).contains(x));
    }
}

/// Computes FIRST of a sentential form from the per-symbol FIRST sets.
pub fn first_of_form(form: &[GrammarSymbol], fm: &Vec<TokenSet>) -> (r: TokenSet)
    requires
        sets_wf(fm@),
        form_syms_below(form@, fm@.len() as nat),
    ensures
        r.wf(),
        r@ == first_form_spec(form@, sets_view(fm@)),
{
    let r = first_of_suffix(form, 0, fm);
    proof {
        assert(form@.skip(0) =~= form@);
    }
    r
}

/// Computes FIRST of the suffix of a sentential form that starts at `start`.
pub fn first_of_suffix(form: &[GrammarSymbol], start: usize, fm: &Vec<TokenSet>) -> (r: TokenSet)
    requires
        start <= form@.len(),
        sets_wf(fm@),
        form_syms_below(form@, fm@.len() as nat),
    ensures
        r.wf(),
        r@ == first_form_spec(form@.skip(start as int), sets_view(fm@)),
{
    let ghost fmv = sets_view(fm@);
    let ghost goal = first_form_spec(form@.skip(start as int), fmv);
    let mut r = TokenSet::new();
    let mut eps = true;
    let mut i: usize = start;
    proof {
        assert(r@ + goal =~= goal);
    }
    while eps && i < form.len()
        invariant
            start <= i <= form@.len(),
            sets_wf(fm@),
            form_syms_below(form@, fm@.len() as nat),
            fmv == sets_view(fm@),
            goal == first_form_spec(form@.skip(start as int), fmv),
            r.wf(),
            !r@.contains(None),
            eps ==> goal == r@ + first_form_spec(form@.skip(i as int), fmv),
            !eps ==> goal == r@,
        decreases form@.len() - i,
    {
        let ghost rest = form@.skip(i as int);
        proof {
            assert(rest.len() > 0);
            assert(rest[0] == form@[i as int]);
            assert(rest.drop_first() =~= form@.skip(i as int + 1));
        }
        match form[i] {
            GrammarSymbol::Token(t) => {
                proof {
                    assert(first_form_spec(rest, fmv) == set![Some(t)]);
                }
                self_insert_some(&mut r, t);
                proof {
                    assert(goal =~= r@);
                }
                eps = false;
            },
            GrammarSymbol::Symbol(s) => {
                let ghost pre = r@;
                proof {
                    assert(sym_below(form@[i as int], fm@.len() as nat));
                }
                let fs = &fm[s.0];
                proof {
                    assert(fs@ == fmv[s.0 as int]);
                }
                let _ = r.union_some_from(fs);
                eps = fs.contains(None);
                proof {
                    if eps {
                        assert(first_form_spec(rest, fmv) == fmv[s.0 as int].remove(None)
                            + first_form_spec(form@.skip(i as int + 1), fmv));
                        assert(goal =~= r@ + first_form_spec(
                            form@.skip(i as int + 1),
                            fmv,
                        ));
                    } else {
                        assert(first_form_spec(rest, fmv) == fmv[s.0 as int]);
                        assert(fmv[s.0 as int] =~= fmv[s.0 as int].remove(None));
                        assert(goal =~= r@);
                    }
                }
            },
        }
        i = i + 1;
    }
    if eps {
        proof {
            assert(i == form@.len());
            assert(form@.skip(i as int) =~= Seq::<GrammarSymbol>::empty());
            assert(first_form_spec(form@.skip(i as int), fmv) == set![None::<Token>]);
        }
        let _ = r.insert(None);
        proof {
            assert(goal =~= r@);
        }
    }
    r
}

/// Inserts a single terminal into a set.
fn self_insert_some(r: &mut TokenSet, t: Token)
    requires
        old(r).wf(),
    ensures
        final(r).wf(),
        final(r)@ == old(r)@.insert(Some(t)),
{
    let _ = r.insert(Some(t));
}

/// Every terminal of the form is an index below `n`.
pub open spec fn form_toks_below(form: Seq<GrammarSymbol>, n: nat) -> bool {
    forall|i: int|
        0 <= i < form.len() ==> match #[trigger] form[i] {
            GrammarSymbol::Token(t) => t.0 < n,
            GrammarSymbol::Symbol(_) => true,
        }
}

/// Every terminal on a right-hand side of the rules is an index below `n`.
pub open spec fn rules_toks_below(rules: Seq<Rule>, n: nat) -> bool {
    forall|r: int| 0 <= r < rules.len() ==> form_toks_below((#[trigger] rules[r]).tokens@, n)
}

/// Every set of the family mentions only tokens below `ntoks`.
pub open spec fn ssets_below(fv: Seq<Set<Option<Token>>>, ntoks: nat) -> bool {
    forall|i: int| 0 <= i < fv.len() ==> crate::bounds::ts_elems_below(#[trigger] fv[i], ntoks)
}

/// `f` is pointwise contained in `g`.
pub open spec fn pointwise_subset(
    f: Seq<Set<Option<Token>>>,
    g: Seq<Set<Option<Token>>>,
) -> bool {
    f.len() == g.len() && forall|a: int| 0 <= a < f.len() ==> (#[trigger] f[a]).subset_of(g[a])
}

/// FIRST of a form over bounded sets mentions only bounded tokens.
pub proof fn lemma_first_form_below(form: Seq<GrammarSymbol>, fv: Seq<Set<Option<Token>>>, ntoks: nat)
    requires
        form_toks_below(form, ntoks),
        form_syms_below(form, fv.len() as nat),
        ssets_below(fv, ntoks),
    ensures
        crate::bounds::ts_elems_below(first_form_spec(form, fv), ntoks),
    decreases form.len(),
{
    if form.len() == 0 {
    } else {
        assert(form_toks_below(form.drop_first(), ntoks)
            && form_syms_below(form.drop_first(), fv.len() as nat)) by {
            assert forall|i: int| 0 <= i < form.drop_first().len() implies
                form.drop_first()[i] == form[i + 1] by {}
        }
        lemma_first_form_below(form.drop_first(), fv, ntoks);
        match form[0] {
            GrammarSymbol::Token(t) => {
                assert forall|x: Option<Token>| #[trigger] first_form_spec(form, fv).contains(x)
                    implies crate::bounds::opt_token_enc(x) < ntoks by {
                    assert(x == Some(t));
                }
            },
            GrammarSymbol::Symbol(s) => {
                assert(sym_below(form[0], fv.len() as nat));
                assert(crate::bounds::ts_elems_below(fv[s.0 as int], ntoks));
            },
        }
    }
}

/// The justification invariant of the FIRST fixed point: every recorded
/// element is produced by some production under the current sets.
pub open spec fn first_justified(rules: Seq<Rule>, fv: Seq<Set<Option<Token>>>) -> bool {
    forall|a: int| 0 <= a < fv.len() ==> (#[trigger] fv[a]).subset_of(first_union(rules, a, fv))
}

/// The leastness invariant: the current sets sit below every closed family.
pub open spec fn first_least(rules: Seq<Rule>, fv: Seq<Set<Option<Token>>>) -> bool {
    forall|g: Seq<Set<Option<Token>>>|
        g.len() == fv.len() && #[trigger] first_closed(rules, g) ==> pointwise_subset(fv, g)
}

/// Computes the per-symbol FIRST sets of the grammar as the least fixed point
/// of the FIRST rules: each nonterminal's set equals the union of its
/// productions' right-hand-side FIRSTs, and no smaller closed family exists.
pub fn compute_firsts(rules: &Vec<Rule>, nsyms: usize, ntoks: usize) -> (fm: Vec<TokenSet>)
    requires
        rules_syms_below(rules@, nsyms as nat),
        rules_toks_below(rules@, ntoks as nat),
    ensures
        fm@.len() == nsyms,
        sets_wf(fm@),
        ssets_below(sets_view(fm@), ntoks as nat),
        first_closed(rules@, sets_view(fm@)),
        forall|a: int|
            0 <= a < nsyms ==> sets_view(fm@)[a] == first_union(rules@, a, sets_view(fm@)),
        first_least(rules@, sets_view(fm@)),
{
    let mut fm: Vec<TokenSet> = Vec::new();
    let mut k: usize = 0;
    while k < nsyms
        invariant
            k <= nsyms,
            fm@.len() == k,
            sets_wf(fm@),
            forall|j: int| 0 <= j < k ==> (#[trigger] fm@[j])@ == Set::<Option<Token>>::empty(),
        decreases nsyms - k,
    {
        fm.push(TokenSet::new());
        k = k + 1;
    }
    let ghost ubound = (nsyms as int) * ((ntoks + 1) as int);
    let mut changed = true;
    proof {
        assert forall|i: int| 0 <= i < fm@.len() implies (#[trigger] fm@[i]).wf()
            && crate::bounds::ts_elems_below(fm@[i]@, ntoks as nat) by {
            assert(fm@[i]@ == Set::<Option<Token>>::empty());
        }
        crate::bounds::lemma_total_len_bound(fm@, ntoks as nat);
        assert forall|a: int| 0 <= a < nsyms implies (#[trigger] sets_view(fm@)[a]).subset_of(
            first_union(rules@, a, sets_view(fm@)),
        ) by {
            assert(sets_view(fm@)[a] == fm@[a]@);
        }
        assert(ssets_below(sets_view(fm@), ntoks as nat)) by {
            assert forall|i: int| 0 <= i < sets_view(fm@).len() implies
                crate::bounds::ts_elems_below(#[trigger] sets_view(fm@)[i], ntoks as nat) by {
                assert(sets_view(fm@)[i] == fm@[i]@);
            }
        }
    }
    while changed
        invariant
            fm@.len() == nsyms,
            sets_wf(fm@),
            ssets_below(sets_view(fm@), ntoks as nat),
            first_justified(rules@, sets_view(fm@)),
            first_least(rules@, sets_view(fm@)),
            !changed ==> first_closed(rules@, sets_view(fm@)),
            rules_syms_below(rules@, nsyms as nat),
            rules_toks_below(rules@, ntoks as nat),
            crate::bounds::total_len(fm@) <= ubound,
            ubound == (nsyms as int) * ((ntoks + 1) as int),
        decreases
            ubound - crate::bounds::total_len(fm@),
            (if changed { 1int } else { 0int }),
    {
        let ghost total0 = crate::bounds::total_len(fm@);
        let ghost fv0 = sets_view(fm@);
        changed = false;
        let mut r: usize = 0;
        while r < rules.len()
            invariant
                fm@.len() == nsyms,
                sets_wf(fm@),
                ssets_below(sets_view(fm@), ntoks as nat),
                first_justified(rules@, sets_view(fm@)),
                first_least(rules@, sets_view(fm@)),
                rules_syms_below(rules@, nsyms as nat),
                rules_toks_below(rules@, ntoks as nat),
                r <= rules@.len(),
                crate::bounds::total_len(fm@) >= total0,
                changed ==> crate::bounds::total_len(fm@) > total0,
                !changed ==> sets_view(fm@) == fv0,
                !changed ==> forall|r2: int|
                    0 <= r2 < r ==> first_form_spec((#[trigger] rules@[r2]).tokens@, fv0).subset_of(
                        fv0[rules@[r2].symbol.0 as int],
                    ),
            decreases rules@.len() - r,
        {
            let ghost fv = sets_view(fm@);
            let f = first_of_form(rules[r].tokens.as_slice(), &fm);
            let lhs = rules[r].symbol.0;
            proof {
                assert(rules@[r as int].symbol.0 < nsyms);
            }
            let ghost fm_pre = fm@;
            let c = fm[lhs].union_from(&f);
            proof {
                let ghost fv2 = sets_view(fm@);
                assert(fm@ == fm_pre.update(lhs as int, fm@[lhs as int]));
                assert(fv2 =~= fv.update(lhs as int, fv[lhs as int] + f@)) by {
                    assert(fv2.len() == fv.len());
                    assert forall|a: int| 0 <= a < fv2.len() implies fv2[a] == fv.update(
                        lhs as int,
                        fv[lhs as int] + f@,
                    )[a] by {
                        assert(fv2[a] == fm@[a]@);
                    }
                }
                assert(pointwise_subset(fv, fv2));
                // Tokens stay bounded.
                lemma_first_form_below(rules@[r as int].tokens@, fv, ntoks as nat);
                assert(ssets_below(fv2, ntoks as nat));
                // Justification is preserved.
                assert forall|a: int| 0 <= a < fv2.len() implies (#[trigger] fv2[a]).subset_of(
                    first_union(rules@, a, fv2),
                ) by {
                    lemma_first_union_mono(rules@, a, fv, fv2);
                    if a == lhs as int {
                        lemma_first_form_mono(rules@[r as int].tokens@, fv, fv2);
                        assert forall|x: Option<Token>| f@.contains(x) implies first_union(
                            rules@,
                            a,
                            fv2,
                        ).contains(x) by {
                            assert(first_form_spec(rules@[r as int].tokens@, fv2).contains(x));
                        }
                    }
                }
                // Leastness is preserved.
                assert forall|g: Seq<Set<Option<Token>>>|
                    g.len() == fv2.len() && #[trigger] first_closed(rules@, g) implies
                    pointwise_subset(fv2, g) by {
                    assert(pointwise_subset(fv, g));
                    lemma_first_form_mono(rules@[r as int].tokens@, fv, g);
                    assert(f@.subset_of(g[lhs as int]));
                }
                // Measure bookkeeping.
                crate::bounds::lemma_total_len_update(fm_pre, lhs as int, fm@[lhs as int]);
                // If nothing changed, the view is unchanged.
                if !c {
                    assert(f@.subset_of(fv[lhs as int]));
                    assert(fv2[lhs as int] =~= fv[lhs as int]);
                    assert(fv2 =~= fv);
                }
            }
            if c {
                changed = true;
            }
            r = r + 1;
        }
        proof {
            if !changed {
                assert(first_closed(rules@, sets_view(fm@)));
            }
            assert forall|i: int| 0 <= i < fm@.len() implies (#[trigger] fm@[i]).wf()
                && crate::bounds::ts_elems_below(fm@[i]@, ntoks as nat) by {
                assert(sets_view(fm@)[i] == fm@[i]@);
            }
            crate::bounds::lemma_total_len_bound(fm@, ntoks as nat);
        }
    }
    proof {
        assert forall|a: int| 0 <= a < nsyms implies sets_view(fm@)[a] == first_union(
            rules@,
            a,
            sets_view(fm@),
        ) by {
            let fv = sets_view(fm@);
            assert forall|x: Option<Token>| first_union(rules@, a, fv).contains(x) implies
                fv[a].contains(x) by {
                let rr = choose|rr: int|
                    0 <= rr < rules@.len() && (#[trigger] rules@[rr]).symbol.0 == a
                        && first_form_spec(rules@[rr].tokens@, fv).contains(x);
                assert(first_form_spec(rules@[rr].tokens@, fv).subset_of(fv[rules@[rr].symbol.0 as int]));
            }
            assert(fv[a] =~= first_union(rules@, a, fv));
        }
    }
    fm
}

/// The FOLLOW condition at position `i` of rule `r`, relative to per-symbol
/// FIRST sets `fv`: with the rule shaped `A -> alpha B beta` and `B` standing
/// at position `i`, everything FIRST(beta) derives but the empty word lies in
/// FOLLOW(B), and FOLLOW(A) lies in FOLLOW(B) whenever beta derives the empty
/// word.
pub open spec fn follow_pos_ok(
    rules: Seq<Rule>,
    r: int,
    i: int,
    fv: Seq<Set<Option<Token>>>,
    fl: Seq<Set<Option<Token>>>,
) -> bool {
    match rules[r].tokens@[i] {
        GrammarSymbol::Token(_) => true,
        GrammarSymbol::Symbol(b) => {
            let rest = first_form_spec(rules[r].tokens@.skip(i + 1), fv);
            &&& rest.remove(None).subset_of(fl[b.0 as int])
            &&& rest.contains(None) ==> fl[rules[r].symbol.0 as int].subset_of(fl[b.0 as int])
        },
    }
}

/// The FOLLOW conditions hold at every position of rule `r`.
pub open spec fn follow_rule_ok(
    rules: Seq<Rule>,
    r: int,
    fv: Seq<Set<Option<Token>>>,
    fl: Seq<Set<Option<Token>>>,
) -> bool {
    forall|i: int| 0 <= i < rules[r].tokens@.len() ==> #[trigger] follow_pos_ok(rules, r, i, fv, fl)
}

/// `fl` is closed under the FOLLOW rules, relative to FIRST sets `fv`.
pub open spec fn follow_closed(
    rules: Seq<Rule>,
    fv: Seq<Set<Option<Token>>>,
    fl: Seq<Set<Option<Token>>>,
) -> bool {
    forall|r: int| 0 <= r < rules.len() ==> #[trigger] follow_rule_ok(rules, r, fv, fl)
}

/// The leastness property of the FOLLOW sets: they sit below every closed
/// family whose start_sym set holds the end marker.
pub open spec fn follow_least(
    rules: Seq<Rule>,
    fv: Seq<Set<Option<Token>>>,
    start_sym: int,
    fl: Seq<Set<Option<Token>>>,
) -> bool {
    forall|g: Seq<Set<Option<Token>>>|
        g.len() == fl.len() && #[trigger] follow_closed(rules, fv, g) && g[start_sym].contains(None)
            ==> pointwise_subset(fl, g)
}

/// A suffix of a bounded form is bounded.
pub proof fn lemma_skip_below(form: Seq<GrammarSymbol>, k: int, nsyms: nat, ntoks: nat)
    requires
        form_syms_below(form, nsyms),
        form_toks_below(form, ntoks),
        0 <= k <= form.len(),
    ensures
        form_syms_below(form.skip(k), nsyms),
        form_toks_below(form.skip(k), ntoks),
{
    assert forall|i: int| 0 <= i < form.skip(k).len() implies sym_below(
        #[trigger] form.skip(k)[i],
        nsyms,
    ) && match form.skip(k)[i] {
        GrammarSymbol::Token(t) => t.0 < ntoks,
        GrammarSymbol::Symbol(_) => true,
    } by {
        assert(form.skip(k)[i] == form[k + i]);
    }
}

/// One union step of the FOLLOW fixed point preserves the running invariants:
/// provided everything just added is owed to `b`'s set by every closed
/// family above the current one, the end marker stays put, leastness is kept,
/// and the family stays bounded.
pub proof fn lemma_follow_union_step(
    rules: Seq<Rule>,
    fv: Seq<Set<Option<Token>>>,
    fl_pre: Seq<TokenSet>,
    fl_post: Seq<TokenSet>,
    b: int,
    added: Set<Option<Token>>,
    start_sym: int,
    ntoks: nat,
)
    requires
        0 <= b < fl_pre.len(),
        fl_post.len() == fl_pre.len(),
        fl_post == fl_pre.update(b, fl_post[b]),
        fl_post[b]@ == fl_pre[b]@ + added,
        0 <= start_sym < fl_pre.len(),
        sets_view(fl_pre)[start_sym].contains(None),
        follow_least(rules, fv, start_sym, sets_view(fl_pre)),
        ssets_below(sets_view(fl_pre), ntoks),
        crate::bounds::ts_elems_below(added, ntoks),
        forall|g: Seq<Set<Option<Token>>>|
            g.len() == fl_pre.len() && #[trigger] follow_closed(rules, fv, g) && g[start_sym].contains(
                None,
            ) && pointwise_subset(sets_view(fl_pre), g) ==> added.subset_of(g[b]),
    ensures
        sets_view(fl_post)[start_sym].contains(None),
        follow_least(rules, fv, start_sym, sets_view(fl_post)),
        ssets_below(sets_view(fl_post), ntoks),
{
    let p = sets_view(fl_pre);
    let q = sets_view(fl_post);
    assert(q.len() == p.len());
    assert forall|a: int| 0 <= a < q.len() implies q[a] == if a == b {
        p[a] + added
    } else {
        p[a]
    } by {
        assert(q[a] == fl_post[a]@);
        assert(p[a] == fl_pre[a]@);
        if a != b {
            assert(fl_post[a] == fl_pre[a]);
        }
    }
    assert(q[start_sym].contains(None));
    assert forall|g: Seq<Set<Option<Token>>>|
        g.len() == q.len() && #[trigger] follow_closed(rules, fv, g) && g[start_sym].contains(None)
            implies pointwise_subset(q, g) by {
        assert(pointwise_subset(p, g));
        assert(added.subset_of(g[b]));
        assert forall|a: int| 0 <= a < q.len() implies (#[trigger] q[a]).subset_of(g[a]) by {
            assert(p[a].subset_of(g[a]));
        }
    }
    assert forall|a: int| 0 <= a < q.len() implies crate::bounds::ts_elems_below(
        #[trigger] q[a],
        ntoks,
    ) by {
        assert(crate::bounds::ts_elems_below(p[a], ntoks));
    }
}

/// Computes the FOLLOW sets of the grammar as the least fixed point of the
/// FOLLOW rules over the given per-symbol FIRST sets: the end marker is in
/// FOLLOW(start_sym), the family is closed under the FOLLOW rules, and no smaller
/// such family exists.
pub fn compute_follows(
    rules: &Vec<Rule>,
    nsyms: usize,
    ntoks: usize,
    fm: &Vec<TokenSet>,
    start_sym: crate::grammar::Symbol,
) -> (fl: Vec<TokenSet>)
    requires
        rules_syms_below(rules@, nsyms as nat),
        rules_toks_below(rules@, ntoks as nat),
        fm@.len() == nsyms,
        sets_wf(fm@),
        ssets_below(sets_view(fm@), ntoks as nat),
        start_sym.0 < nsyms,
    ensures
        fl@.len() == nsyms,
        sets_wf(fl@),
        ssets_below(sets_view(fl@), ntoks as nat),
        sets_view(fl@)[start_sym.0 as int].contains(None),
        follow_closed(rules@, sets_view(fm@), sets_view(fl@)),
        follow_least(rules@, sets_view(fm@), start_sym.0 as int, sets_view(fl@)),
{
    let ghost fv = sets_view(fm@);
    let mut fl: Vec<TokenSet> = Vec::new();
    let mut k: usize = 0;
    while k < nsyms
        invariant
            k <= nsyms,
            fl@.len() == k,
            sets_wf(fl@),
            forall|j: int| 0 <= j < k ==> (#[trigger] fl@[j])@ == Set::<Option<Token>>::empty(),
        decreases nsyms - k,
    {
        fl.push(TokenSet::new());
        k = k + 1;
    }
    let ghost fl_init = sets_view(fl@);
    let _ = fl[start_sym.0].insert(None);
    proof {
        assert forall|i: int| 0 <= i < fl@.len() implies (#[trigger] fl@[i]).wf()
            && crate::bounds::ts_elems_below(fl@[i]@, ntoks as nat) by {
            assert(fl_init[i] == fl_init[i]);
            if i == start_sym.0 as int {
                assert(fl@[i]@ == fl_init[i].insert(None));
                assert(fl_init[i] == Set::<Option<Token>>::empty());
            } else {
                assert(fl@[i]@ == fl_init[i]);
                assert(fl_init[i] == Set::<Option<Token>>::empty());
            }
        }
        crate::bounds::lemma_total_len_bound(fl@, ntoks as nat);
        assert forall|g: Seq<Set<Option<Token>>>|
            g.len() == nsyms && #[trigger] follow_closed(rules@, fv, g) && g[start_sym.0 as int].contains(
                None,
            ) implies pointwise_subset(sets_view(fl@), g) by {
            assert forall|a: int| 0 <= a < nsyms implies (#[trigger] sets_view(fl@)[a]).subset_of(
                g[a],
            ) by {
                assert(sets_view(fl@)[a] == fl@[a]@);
            }
        }
    }
    let ghost ubound = (nsyms as int) * ((ntoks + 1) as int);
    let mut changed = true;
    while changed
        invariant
            fl@.len() == nsyms,
            sets_wf(fl@),
            ssets_below(sets_view(fl@), ntoks as nat),
            sets_view(fl@)[start_sym.0 as int].contains(None),
            follow_least(rules@, fv, start_sym.0 as int, sets_view(fl@)),
            !changed ==> follow_closed(rules@, fv, sets_view(fl@)),
            rules_syms_below(rules@, nsyms as nat),
            rules_toks_below(rules@, ntoks as nat),
            fm@.len() == nsyms,
            sets_wf(fm@),
            ssets_below(fv, ntoks as nat),
            fv == sets_view(fm@),
            start_sym.0 < nsyms,
            crate::bounds::total_len(fl@) <= ubound,
            ubound == (nsyms as int) * ((ntoks + 1) as int),
        decreases
            ubound - crate::bounds::total_len(fl@),
            (if changed { 1int } else { 0int }),
    {
        let ghost total0 = crate::bounds::total_len(fl@);
        let ghost flv0 = sets_view(fl@);
        changed = false;
        let mut r: usize = 0;
        while r < rules.len()
            invariant
                fl@.len() == nsyms,
                sets_wf(fl@),
                ssets_below(sets_view(fl@), ntoks as nat),
                sets_view(fl@)[start_sym.0 as int].contains(None),
                follow_least(rules@, fv, start_sym.0 as int, sets_view(fl@)),
                rules_syms_below(rules@, nsyms as nat),
                rules_toks_below(rules@, ntoks as nat),
                fm@.len() == nsyms,
                sets_wf(fm@),
                ssets_below(fv, ntoks as nat),
                fv == sets_view(fm@),
                start_sym.0 < nsyms,
                r <= rules@.len(),
                crate::bounds::total_len(fl@) >= total0,
                changed ==> crate::bounds::total_len(fl@) > total0,
                !changed ==> sets_view(fl@) == flv0,
                !changed ==> forall|r2: int|
                    0 <= r2 < r ==> #[trigger] follow_rule_ok(rules@, r2, fv, flv0),
            decreases rules@.len() - r,
        {
            let ntok_r = rules[r].tokens.len();
            let mut i: usize = 0;
            while i < ntok_r
                invariant
                    fl@.len() == nsyms,
                    sets_wf(fl@),
                    ssets_below(sets_view(fl@), ntoks as nat),
                    sets_view(fl@)[start_sym.0 as int].contains(None),
                    follow_least(rules@, fv, start_sym.0 as int, sets_view(fl@)),
                    rules_syms_below(rules@, nsyms as nat),
                    rules_toks_below(rules@, ntoks as nat),
                    fm@.len() == nsyms,
                    sets_wf(fm@),
                    ssets_below(fv, ntoks as nat),
                    fv == sets_view(fm@),
                    start_sym.0 < nsyms,
                    r < rules@.len(),
                    ntok_r == rules@[r as int].tokens@.len(),
                    i <= ntok_r,
                    crate::bounds::total_len(fl@) >= total0,
                    changed ==> crate::bounds::total_len(fl@) > total0,
                    !changed ==> sets_view(fl@) == flv0,
                    !changed ==> forall|r2: int|
                        0 <= r2 < r ==> #[trigger] follow_rule_ok(rules@, r2, fv, flv0),
                    !changed ==> forall|i2: int|
                        0 <= i2 < i ==> #[trigger] follow_pos_ok(rules@, r as int, i2, fv, flv0),
                decreases ntok_r - i,
            {
                let gs = rules[r].tokens[i];
                let ghost rest = first_form_spec(rules@[r as int].tokens@.skip(i as int + 1), fv);
                match gs {
                    GrammarSymbol::Token(_) => {
                        proof {
                            if !changed {
                                assert(follow_pos_ok(rules@, r as int, i as int, fv, flv0));
                            }
                        }
                    },
                    GrammarSymbol::Symbol(b) => {
                        proof {
                            assert(sym_below(rules@[r as int].tokens@[i as int], nsyms as nat));
                            assert(form_toks_below(rules@[r as int].tokens@, ntoks as nat));
                            lemma_skip_below(rules@[r as int].tokens@, i as int + 1, nsyms as nat, ntoks as nat);
                            lemma_first_form_below(
                                rules@[r as int].tokens@.skip(i as int + 1),
                                fv,
                                ntoks as nat,
                            );
                        }
                        let f = first_of_suffix(rules[r].tokens.as_slice(), i + 1, &fm);
                        let lhs = rules[r].symbol.0;
                        let eps = f.contains(None);
                        if eps {
                            let fa = fl[lhs].clone();
                            let ghost fl_pre = fl@;
                            let ghost flv_pre = sets_view(fl@);
                            let c1 = fl[b.0].union_from(&fa);
                            proof {
                                assert forall|g: Seq<Set<Option<Token>>>|
                                    g.len() == nsyms && #[trigger] follow_closed(rules@, fv, g)
                                        && g[start_sym.0 as int].contains(None) && pointwise_subset(
                                        flv_pre,
                                        g,
                                    ) implies fa@.subset_of(g[b.0 as int]) by {
                                    assert(follow_rule_ok(rules@, r as int, fv, g));
                                    assert(follow_pos_ok(rules@, r as int, i as int, fv, g));
                                    assert(g[lhs as int].subset_of(g[b.0 as int]));
                                    assert(fa@ == flv_pre[lhs as int]);
                                }
                                assert(fa@ == flv_pre[lhs as int]);
                                assert(crate::bounds::ts_elems_below(fa@, ntoks as nat));
                                lemma_follow_union_step(
                                    rules@, fv, fl_pre, fl@, b.0 as int, fa@, start_sym.0 as int,
                                    ntoks as nat,
                                );
                                crate::bounds::lemma_total_len_update(fl_pre, b.0 as int, fl@[b.0 as int]);
                                if !changed && !c1 {
                                    assert(fa@.subset_of(flv_pre[b.0 as int]));
                                    assert(flv0[lhs as int].subset_of(flv0[b.0 as int]));
                                    assert(sets_view(fl@) =~= flv0) by {
                                        assert forall|a: int| 0 <= a < nsyms implies sets_view(
                                            fl@,
                                        )[a] == flv0[a] by {
                                            assert(sets_view(fl@)[a] == fl@[a]@);
                                            if a == b.0 as int {
                                                assert(fl@[a]@ =~= flv_pre[a]);
                                            }
                                        }
                                    }
                                }
                            }
                            if c1 {
                                changed = true;
                            }
                        }
                        let ghost fl_pre = fl@;
                        let ghost flv_pre = sets_view(fl@);
                        let c2 = fl[b.0].union_some_from(&f);
                        proof {
                            assert forall|g: Seq<Set<Option<Token>>>|
                                g.len() == nsyms && #[trigger] follow_closed(rules@, fv, g)
                                    && g[start_sym.0 as int].contains(None) && pointwise_subset(
                                    flv_pre,
                                    g,
                                ) implies f@.remove(None).subset_of(g[b.0 as int]) by {
                                assert(follow_rule_ok(rules@, r as int, fv, g));
                                assert(follow_pos_ok(rules@, r as int, i as int, fv, g));
                            }
                            assert(crate::bounds::ts_elems_below(f@.remove(None), ntoks as nat));
                            lemma_follow_union_step(
                                rules@, fv, fl_pre, fl@, b.0 as int, f@.remove(None),
                                start_sym.0 as int, ntoks as nat,
                            );
                            crate::bounds::lemma_total_len_update(fl_pre, b.0 as int, fl@[b.0 as int]);
                        }
                        if c2 {
                            changed = true;
                        }
                        proof {
                            if !changed {
                                assert(flv_pre =~= flv0);
                                assert(f@.remove(None).subset_of(flv_pre[b.0 as int]));
                                assert(sets_view(fl@) =~= flv0) by {
                                    assert forall|a: int| 0 <= a < nsyms implies sets_view(fl@)[a]
                                        == flv0[a] by {
                                        assert(sets_view(fl@)[a] == fl@[a]@);
                                        if a == b.0 as int {
                                            assert(fl@[a]@ =~= flv_pre[a]);
                                        }
                                    }
                                }
                                assert(follow_pos_ok(rules@, r as int, i as int, fv, flv0)) by {
                                    assert(rest == f@);
                                    assert(rest.remove(None).subset_of(flv0[b.0 as int]));
                                }
                            }
                        }
                    },
                }
                i = i + 1;
                proof {
                    if !changed {
                        assert forall|i2: int| 0 <= i2 < i implies #[trigger] follow_pos_ok(
                            rules@,
                            r as int,
                            i2,
                            fv,
                            flv0,
                        ) by {
                        }
                    }
                }
            }
            r = r + 1;
            proof {
                if !changed {
                    assert forall|r2: int| 0 <= r2 < r implies #[trigger] follow_rule_ok(
                        rules@,
                        r2,
                        fv,
                        flv0,
                    ) by {
                        if r2 == r - 1 {
                            assert(forall|i2: int|
                                0 <= i2 < rules@[r2].tokens@.len() ==> #[trigger] follow_pos_ok(
                                    rules@,
                                    r2,
                                    i2,
                                    fv,
                                    flv0,
                                ));
                        }
                    }
                }
            }
        }
        proof {
            assert forall|idx: int| 0 <= idx < fl@.len() implies (#[trigger] fl@[idx]).wf()
                && crate::bounds::ts_elems_below(fl@[idx]@, ntoks as nat) by {
                assert(sets_view(fl@)[idx] == fl@[idx]@);
            }
            crate::bounds::lemma_total_len_bound(fl@, ntoks as nat);
        }
    }
    fl
}

} // verus!

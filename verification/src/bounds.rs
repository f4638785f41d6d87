//! Cardinality bounds backing the termination measures of the fixed-point
//! computations.

use vstd::prelude::*;
use vstd::set_lib::{lemma_int_range, lemma_len_subset, set_int_range};

use crate::grammar::Token;
use crate::tokenset::TokenSet;

verus! {

/// A duplicate-free sequence of integers drawn from `[lo, hi)` has at most
/// `hi - lo` elements.
pub proof fn lemma_unique_bounded_int_seq_len(s: Seq<int>, lo: int, hi: int)
    requires
        s.no_duplicates(),
        forall|i: int| 0 <= i < s.len() ==> lo <= #[trigger] s[i] < hi,
        lo <= hi,
    ensures
        s.len() <= hi - lo,
{
    s.unique_seq_to_set();
    assert(s.to_set().subset_of(set_int_range(lo, hi))) by {
        assert forall|x: int| s.to_set().contains(x) implies set_int_range(lo, hi).contains(x) by {
            assert(s.contains(x));
        }
    }
    lemma_int_range(lo, hi);
    lemma_len_subset(s.to_set(), set_int_range(lo, hi));
}

/// Encoding of a lookahead element as an integer.
pub open spec fn opt_token_enc(x: Option<Token>) -> int {
    match x {
        None => -1,
        Some(t) => t.0 as int,
    }
}

/// Every token the set mentions is an index below `ntoks`.
pub open spec fn ts_elems_below(s: Set<Option<Token>>, ntoks: nat) -> bool {
    forall|x: Option<Token>| #[trigger] s.contains(x) ==> opt_token_enc(x) < ntoks
}

/// A duplicate-free token set over `ntoks` tokens holds at most `ntoks + 1`
/// entries (the tokens and the `None` marker).
pub proof fn lemma_token_set_len_bound(ts: TokenSet, ntoks: nat)
    requires
        ts.wf(),
        ts_elems_below(ts@, ntoks),
    ensures
        ts.elems@.len() <= ntoks + 1,
{
    let enc = |x: Option<Token>| opt_token_enc(x);
    let encs = ts.elems@.map_values(enc);
    assert(encs.no_duplicates()) by {
        assert forall|i: int, j: int|
            0 <= i < encs.len() && 0 <= j < encs.len() && i != j implies encs[i] != encs[j] by {
            assert(ts.elems@[i] != ts.elems@[j]);
        }
    }
    assert forall|i: int| 0 <= i < encs.len() implies -1 <= #[trigger] encs[i] < ntoks by {
        assert(ts.elems@.contains(ts.elems@[i]));
        assert(ts@.contains(ts.elems@[i]));
    }
    lemma_unique_bounded_int_seq_len(encs, -1, ntoks as int);
}

/// Sum of the sizes of a vector of token sets.
pub open spec fn total_len(v: Seq<TokenSet>) -> nat
    decreases v.len(),
{
    if v.len() == 0 {
        0
    } else {
        total_len(v.drop_last()) + v.last().elems@.len()
    }
}

/// Replacing one entry changes the total by the difference of the entry
/// sizes.
pub proof fn lemma_total_len_update(v: Seq<TokenSet>, i: int, x: TokenSet)
    requires
        0 <= i < v.len(),
    ensures
        total_len(v.update(i, x)) == total_len(v) + x.elems@.len() - v[i].elems@.len(),
    decreases v.len(),
{
    if i == v.len() - 1 {
        assert(v.update(i, x).drop_last() =~= v.drop_last());
        assert(v.update(i, x).last() == x);
    } else {
        assert(v.update(i, x).drop_last() =~= v.drop_last().update(i, x));
        assert(v.update(i, x).last() == v.last());
        lemma_total_len_update(v.drop_last(), i, x);
    }
}

/// With every set duplicate-free and over `ntoks` tokens, the total is
/// bounded by `len * (ntoks + 1)`.
pub proof fn lemma_total_len_bound(v: Seq<TokenSet>, ntoks: nat)
    requires
        forall|i: int| 0 <= i < v.len() ==> (#[trigger] v[i]).wf() && ts_elems_below(v[i]@, ntoks),
    ensures
        total_len(v) <= v.len() * (ntoks + 1),
    decreases v.len(),
{
    if v.len() == 0 {
    } else {
        assert(v.drop_last()[v.len() - 2] == v[v.len() - 2] || v.len() == 1);
        assert forall|i: int| 0 <= i < v.drop_last().len() implies (#[trigger] v.drop_last()[i]).wf()
            && ts_elems_below(v.drop_last()[i]@, ntoks) by {
            assert(v.drop_last()[i] == v[i]);
        }
        lemma_total_len_bound(v.drop_last(), ntoks);
        assert(v.last() == v[v.len() - 1]);
        lemma_token_set_len_bound(v.last(), ntoks);
        assert((v.len() - 1) * (ntoks + 1) + (ntoks + 1) == v.len() * (ntoks + 1)) by (nonlinear_arith);
    }
}

/// A strictly increasing sequence of integers, each in `[0, n)`.
pub open spec fn strictly_increasing_below(s: Seq<int>, n: int) -> bool {
    &&& forall|i: int, j: int| 0 <= i < j < s.len() ==> #[trigger] s[i] < #[trigger] s[j]
    &&& forall|i: int| 0 <= i < s.len() ==> 0 <= #[trigger] s[i] < n
}

/// The bitmask encoding of a strictly increasing sequence of bit positions.
pub open spec fn bitmask_of(s: Seq<int>) -> int
    decreases s.len(),
{
    if s.len() == 0 {
        0
    } else {
        bitmask_of(s.drop_last()) + vstd::arithmetic::power2::pow2(s.last() as nat)
    }
}

/// The bitmask of a strictly increasing sequence below `n` lies in
/// `[0, pow2(n))`; moreover it is below `pow2(last + 1)`.
pub proof fn lemma_bitmask_range(s: Seq<int>, n: int)
    requires
        strictly_increasing_below(s, n),
        n >= 0,
    ensures
        0 <= bitmask_of(s) < vstd::arithmetic::power2::pow2(n as nat),
        s.len() > 0 ==> bitmask_of(s) < vstd::arithmetic::power2::pow2((s.last() + 1) as nat),
    decreases s.len(),
{
    vstd::arithmetic::power2::lemma_pow2_pos(n as nat);
    if s.len() == 0 {
    } else {
        let front = s.drop_last();
        let e = s.last();
        assert(strictly_increasing_below(front, n)) by {
            assert(forall|i: int| 0 <= i < front.len() ==> front[i] == s[i]);
        }
        lemma_bitmask_range(front, n);
        vstd::arithmetic::power2::lemma_pow2_pos(e as nat);
        if front.len() > 0 {
            assert(front.last() == s[s.len() - 2]);
            assert(front.last() < e);
            lemma_bitmask_range(front, e);
            assert(bitmask_of(front) < vstd::arithmetic::power2::pow2(((front.last()) + 1) as nat));
            if front.last() + 1 < e {
                vstd::arithmetic::power2::lemma_pow2_strictly_increases(
                    ((front.last()) + 1) as nat,
                    e as nat,
                );
            }
            assert(bitmask_of(front) < vstd::arithmetic::power2::pow2(e as nat));
        }
        assert(bitmask_of(s) < 2 * vstd::arithmetic::power2::pow2(e as nat));
        assert(2 * vstd::arithmetic::power2::pow2(e as nat) == vstd::arithmetic::power2::pow2(
            (e + 1) as nat,
        )) by {
            vstd::arithmetic::power2::lemma_pow2_unfold((e + 1) as nat);
        }
        if e + 1 < n {
            vstd::arithmetic::power2::lemma_pow2_strictly_increases((e + 1) as nat, n as nat);
        }
        if e + 1 > n {
            assert(false);
        }
    }
}

/// Distinct strictly increasing sequences have distinct bitmasks.
pub proof fn lemma_bitmask_injective(s1: Seq<int>, s2: Seq<int>, n: int)
    requires
        strictly_increasing_below(s1, n),
        strictly_increasing_below(s2, n),
        n >= 0,
        s1 != s2,
    ensures
        bitmask_of(s1) != bitmask_of(s2),
    decreases s1.len() + s2.len(),
{
    if s1.len() == 0 {
        if s2.len() == 0 {
            assert(s1 =~= s2);
        }
        assert(s2.len() > 0);
        lemma_bitmask_range(s2.drop_last(), n);
        vstd::arithmetic::power2::lemma_pow2_pos(s2.last() as nat);
        assert(bitmask_of(s2) > 0);
    } else if s2.len() == 0 {
        lemma_bitmask_range(s1.drop_last(), n);
        vstd::arithmetic::power2::lemma_pow2_pos(s1.last() as nat);
        assert(bitmask_of(s1) > 0);
    } else {
        let e1 = s1.last();
        let e2 = s2.last();
        if e1 < e2 {
            lemma_bitmask_range(s1, n);
            lemma_bitmask_range(s2, n);
            assert(bitmask_of(s1) < vstd::arithmetic::power2::pow2((e1 + 1) as nat));
            if e1 + 1 < e2 {
                vstd::arithmetic::power2::lemma_pow2_strictly_increases((e1 + 1) as nat, e2 as nat);
            }
            lemma_bitmask_range(s2.drop_last(), n);
            assert(bitmask_of(s2) >= vstd::arithmetic::power2::pow2(e2 as nat));
        } else if e2 < e1 {
            lemma_bitmask_range(s1, n);
            lemma_bitmask_range(s2, n);
            assert(bitmask_of(s2) < vstd::arithmetic::power2::pow2((e2 + 1) as nat));
            if e2 + 1 < e1 {
                vstd::arithmetic::power2::lemma_pow2_strictly_increases((e2 + 1) as nat, e1 as nat);
            }
            lemma_bitmask_range(s1.drop_last(), n);
            assert(bitmask_of(s1) >= vstd::arithmetic::power2::pow2(e1 as nat));
        } else {
            let f1 = s1.drop_last();
            let f2 = s2.drop_last();
            assert(strictly_increasing_below(f1, n)) by {
                assert(forall|i: int| 0 <= i < f1.len() ==> f1[i] == s1[i]);
            }
            assert(strictly_increasing_below(f2, n)) by {
                assert(forall|i: int| 0 <= i < f2.len() ==> f2[i] == s2[i]);
            }
            assert(f1 != f2) by {
                if f1 == f2 {
                    assert(s1 =~= f1.push(e1));
                    assert(s2 =~= f2.push(e2));
                    assert(f1.push(e1) == f2.push(e2));
                }
            }
            lemma_bitmask_injective(f1, f2, n);
        }
    }
}

} // verus!

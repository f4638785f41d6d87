//! Sets of lookahead elements.
//!
//! A `TokenSet` holds values of type `Option<Token>`. In FIRST sets, `None`
//! stands for the empty word; in FOLLOW sets it stands for the end-of-input
//! marker.

use vstd::prelude::*;

use crate::grammar::Token;

verus! {

broadcast use {
    vstd::prelude::Seq::lemma_take_succ_push,
    vstd::prelude::Seq::lemma_take_len,
    vstd::prelude::Seq::lemma_push_to_set_commute,
};

/// Compares two optional tokens.
pub fn opt_token_eq(a: Option<Token>, b: Option<Token>) -> (r: bool)
    ensures
        r == (a == b),
{
    match (a, b) {
        (None, None) => true,
        (Some(x), Some(y)) => x.0 == y.0,
        _ => false,
    }
}

/// A duplicate-free vector of lookahead elements, viewed as the set of its
/// contents.
#[derive(Debug, PartialEq, Eq)]
pub struct TokenSet {
    pub elems: Vec<Option<Token>>,
}

impl View for TokenSet {
    type V = Set<Option<Token>>;

    open spec fn view(&self) -> Set<Option<Token>> {
        self.elems@.to_set()
    }
}

impl Clone for TokenSet {
    fn clone(&self) -> (res: Self)
        ensures
            res.elems@ == self.elems@,
    {
        TokenSet { elems: crate::grammar::copy_vec(&self.elems) }
    }
}

impl TokenSet {
    /// No element occurs twice in the backing vector.
    pub open spec fn wf(&self) -> bool {
        self.elems@.no_duplicates()
    }

    /// The empty set.
    pub fn new() -> (r: TokenSet)
        ensures
            r.wf(),
            r@ == Set::<Option<Token>>::empty(),
            r.elems@ == Seq::<Option<Token>>::empty(),
    {
        let r = TokenSet { elems: Vec::new() };
        proof {
            assert(r@ =~= Set::<Option<Token>>::empty());
        }
        r
    }

    /// Number of elements.
    pub fn len(&self) -> (n: usize)
        ensures
            n == self.elems@.len(),
    {
        self.elems.len()
    }

    /// The element at a position of the backing vector.
    pub fn get(&self, i: usize) -> (r: Option<Token>)
        requires
            i < self.elems@.len(),
        ensures
            r == self.elems@[i as int],
            self@.contains(r),
    {
        proof {
            assert(self.elems@.contains(self.elems@[i as int]));
        }
        self.elems[i]
    }

    /// Membership test.
    pub fn contains(&self, x: Option<Token>) -> (r: bool)
        ensures
            r == self@.contains(x),
    {
        let mut i: usize = 0;
        while i < self.elems.len()
            invariant
                i <= self.elems@.len(),
                forall|j: int| 0 <= j < i ==> self.elems@[j] != x,
            decreases self.elems@.len() - i,
        {
            if opt_token_eq(self.elems[i], x) {
                proof {
                    assert(self.elems@.contains(x));
                }
                return true;
            }
            i = i + 1;
        }
        proof {
            assert(!self.elems@.contains(x));
        }
        false
    }

    /// Adds an element; reports whether the set grew.
    pub fn insert(&mut self, x: Option<Token>) -> (changed: bool)
        requires
            old(self).wf(),
        ensures
            final(self).wf(),
            final(self)@ == old(self)@.insert(x),
            changed == !old(self)@.contains(x),
            changed ==> final(self).elems@ == old(self).elems@.push(x),
            !changed ==> final(self).elems@ == old(self).elems@,
    {
        if self.contains(x) {
            proof {
                assert(old(self)@ =~= old(self)@.insert(x));
            }
            false
        } else {
            proof {
                assert(!old(self).elems@.contains(x));
            }
            self.elems.push(x);
            true
        }
    }

    /// Unions another set into this one; reports whether this set grew.
    pub fn union_from(&mut self, other: &TokenSet) -> (changed: bool)
        requires
            old(self).wf(),
        ensures
            final(self).wf(),
            final(self)@ == old(self)@ + other@,
            changed == !other@.subset_of(old(self)@),
            final(self).elems@.len() >= old(self).elems@.len(),
            changed ==> final(self).elems@.len() > old(self).elems@.len(),
    {
        let mut i: usize = 0;
        let mut changed = false;
        while i < other.elems.len()
            invariant
                i <= other.elems@.len(),
                self.wf(),
                self@ == old(self)@ + other.elems@.take(i as int).to_set(),
                changed == !other.elems@.take(i as int).to_set().subset_of(old(self)@),
                self.elems@.len() >= old(self).elems@.len(),
                changed ==> self.elems@.len() > old(self).elems@.len(),
            decreases other.elems@.len() - i,
        {
            let x = other.elems[i];
            let ghost pre = self@;
            let c = self.insert(x);
            proof {
                assert(other.elems@.take(i + 1).to_set() =~= other.elems@.take(i as int).to_set().insert(x));
                assert(self@ =~= old(self)@ + other.elems@.take(i + 1).to_set());
                if changed || c {
                    assert(!other.elems@.take(i + 1).to_set().subset_of(old(self)@));
                } else {
                    assert(other.elems@.take(i as int).to_set().subset_of(old(self)@));
                    assert(pre.contains(x));
                    assert(old(self)@.contains(x) || other.elems@.take(i as int).to_set().contains(x));
                    assert(other.elems@.take(i + 1).to_set().subset_of(old(self)@));
                }
            }
            changed = changed || c;
            i = i + 1;
        }
        proof {
            assert(other.elems@.take(other.elems@.len() as int) =~= other.elems@);
            assert(other.elems@.to_set() =~= other@);
            assert(self@ =~= old(self)@ + other@);
        }
        changed
    }

    /// Unions the non-`None` elements of another set into this one; reports
    /// whether this set grew.
    pub fn union_some_from(&mut self, other: &TokenSet) -> (changed: bool)
        requires
            old(self).wf(),
        ensures
            final(self).wf(),
            final(self)@ == old(self)@ + other@.remove(None),
            changed == !other@.remove(None).subset_of(old(self)@),
            final(self).elems@.len() >= old(self).elems@.len(),
            changed ==> final(self).elems@.len() > old(self).elems@.len(),
    {
        let mut i: usize = 0;
        let mut changed = false;
        while i < other.elems.len()
            invariant
                i <= other.elems@.len(),
                self.wf(),
                self@ == old(self)@ + other.elems@.take(i as int).to_set().remove(None),
                changed == !other.elems@.take(i as int).to_set().remove(None).subset_of(old(self)@),
                self.elems@.len() >= old(self).elems@.len(),
                changed ==> self.elems@.len() > old(self).elems@.len(),
            decreases other.elems@.len() - i,
        {
            let x = other.elems[i];
            let ghost pre = self@;
            let ghost taken = other.elems@.take(i as int).to_set();
            let ghost taken1 = other.elems@.take(i + 1).to_set();
            proof {
                assert(taken1 =~= taken.insert(x));
            }
            match x {
                None => {
                    proof {
                        assert(taken1.remove(None) =~= taken.remove(None));
                    }
                }
                Some(_) => {
                    let c = self.insert(x);
                    proof {
                        assert(taken1.remove(None) =~= taken.remove(None).insert(x));
                        assert(self@ =~= old(self)@ + taken1.remove(None));
                        if changed || c {
                            assert(!taken1.remove(None).subset_of(old(self)@));
                        } else {
                            assert(pre.contains(x));
                            assert(taken1.remove(None).subset_of(old(self)@));
                        }
                    }
                    changed = changed || c;
                }
            }
            i = i + 1;
        }
        proof {
            assert(other.elems@.take(other.elems@.len() as int) =~= other.elems@);
            assert(self@ =~= old(self)@ + other@.remove(None));
        }
        changed
    }
}

} // verus!

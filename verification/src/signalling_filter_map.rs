//! Filtering an expected-set while signalling whether anything was
//! dropped: a plain pass returning the kept characters together with an
//! explicit flag, used to split end-of-input out of an expected set.

use vstd::prelude::*;

verus! {

/// The characters of the `Some` entries of `s`, in order.
pub open spec fn just_chars(s: Seq<Option<char>>, i: int) -> Seq<char>
    decreases s.len() - i,
{
    if i < 0 || i >= s.len() {
        Seq::empty()
    } else {
        match s[i] {
            Option::Some(c) => seq![c] + just_chars(s, i + 1),
            Option::None => just_chars(s, i + 1),
        }
    }
}

/// The result of a signalling filter pass: the values the filter kept,
/// and whether it removed anything.
pub struct SignallingFilterMap {
    pub items: Vec<char>,
    pub removed: bool,
}

/// Filters the `Some` entries out of a set of character-or-end-of-input
/// alternatives, signalling whether an end-of-input entry was removed.
pub trait SignallingFilterMapExt {
    fn signalling_filter_map(&self) -> SignallingFilterMap;
}

impl SignallingFilterMapExt for Vec<Option<char>> {
    /// Keeps the characters, in order; `removed` is set exactly when the
    /// set held an end-of-input entry.
    fn signalling_filter_map(&self) -> (r: SignallingFilterMap)
        ensures
            r.items@ == just_chars(self@, 0),
            r.removed == self@.contains(None),
    {
        let mut items: Vec<char> = Vec::new();
        let mut removed = false;
        let mut i: usize = 0;
        proof {
            assert(!self@.subrange(0, 0).contains(None));
        }
        while i < self.len()
            invariant
                0 <= i <= self@.len(),
                items@ + just_chars(self@, i as int) =~= just_chars(self@, 0),
                removed == self@.subrange(0, i as int).contains(None),
            decreases self@.len() - i,
        {
            let ghost pre = self@.subrange(0, i as int);
            let ghost was = removed;
            match self[i] {
                Some(c) => items.push(c),
                None => removed = true,
            }
            i = i + 1;
            proof {
                let cur = self@.subrange(0, i as int);
                assert(cur =~= pre.push(self@[i - 1]));
                if self@[i - 1] is None {
                    assert(cur[i - 1] == Option::<char>::None);
                    assert(cur.contains(None));
                } else if was {
                    let k = choose|k: int| 0 <= k < pre.len() && pre[k] == Option::<char>::None;
                    assert(cur[k] == Option::<char>::None);
                    assert(cur.contains(None));
                } else {
                    if cur.contains(None) {
                        let k = choose|k: int| 0 <= k < cur.len() && cur[k] == Option::<char>::None;
                        if k < i - 1 {
                            assert(pre[k] == Option::<char>::None);
                            assert(pre.contains(None));
                        }
                        assert(false);
                    }
                }
                assert(items@ + just_chars(self@, i as int) =~= just_chars(self@, 0));
            }
        }
        proof {
            assert(self@.subrange(0, self@.len() as int) =~= self@);
            assert(items@ + just_chars(self@, i as int) =~= items@);
        }
        SignallingFilterMap { items, removed }
    }
}

impl SignallingFilterMap {
    /// The values the filter kept, in order.
    pub fn items(&self) -> (r: &Vec<char>)
        ensures
            r@ == self.items@,
    {
        &self.items
    }

    /// Whether the filter removed anything.
    pub fn removed(&self) -> (r: bool)
        ensures
            r == self.removed,
    {
        self.removed
    }
}

} // verus!

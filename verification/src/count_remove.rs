//! Removing every occurrence of one alternative from an expected set
//! while counting how many were removed: a plain pass returning the kept
//! entries and the count side by side.

use vstd::prelude::*;

verus! {

/// How many entries of `s` from `i` on equal `what`.
pub open spec fn remove_count(s: Seq<Option<char>>, what: Option<char>, i: int) -> int
    decreases s.len() - i,
{
    if i < 0 || i >= s.len() {
        0
    } else if s[i] == what {
        1 + remove_count(s, what, i + 1)
    } else {
        remove_count(s, what, i + 1)
    }
}

/// The entries of `s` from `i` on that differ from `what`, in order.
pub open spec fn remove_kept(s: Seq<Option<char>>, what: Option<char>, i: int) -> Seq<Option<char>>
    decreases s.len() - i,
{
    if i < 0 || i >= s.len() {
        Seq::empty()
    } else if s[i] == what {
        remove_kept(s, what, i + 1)
    } else {
        seq![s[i]] + remove_kept(s, what, i + 1)
    }
}

/// The result of removing one alternative from an expected set: what was
/// kept, and how many entries were removed.
pub struct CountRemoveIf {
    pub items: Vec<Option<char>>,
    pub count: usize,
}

impl CountRemoveIf {
    /// Removes every entry of `set` equal to `what`, counting them.
    pub fn count_remove(set: &Vec<Option<char>>, what: Option<char>) -> (r: CountRemoveIf)
        ensures
            r.items@ == remove_kept(set@, what, 0),
            r.count as int == remove_count(set@, what, 0),
    {
        let mut items: Vec<Option<char>> = Vec::new();
        let mut count: usize = 0;
        let mut i: usize = 0;
        while i < set.len()
            invariant
                0 <= i <= set@.len(),
                count <= i,
                items@ + remove_kept(set@, what, i as int) =~= remove_kept(set@, what, 0),
                count as int + remove_count(set@, what, i as int) == remove_count(set@, what, 0),
            decreases set@.len() - i,
        {
            let e = set[i];
            let same = match (e, what) {
                (Option::None, Option::None) => true,
                (Option::Some(a), Option::Some(b)) => a == b,
                _ => false,
            };
            if same {
                count = count + 1;
            } else {
                items.push(e);
            }
            i = i + 1;
            proof {
                assert(items@ + remove_kept(set@, what, i as int) =~= remove_kept(set@, what, 0));
            }
        }
        CountRemoveIf { items, count }
    }

    /// How many entries the pass removed.
    pub fn count(&self) -> (r: usize)
        ensures
            r == self.count,
    {
        self.count
    }
}

} // verus!

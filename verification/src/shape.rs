//! Telling whether the pages of an index hold a B-tree: a walk from the root
//! that tests every node against the bounds that its ancestors set, and that
//! no page is met twice.

use crate::btree::BTree;
use crate::frame::{lemma_owned_in_range, lemma_owns_child};
use crate::key::{compare_keys, key_lt, lemma_key_lt_transitive, KeyOrder};
use crate::node::TreeNode;
use crate::tree::{
    above, below, child_hi, child_lo, child_owns, members_sorted, members_within, min_members, owns,
    subtree_ok, Bound, Store,
};
use vstd::prelude::*;

verus! {

/// A bound as a byte string.
pub open spec fn bound_of(b: Option<&[u8]>) -> Bound {
    match b {
        Some(k) => Some(k@),
        None => None,
    }
}

/// A page of the subtree under `page` is marked as seen.
pub open spec fn overlaps(s: Store, page: int, h: nat, seen: Seq<bool>) -> bool {
    exists|p: int| 0 <= p < seen.len() && seen[p] && #[trigger] owns(s, page, h, p)
}

/// Page `p` belongs to the subtree under one of the first `i` children of `n`.
pub open spec fn under_first(s: Store, n: crate::node::NodeView, h: nat, i: int, p: int) -> bool {
    exists|j: int| 0 <= j < i && #[trigger] child_owns(s, n, h, j, p)
}

impl TreeNode {
    /// Tells whether the keys of the entries are strictly ascending and lie
    /// strictly between the bounds.
    pub fn in_order(&self, lo: Option<&[u8]>, hi: Option<&[u8]>) -> (r: bool)
        ensures
            r == (members_sorted(self@.members) && members_within(
                self@.members,
                bound_of(lo),
                bound_of(hi),
            )),
    {
        let mut i: usize = 0;
        while i < self.members.len()
            invariant
                i <= self.members.len(),
                forall|a: int, b: int|
                    0 <= a < b < i ==> key_lt(
                        #[trigger] self@.members[a].key,
                        #[trigger] self@.members[b].key,
                    ),
                forall|a: int|
                    0 <= a < i ==> above(bound_of(lo), #[trigger] self@.members[a].key) && below(
                        self@.members[a].key,
                        bound_of(hi),
                    ),
            decreases self.members.len() - i,
        {
            let key = self.members[i].key.as_slice();
            assert(self@.members[i as int] == self.members@[i as int]@);
            match lo {
                Some(b) => match compare_keys(b, key) {
                    KeyOrder::Less => {},
                    _ => {
                        assert(!above(bound_of(lo), self@.members[i as int].key));
                        return false;
                    },
                },
                None => {},
            }
            match hi {
                Some(b) => match compare_keys(key, b) {
                    KeyOrder::Less => {},
                    _ => {
                        assert(!below(self@.members[i as int].key, bound_of(hi)));
                        return false;
                    },
                },
                None => {},
            }
            if i > 0 {
                let prev = self.members[i - 1].key.as_slice();
                assert(self@.members[i - 1] == self.members@[i - 1]@);
                match compare_keys(prev, key) {
                    KeyOrder::Less => {},
                    _ => {
                        assert(!key_lt(self@.members[i - 1].key, self@.members[i as int].key));
                        return false;
                    },
                }
                assert forall|a: int| 0 <= a < i implies key_lt(
                    #[trigger] self@.members[a].key,
                    self@.members[i as int].key,
                ) by {
                    if a < i - 1 {
                        assert(key_lt(self@.members[a].key, self@.members[i - 1].key));
                        lemma_key_lt_transitive(
                            self@.members[a].key,
                            self@.members[i - 1].key,
                            self@.members[i as int].key,
                        );
                    }
                }
            }
            i = i + 1;
        }
        true
    }
}

impl BTree {
    /// Tells whether the pages hold a B-tree.
    pub fn is_well_formed(&self) -> (r: bool)
        requires
            self.inv(),
        ensures
            r == self.wf(),
    {
        let count = self.page_count();
        let mut seen: Vec<bool> = Vec::new();
        while seen.len() < count
            invariant
                seen@.len() <= count,
                forall|p: int| 0 <= p < seen@.len() ==> !seen@[p],
            decreases count - seen@.len(),
        {
            seen.push(false);
        }
        self.well_formed_below(self.root(), self.height(), None, None, 0, &mut seen)
    }

    /// Walks the subtree under `page` and marks its pages as seen; stops
    /// with `false` at the first node that is out of shape and at the first
    /// page that was seen before.
    fn well_formed_below(
        &self,
        page: u32,
        height: u32,
        lo: Option<&[u8]>,
        hi: Option<&[u8]>,
        least: u32,
        seen: &mut Vec<bool>,
    ) -> (r: bool)
        requires
            self.inv(),
            old(seen)@.len() == self.file().pages.len(),
        ensures
            final(seen)@.len() == old(seen)@.len(),
            r ==> subtree_ok(
                self.file().nodes(),
                self.file().max_members,
                page as int,
                height as nat,
                bound_of(lo),
                bound_of(hi),
                least as nat,
            ) && !overlaps(self.file().nodes(), page as int, height as nat, old(seen)@)
                && forall|p: int|
                0 <= p < old(seen)@.len() ==> #[trigger] final(seen)@[p] == (old(seen)@[p] || owns(
                    self.file().nodes(),
                    page as int,
                    height as nat,
                    p,
                )),
            !r ==> !subtree_ok(
                self.file().nodes(),
                self.file().max_members,
                page as int,
                height as nat,
                bound_of(lo),
                bound_of(hi),
                least as nat,
            ) || overlaps(self.file().nodes(), page as int, height as nat, old(seen)@),
        decreases height,
    {
        let ghost s = self.file().nodes();
        let ghost m = self.file().max_members;
        let ghost h = height as nat;
        let ghost seen0 = seen@;
        let node = match self.node(page) {
            Ok(node) => node,
            Err(_) => {
                return false;
            },
        };
        let ghost n = node@;
        if seen[page as usize] {
            assert(owns(s, page as int, h, page as int));
            return false;
        }
        seen.set(page as usize, true);
        if node.members.len() < least as usize || node.members.len() > self.max_members() as usize {
            return false;
        }
        if !node.in_order(lo, hi) {
            return false;
        }
        if node.is_leaf() {
            return height == 0;
        }
        if height == 0 {
            return false;
        }
        let ghost g = (h - 1) as nat;
        let below_least: u32 = (self.max_members() + 1) / 2 - 1;
        let mut i: usize = 0;
        while i < node.children.len()
            invariant
                self.inv(),
                s == self.file().nodes(),
                m == self.file().max_members,
                n == node@,
                h == height,
                h > 0,
                g == h - 1,
                below_least == min_members(m),
                0 <= page < s.len(),
                s[page as int] == Some(n),
                n.children.len() == n.members.len() + 1,
                i <= n.children.len(),
                seen0 == old(seen)@,
                seen@.len() == seen0.len(),
                seen0.len() == s.len(),
                !seen0[page as int],
                forall|p: int|
                    0 <= p < seen0.len() ==> #[trigger] seen@[p] == (seen0[p] || p == page
                        || under_first(s, n, h, i as int, p)),
                forall|j: int|
                    0 <= j < i ==> subtree_ok(
                        s,
                        m,
                        (#[trigger] n.children[j]) as int,
                        g,
                        child_lo(n.members, j, bound_of(lo)),
                        child_hi(n.members, j, bound_of(hi)),
                        min_members(m),
                    ),
                forall|j: int, p: int|
                    0 <= j < i && #[trigger] child_owns(s, n, h, j, p) ==> 0 <= p < seen0.len()
                        && !seen0[p] && p != page,
                forall|j1: int, j2: int, p: int|
                    0 <= j1 < i && 0 <= j2 < i && j1 != j2 ==> !(#[trigger] child_owns(
                        s,
                        n,
                        h,
                        j1,
                        p,
                    ) && #[trigger] child_owns(s, n, h, j2, p)),
            decreases n.children.len() - i,
        {
            let child = node.children[i];
            let child_lo_key: Option<&[u8]> = if i == 0 {
                lo
            } else {
                Some(node.members[i - 1].key.as_slice())
            };
            let child_hi_key: Option<&[u8]> = if i == node.members.len() {
                hi
            } else {
                Some(node.members[i].key.as_slice())
            };
            proof {
                if i > 0 {
                    assert(n.members[i - 1] == node.members@[i - 1]@);
                }
                if i < n.members.len() {
                    assert(n.members[i as int] == node.members@[i as int]@);
                }
                assert(bound_of(child_lo_key) == child_lo(n.members, i as int, bound_of(lo)));
                assert(bound_of(child_hi_key) == child_hi(n.members, i as int, bound_of(hi)));
            }
            let ghost seen_i = seen@;
            let ok = self.well_formed_below(
                child,
                height - 1,
                child_lo_key,
                child_hi_key,
                below_least,
                seen,
            );
            if !ok {
                proof {
                    let c = n.children[i as int] as int;
                    if subtree_ok(s, m, page as int, h, bound_of(lo), bound_of(hi), least as nat)
                        && !overlaps(s, page as int, h, seen0) {
                        assert(overlaps(s, c, g, seen_i));
                        let p = choose|p: int|
                            0 <= p < seen_i.len() && seen_i[p] && #[trigger] owns(s, c, g, p);
                        assert(child_owns(s, n, h, i as int, p));
                        assert(owns(s, page as int, h, p));
                        if under_first(s, n, h, i as int, p) {
                            let j = choose|j: int|
                                0 <= j < i && #[trigger] child_owns(s, n, h, j, p);
                            assert(child_owns(s, n, h, j, p));
                        }
                        assert(false);
                    }
                }
                return false;
            }
            proof {
                let c = n.children[i as int] as int;
                assert forall|p: int| #[trigger] child_owns(s, n, h, i as int, p) implies 0 <= p
                    < seen0.len() && !seen_i[p] by {
                    lemma_owned_in_range(
                        s,
                        m,
                        c,
                        g,
                        child_lo(n.members, i as int, bound_of(lo)),
                        child_hi(n.members, i as int, bound_of(hi)),
                        min_members(m),
                        p,
                    );
                    assert(owns(s, c, g, p));
                }
                assert forall|p: int| 0 <= p < seen0.len() implies #[trigger] seen@[p] == (seen0[p]
                    || p == page || under_first(s, n, h, i + 1, p)) by {
                    if child_owns(s, n, h, i as int, p) {
                        assert(under_first(s, n, h, i + 1, p));
                    }
                    if under_first(s, n, h, i as int, p) {
                        let j = choose|j: int| 0 <= j < i && #[trigger] child_owns(s, n, h, j, p);
                        assert(child_owns(s, n, h, j, p));
                        assert(under_first(s, n, h, i + 1, p));
                    }
                    if under_first(s, n, h, i + 1, p) {
                        let j = choose|j: int|
                            0 <= j < i + 1 && #[trigger] child_owns(s, n, h, j, p);
                        if j < i {
                            assert(under_first(s, n, h, i as int, p));
                        }
                    }
                    assert(seen@[p] == (seen_i[p] || owns(s, c, g, p)));
                }
                assert forall|j1: int, j2: int, p: int|
                    0 <= j1 < i + 1 && 0 <= j2 < i + 1 && j1 != j2 implies !(#[trigger] child_owns(
                    s,
                    n,
                    h,
                    j1,
                    p,
                ) && #[trigger] child_owns(s, n, h, j2, p)) by {
                    if child_owns(s, n, h, j1, p) && child_owns(s, n, h, j2, p) {
                        if j1 == i {
                            assert(under_first(s, n, h, i as int, p));
                        } else if j2 == i {
                            assert(under_first(s, n, h, i as int, p));
                        }
                    }
                }
            }
            i = i + 1;
        }
        proof {
            assert(i == n.children.len());
            assert forall|j: int, p: int| #[trigger] child_owns(s, n, h, j, p) implies 0 <= p
                < seen0.len() && !seen0[p] && p != page by {}
            assert forall|p: int| 0 <= p < seen0.len() implies #[trigger] seen@[p] == (seen0[p]
                || owns(s, page as int, h, p)) by {
                if under_first(s, n, h, i as int, p) {
                    let j = choose|j: int| 0 <= j < i && #[trigger] child_owns(s, n, h, j, p);
                    assert(child_owns(s, n, h, j, p));
                    lemma_owns_child(s, page as int, h, j, p);
                }
                if owns(s, page as int, h, p) && p != page {
                    let j = choose|j: int|
                        0 <= j < n.children.len() && owns(
                            s,
                            (#[trigger] n.children[j]) as int,
                            g,
                            p,
                        );
                    assert(child_owns(s, n, h, j, p));
                    assert(under_first(s, n, h, i as int, p));
                }
            }
            if overlaps(s, page as int, h, seen0) {
                let p = choose|p: int|
                    0 <= p < seen0.len() && seen0[p] && #[trigger] owns(s, page as int, h, p);
                let j = choose|j: int|
                    0 <= j < n.children.len() && owns(s, (#[trigger] n.children[j]) as int, g, p);
                assert(child_owns(s, n, h, j, p));
            }
        }
        true
    }
}

} // verus!

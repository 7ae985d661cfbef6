//! What a subtree owns, and that it stays what it is while its pages stay.

use crate::node::{NodeView};
use crate::tree::{
    child_hi, child_lo, child_owns, min_members, node_ok, node_search, owns, rank, search_spec,
    subtree_ok, Bound, Store,
};
use vstd::prelude::*;

verus! {

/// Store `t` holds every page of the subtree under `page` as `s` holds it.
pub open spec fn agrees_on(s: Store, t: Store, page: int, h: nat) -> bool {
    forall|p: int|
        #[trigger] owns(s, page, h, p) ==> 0 <= p < t.len() && p < s.len() && t[p] == s[p]
}

/// The subtree under `page` has the same pages and gives the same answers in
/// `t` as in `s`.
pub open spec fn same_subtree(s: Store, t: Store, page: int, h: nat) -> bool {
    &&& forall|p: int| #[trigger] owns(t, page, h, p) == owns(s, page, h, p)
    &&& forall|k: Seq<u8>| #[trigger] search_spec(t, page, h, k) == search_spec(s, page, h, k)
}

/// Page `p` belongs to the subtree under one of the children of `n`.
pub open spec fn under_children(s: Store, n: NodeView, h: nat, p: int) -> bool {
    exists|i: int| #[trigger] child_owns(s, n, h, i, p)
}

/// A page of a child's subtree is a page of the parent's subtree.
pub proof fn lemma_owns_child(s: Store, page: int, h: nat, i: int, p: int)
    requires
        0 <= page < s.len(),
        s[page] is Some,
        child_owns(s, s[page].unwrap(), h, i, p),
    ensures
        owns(s, page, h, p),
{
}

/// Every page of a well-formed subtree is a page of the store.
pub proof fn lemma_owned_in_range(
    s: Store,
    m: nat,
    page: int,
    h: nat,
    lo: Bound,
    hi: Bound,
    least: nat,
    p: int,
)
    requires
        subtree_ok(s, m, page, h, lo, hi, least),
        owns(s, page, h, p),
    ensures
        0 <= p < s.len(),
    decreases h,
{
    if p != page {
        let n = s[page].unwrap();
        let i = choose|i: int|
            0 <= i < n.children.len() && owns(
                s,
                (#[trigger] n.children[i]) as int,
                (h - 1) as nat,
                p,
            );
        lemma_owned_in_range(
            s,
            m,
            n.children[i] as int,
            (h - 1) as nat,
            child_lo(n.members, i, lo),
            child_hi(n.members, i, hi),
            min_members(m),
            p,
        );
    }
}

/// A well-formed subtree stays what it is in any store that holds its pages
/// unchanged.
pub proof fn lemma_frame(
    s: Store,
    t: Store,
    m: nat,
    page: int,
    h: nat,
    lo: Bound,
    hi: Bound,
    least: nat,
)
    requires
        subtree_ok(s, m, page, h, lo, hi, least),
        agrees_on(s, t, page, h),
    ensures
        subtree_ok(t, m, page, h, lo, hi, least),
        same_subtree(s, t, page, h),
    decreases h,
{
    let n = s[page].unwrap();
    assert(owns(s, page, h, page));
    assert(t[page] == s[page]);
    if h > 0 {
        let g = (h - 1) as nat;
        assert forall|i: int| 0 <= i < n.children.len() implies subtree_ok(
            t,
            m,
            (#[trigger] n.children[i]) as int,
            g,
            child_lo(n.members, i, lo),
            child_hi(n.members, i, hi),
            min_members(m),
        ) && same_subtree(s, t, n.children[i] as int, g) by {
            let c = n.children[i] as int;
            assert forall|p: int| #[trigger] owns(s, c, g, p) implies 0 <= p < t.len() && p
                < s.len() && t[p] == s[p] by {
                assert(child_owns(s, n, h, i, p));
                lemma_owns_child(s, page, h, i, p);
            }
            lemma_frame(
                s,
                t,
                m,
                c,
                g,
                child_lo(n.members, i, lo),
                child_hi(n.members, i, hi),
                min_members(m),
            );
        }
        assert forall|i: int, p: int| child_owns(t, n, h, i, p) == child_owns(s, n, h, i, p) by {
            if 0 <= i < n.children.len() {
                let c = n.children[i] as int;
                assert(same_subtree(s, t, c, g));
                assert(owns(t, c, g, p) == owns(s, c, g, p));
            }
        }
        assert forall|p: int| #[trigger] owns(t, page, h, p) == owns(s, page, h, p) by {
            if owns(t, page, h, p) && p != page {
                let i = choose|i: int|
                    0 <= i < n.children.len() && owns(t, (#[trigger] n.children[i]) as int, g, p);
                assert(child_owns(t, n, h, i, p));
                assert(child_owns(s, n, h, i, p));
            }
            if owns(s, page, h, p) && p != page {
                let i = choose|i: int|
                    0 <= i < n.children.len() && owns(s, (#[trigger] n.children[i]) as int, g, p);
                assert(child_owns(s, n, h, i, p));
                assert(child_owns(t, n, h, i, p));
            }
        }
        assert forall|k: Seq<u8>| #[trigger]
            search_spec(t, page, h, k) == search_spec(s, page, h, k) by {
            let r = rank(n.members, k) as int;
            if 0 <= r < n.children.len() {
                let c = n.children[r] as int;
                assert(same_subtree(s, t, c, g));
                assert(search_spec(t, c, g, k) == search_spec(s, c, g, k));
            }
            assert(node_search(t, n, h, k) == node_search(s, n, h, k));
        }
    }
}

/// Writing a well-formed node to a page outside its children's subtrees, in a
/// store that holds those subtrees unchanged, makes the page the head of a
/// well-formed subtree that answers as the node does.
pub proof fn lemma_write(
    s: Store,
    t: Store,
    m: nat,
    n: NodeView,
    page: int,
    h: nat,
    lo: Bound,
    hi: Bound,
    least: nat,
)
    requires
        node_ok(s, m, n, h, lo, hi),
        least <= n.members.len() <= m,
        0 <= page < t.len(),
        t[page] == Some(n),
        forall|i: int, p: int| #[trigger]
            child_owns(s, n, h, i, p) ==> p != page && 0 <= p < t.len() && p < s.len() && t[p]
                == s[p],
    ensures
        subtree_ok(t, m, page, h, lo, hi, least),
        forall|k: Seq<u8>| #[trigger] search_spec(t, page, h, k) == node_search(s, n, h, k),
        forall|p: int| #[trigger] owns(t, page, h, p) ==> p == page || under_children(s, n, h, p),
{
    if h > 0 {
        let g = (h - 1) as nat;
        assert forall|i: int| 0 <= i < n.children.len() implies subtree_ok(
            t,
            m,
            (#[trigger] n.children[i]) as int,
            g,
            child_lo(n.members, i, lo),
            child_hi(n.members, i, hi),
            min_members(m),
        ) && same_subtree(s, t, n.children[i] as int, g) by {
            let c = n.children[i] as int;
            assert forall|p: int| #[trigger] owns(s, c, g, p) implies 0 <= p < t.len() && p
                < s.len() && t[p] == s[p] by {
                assert(child_owns(s, n, h, i, p));
            }
            lemma_frame(
                s,
                t,
                m,
                c,
                g,
                child_lo(n.members, i, lo),
                child_hi(n.members, i, hi),
                min_members(m),
            );
        }
        assert forall|i: int, p: int| child_owns(t, n, h, i, p) == child_owns(s, n, h, i, p) by {
            if 0 <= i < n.children.len() {
                let c = n.children[i] as int;
                assert(same_subtree(s, t, c, g));
                assert(owns(t, c, g, p) == owns(s, c, g, p));
            }
        }
        assert forall|k: Seq<u8>| #[trigger]
            search_spec(t, page, h, k) == node_search(s, n, h, k) by {
            let r = rank(n.members, k) as int;
            if 0 <= r < n.children.len() {
                let c = n.children[r] as int;
                assert(same_subtree(s, t, c, g));
                assert(search_spec(t, c, g, k) == search_spec(s, c, g, k));
            }
            assert(node_search(t, n, h, k) == node_search(s, n, h, k));
        }
        assert forall|p: int| #[trigger] owns(t, page, h, p) implies p == page || under_children(
            s,
            n,
            h,
            p,
        ) by {
            if p != page {
                let i = choose|i: int|
                    0 <= i < n.children.len() && owns(t, (#[trigger] n.children[i]) as int, g, p);
                assert(child_owns(t, n, h, i, p));
                assert(child_owns(s, n, h, i, p));
            }
        }
    }
}

} // verus!

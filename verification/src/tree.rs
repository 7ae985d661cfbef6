//! What it means for a set of pages to hold a B-tree, and what such a tree
//! answers to a search.

use crate::key::{key_lt};
use crate::node::{EntryView, NodeView};
use vstd::prelude::*;

verus! {

/// The pages of a file, each as the node it stands for; `None` where a page
/// breaks the layout.
pub type Store = Seq<Option<NodeView>>;

/// An optional bound: `None` bounds nothing.
pub type Bound = Option<Seq<u8>>;

/// `key` lies above the lower bound.
pub open spec fn above(lo: Bound, key: Seq<u8>) -> bool {
    lo is None || key_lt(lo.unwrap(), key)
}

/// `key` lies below the upper bound.
pub open spec fn below(key: Seq<u8>, hi: Bound) -> bool {
    hi is None || key_lt(key, hi.unwrap())
}

/// The keys of the entries are strictly ascending.
pub open spec fn members_sorted(ms: Seq<EntryView>) -> bool {
    forall|i: int, j: int|
        0 <= i < j < ms.len() ==> key_lt(#[trigger] ms[i].key, #[trigger] ms[j].key)
}

/// Every key of the entries lies strictly between the bounds.
pub open spec fn members_within(ms: Seq<EntryView>, lo: Bound, hi: Bound) -> bool {
    forall|i: int| 0 <= i < ms.len() ==> above(lo, #[trigger] ms[i].key) && below(ms[i].key, hi)
}

/// The lower bound of the keys under child `i` of a node.
pub open spec fn child_lo(ms: Seq<EntryView>, i: int, lo: Bound) -> Bound {
    if i <= 0 {
        lo
    } else {
        Some(ms[i - 1].key)
    }
}

/// The upper bound of the keys under child `i` of a node.
pub open spec fn child_hi(ms: Seq<EntryView>, i: int, hi: Bound) -> Bound {
    if i >= ms.len() {
        hi
    } else {
        Some(ms[i].key)
    }
}

/// The fewest entries that a node other than the root may hold: half the
/// fan-out, rounded up, less one.
pub open spec fn min_members(max_members: nat) -> nat {
    if max_members == 0 {
        0
    } else {
        ((max_members + 1) / 2 - 1) as nat
    }
}

/// The number of entries at the front whose keys come before `key`: the
/// position of `key` among the entries if it is there, and else where it
/// belongs and the child to descend into.
pub open spec fn rank(ms: Seq<EntryView>, key: Seq<u8>) -> nat
    decreases ms.len(),
{
    if ms.len() == 0 || !key_lt(ms[0].key, key) {
        0
    } else {
        1 + rank(ms.drop_first(), key)
    }
}

/// Page `p` belongs to the subtree of height `h` under `page`.
pub open spec fn owns(s: Store, page: int, h: nat, p: int) -> bool
    decreases h,
{
    p == page || (h > 0 && 0 <= page < s.len() && s[page] is Some && exists|i: int|
        0 <= i < s[page].unwrap().children.len() && owns(
            s,
            (#[trigger] s[page].unwrap().children[i]) as int,
            (h - 1) as nat,
            p,
        ))
}

/// Page `p` belongs to the subtree under child `i` of a node of height `h`.
pub open spec fn child_owns(s: Store, n: NodeView, h: nat, i: int, p: int) -> bool {
    h > 0 && 0 <= i < n.children.len() && owns(s, n.children[i] as int, (h - 1) as nat, p)
}

/// The node `n` heads a well-formed subtree of height `h` whose keys all lie
/// strictly between `lo` and `hi`: its entries are in order and within the
/// bounds; at height 0 it is a leaf; above that it has one child more than
/// entries, each child heads such a subtree between the neighbouring keys and
/// holds at least the minimum of entries, and no page belongs to the subtrees
/// of two children.
pub open spec fn node_ok(s: Store, m: nat, n: NodeView, h: nat, lo: Bound, hi: Bound) -> bool
    decreases h, 0nat,
{
    &&& members_sorted(n.members)
    &&& members_within(n.members, lo, hi)
    &&& if h == 0 {
        n.children.len() == 0
    } else {
        &&& n.children.len() == n.members.len() + 1
        &&& forall|i: int|
            0 <= i < n.children.len() ==> subtree_ok(
                s,
                m,
                (#[trigger] n.children[i]) as int,
                (h - 1) as nat,
                child_lo(n.members, i, lo),
                child_hi(n.members, i, hi),
                min_members(m),
            )
        &&& forall|i: int, j: int, p: int|
            i != j ==> !(#[trigger] child_owns(s, n, h, i, p) && #[trigger] child_owns(
                s,
                n,
                h,
                j,
                p,
            ))
    }
}

/// Page `page` holds a node of at least `least` and at most `m` entries that
/// heads a well-formed subtree of height `h` between `lo` and `hi`, and the
/// page is not part of the subtree of any of its children.
pub open spec fn subtree_ok(
    s: Store,
    m: nat,
    page: int,
    h: nat,
    lo: Bound,
    hi: Bound,
    least: nat,
) -> bool
    decreases h, 1nat,
{
    &&& 0 <= page < s.len()
    &&& s[page] is Some
    &&& least <= s[page].unwrap().members.len() <= m
    &&& node_ok(s, m, s[page].unwrap(), h, lo, hi)
    &&& forall|i: int| !#[trigger] child_owns(s, s[page].unwrap(), h, i, page)
}

/// What a search gives: `None` where it meets a page that breaks the layout
/// or a node with children below the height of the tree, and else the value
/// found, if any.
pub type Answer = Option<Option<Seq<u8>>>;

/// The search for `key` from node `n` of height `h`: the entry with this key if
/// the node has it; nothing if the node is a leaf; and else the search from
/// the child between the neighbouring keys.
pub open spec fn node_search(s: Store, n: NodeView, h: nat, key: Seq<u8>) -> Answer
    decreases h, 0nat,
{
    let r = rank(n.members, key) as int;
    if r < n.members.len() && n.members[r].key == key {
        Some(Some(n.members[r].value))
    } else if n.children.len() == 0 {
        Some(None)
    } else if h == 0 || r >= n.children.len() {
        None
    } else {
        search_spec(s, n.children[r] as int, (h - 1) as nat, key)
    }
}

/// The search for `key` from page `page` of height `h`.
pub open spec fn search_spec(s: Store, page: int, h: nat, key: Seq<u8>) -> Answer
    decreases h, 1nat,
{
    if 0 <= page < s.len() && s[page] is Some {
        node_search(s, s[page].unwrap(), h, key)
    } else {
        None
    }
}

/// The answer for `k` once `key` has been given `value`.
pub open spec fn put(a: Answer, k: Seq<u8>, key: Seq<u8>, value: Seq<u8>) -> Answer {
    if k == key {
        Some(Some(value))
    } else {
        a
    }
}

/// What is known of `rank`: the entries before it come before `key`, and the
/// entry at it, if there is one, does not.
pub proof fn lemma_rank_props(ms: Seq<EntryView>, key: Seq<u8>)
    ensures
        rank(ms, key) <= ms.len(),
        forall|j: int| 0 <= j < rank(ms, key) ==> key_lt(#[trigger] ms[j].key, key),
        rank(ms, key) < ms.len() ==> !key_lt(ms[rank(ms, key) as int].key, key),
    decreases ms.len(),
{
    if ms.len() == 0 || !key_lt(ms[0].key, key) {
    } else {
        let rest = ms.drop_first();
        lemma_rank_props(rest, key);
        assert forall|j: int| 0 <= j < rank(ms, key) implies key_lt(#[trigger] ms[j].key, key) by {
            if j > 0 {
                assert(ms[j] == rest[j - 1]);
            }
        }
        if rank(ms, key) < ms.len() {
            assert(ms[rank(ms, key) as int] == rest[rank(rest, key) as int]);
        }
    }
}

/// A position with these properties is the rank.
pub proof fn lemma_rank_is(ms: Seq<EntryView>, key: Seq<u8>, r: int)
    requires
        0 <= r <= ms.len(),
        forall|j: int| 0 <= j < r ==> key_lt(#[trigger] ms[j].key, key),
        r < ms.len() ==> !key_lt(ms[r].key, key),
    ensures
        rank(ms, key) == r,
    decreases ms.len(),
{
    if r > 0 {
        let rest = ms.drop_first();
        assert(key_lt(ms[0].key, key));
        assert forall|j: int| 0 <= j < r - 1 implies key_lt(#[trigger] rest[j].key, key) by {
            assert(rest[j] == ms[j + 1]);
        }
        lemma_rank_is(rest, key, r - 1);
    }
}

} // verus!

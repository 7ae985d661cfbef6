//! The entries of one node: where a key stands among them, and what putting
//! an entry in, or cutting the node in two, does to that.

use crate::key::{
    key_lt, lemma_key_lt_asymmetric, lemma_key_lt_irreflexive, lemma_key_lt_total,
    lemma_key_lt_transitive,
};
use crate::node::{EntryView, NodeView};
use crate::tree::{
    above, below, lemma_rank_is, lemma_rank_props, members_sorted, members_within, put, rank, Bound,
};
use vstd::prelude::*;

verus! {

/// Node `n` with entry `e` put at position `r`.
pub open spec fn with_entry(n: NodeView, r: int, e: EntryView) -> NodeView {
    NodeView { members: n.members.insert(r, e), children: n.children }
}

/// Node `n` with the value of entry `r` replaced.
pub open spec fn with_value(n: NodeView, r: int, value: Seq<u8>) -> NodeView {
    NodeView {
        members: n.members.update(r, EntryView { key: n.members[r].key, value }),
        children: n.children,
    }
}

/// Node `n` with entry `e` put at position `r` and page `right` put after
/// child `r`.
pub open spec fn with_split_child(n: NodeView, r: int, e: EntryView, right: u32) -> NodeView {
    NodeView { members: n.members.insert(r, e), children: n.children.insert(r + 1, right) }
}

/// The part of node `n` before entry `mid`.
pub open spec fn left_half(n: NodeView, mid: int) -> NodeView {
    NodeView {
        members: n.members.subrange(0, mid),
        children: if n.children.len() == 0 {
            n.children
        } else {
            n.children.subrange(0, mid + 1)
        },
    }
}

/// The part of node `n` after entry `mid`.
pub open spec fn right_half(n: NodeView, mid: int) -> NodeView {
    NodeView {
        members: n.members.subrange(mid + 1, n.members.len() as int),
        children: if n.children.len() == 0 {
            n.children
        } else {
            n.children.subrange(mid + 1, n.children.len() as int)
        },
    }
}

/// `key` is not among the entries of `n`.
pub open spec fn absent(n: NodeView, key: Seq<u8>) -> bool {
    rank(n.members, key) < n.members.len() ==> n.members[rank(n.members, key) as int].key != key
}

/// The child of `n` under which `key` belongs.
pub open spec fn child_for(n: NodeView, key: Seq<u8>) -> int {
    n.children[rank(n.members, key) as int] as int
}

/// An entry put at its rank keeps the entries in order and within bounds.
pub proof fn lemma_insert_sorted(ms: Seq<EntryView>, e: EntryView, r: int, lo: Bound, hi: Bound)
    requires
        members_sorted(ms),
        members_within(ms, lo, hi),
        r == rank(ms, e.key),
        r < ms.len() ==> ms[r].key != e.key,
        above(lo, e.key),
        below(e.key, hi),
    ensures
        members_sorted(ms.insert(r, e)),
        members_within(ms.insert(r, e), lo, hi),
{
    lemma_rank_props(ms, e.key);
    let ms2 = ms.insert(r, e);
    if r < ms.len() {
        lemma_key_lt_total(ms[r].key, e.key);
    }
    assert forall|i: int, j: int| 0 <= i < j < ms2.len() implies key_lt(
        #[trigger] ms2[i].key,
        #[trigger] ms2[j].key,
    ) by {
        if j < r {
            assert(ms2[i] == ms[i] && ms2[j] == ms[j]);
        } else if j == r {
            assert(ms2[i] == ms[i]);
        } else if i == r {
            assert(ms2[j] == ms[j - 1]);
            if j - 1 > r {
                assert(key_lt(ms[r].key, ms[j - 1].key));
                lemma_key_lt_transitive(e.key, ms[r].key, ms[j - 1].key);
            }
        } else if i < r {
            assert(ms2[i] == ms[i] && ms2[j] == ms[j - 1]);
        } else {
            assert(ms2[i] == ms[i - 1] && ms2[j] == ms[j - 1]);
        }
    }
    assert forall|i: int| 0 <= i < ms2.len() implies above(lo, #[trigger] ms2[i].key) && below(
        ms2[i].key,
        hi,
    ) by {
        if i < r {
            assert(ms2[i] == ms[i]);
        } else if i > r {
            assert(ms2[i] == ms[i - 1]);
        }
    }
}

/// The rank of any key after an entry was put at its own rank.
pub proof fn lemma_rank_insert(ms: Seq<EntryView>, e: EntryView, r: int, k: Seq<u8>)
    requires
        members_sorted(ms),
        r == rank(ms, e.key),
        r < ms.len() ==> ms[r].key != e.key,
    ensures
        rank(ms.insert(r, e), k) == if key_lt(e.key, k) {
            rank(ms, k) + 1
        } else {
            rank(ms, k)
        },
        key_lt(e.key, k) ==> rank(ms, k) >= r,
        !key_lt(e.key, k) ==> rank(ms, k) <= r,
{
    lemma_rank_props(ms, e.key);
    lemma_rank_props(ms, k);
    let ms2 = ms.insert(r, e);
    let q = rank(ms, k) as int;
    if key_lt(e.key, k) {
        if q < r {
            lemma_key_lt_transitive(ms[q].key, e.key, k);
        }
        assert forall|j: int| 0 <= j < q + 1 implies key_lt(#[trigger] ms2[j].key, k) by {
            if j < r {
                assert(ms2[j] == ms[j]);
            } else if j > r {
                assert(ms2[j] == ms[j - 1]);
            }
        }
        if q + 1 < ms2.len() {
            assert(ms2[q + 1] == ms[q]);
        }
        lemma_rank_is(ms2, k, q + 1);
    } else {
        if q > r {
            assert(key_lt(ms[r].key, k));
            lemma_key_lt_total(e.key, k);
            if e.key != k {
                lemma_key_lt_transitive(ms[r].key, k, e.key);
            }
        }
        assert forall|j: int| 0 <= j < q implies key_lt(#[trigger] ms2[j].key, k) by {
            assert(ms2[j] == ms[j]);
        }
        if q < r {
            assert(ms2[q] == ms[q]);
        }
        lemma_rank_is(ms2, k, q);
    }
}

/// Entries with the same keys give the same ranks.
pub proof fn lemma_rank_same_keys(ms: Seq<EntryView>, ms2: Seq<EntryView>, k: Seq<u8>)
    requires
        ms.len() == ms2.len(),
        forall|i: int| 0 <= i < ms.len() ==> (#[trigger] ms2[i]).key == ms[i].key,
    ensures
        rank(ms2, k) == rank(ms, k),
{
    lemma_rank_props(ms, k);
    let q = rank(ms, k) as int;
    assert forall|j: int| 0 <= j < q implies key_lt(#[trigger] ms2[j].key, k) by {
        assert(ms2[j].key == ms[j].key);
    }
    if q < ms.len() {
        assert(ms2[q].key == ms[q].key);
    }
    lemma_rank_is(ms2, k, q);
}

/// The rank of any key among the entries before and after position `mid`.
pub proof fn lemma_rank_split(ms: Seq<EntryView>, mid: int, k: Seq<u8>)
    requires
        members_sorted(ms),
        0 <= mid < ms.len(),
    ensures
        k == ms[mid].key ==> rank(ms, k) == mid,
        key_lt(k, ms[mid].key) ==> rank(ms, k) <= mid && rank(ms.subrange(0, mid), k) == rank(
            ms,
            k,
        ),
        key_lt(ms[mid].key, k) ==> rank(ms, k) > mid && rank(
            ms.subrange(mid + 1, ms.len() as int),
            k,
        ) == rank(ms, k) - mid - 1,
{
    lemma_rank_props(ms, k);
    let q = rank(ms, k) as int;
    let left = ms.subrange(0, mid);
    let right = ms.subrange(mid + 1, ms.len() as int);
    if k == ms[mid].key {
        lemma_key_lt_irreflexive(k);
        assert forall|j: int| 0 <= j < mid implies key_lt(#[trigger] ms[j].key, k) by {
            assert(key_lt(ms[j].key, ms[mid].key));
        }
        lemma_rank_is(ms, k, mid);
    } else if key_lt(k, ms[mid].key) {
        lemma_key_lt_asymmetric(k, ms[mid].key);
        if q > mid {
            assert(key_lt(ms[mid].key, k));
        }
        assert forall|j: int| 0 <= j < q implies key_lt(#[trigger] left[j].key, k) by {
            assert(left[j] == ms[j]);
        }
        if q < mid {
            assert(left[q] == ms[q]);
        }
        lemma_rank_is(left, k, q);
    } else if key_lt(ms[mid].key, k) {
        if q <= mid {
            if q < mid {
                assert(key_lt(ms[q].key, ms[mid].key));
                lemma_key_lt_transitive(ms[q].key, ms[mid].key, k);
            }
        }
        assert forall|j: int| 0 <= j < q - mid - 1 implies key_lt(#[trigger] right[j].key, k) by {
            assert(right[j] == ms[mid + 1 + j]);
        }
        if q - mid - 1 < right.len() {
            assert(right[q - mid - 1] == ms[q]);
        }
        lemma_rank_is(right, k, q - mid - 1);
    }
}

} // verus!

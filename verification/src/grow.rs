//! An insertion, level by level: what changes below a node, what the node
//! becomes, and what is written.

use crate::frame::{
    lemma_frame, lemma_owned_in_range, lemma_owns_child, lemma_write, same_subtree, under_children,
};
use crate::key::{
    key_lt, lemma_key_lt_asymmetric, lemma_key_lt_irreflexive, lemma_key_lt_total,
    lemma_key_lt_transitive,
};
use crate::members::{
    absent, child_for, left_half, lemma_insert_sorted, lemma_rank_insert, lemma_rank_same_keys,
    lemma_rank_split, right_half, with_entry, with_split_child, with_value,
};
use crate::node::{EntryView, NodeView};
use crate::tree::{
    above, below, child_hi, child_lo, child_owns, lemma_rank_is, lemma_rank_props, min_members,
    node_ok, node_search, owns, put, rank, search_spec, subtree_ok, Answer, Bound, Store,
};
use vstd::prelude::*;

verus! {

/// Store `t` is `s` but for the pages of the subtree under `page`, and for
/// pages added at the end.
pub open spec fn changed_within(s: Store, t: Store, page: int, h: nat) -> bool {
    &&& s.len() <= t.len()
    &&& forall|p: int| 0 <= p < s.len() && !owns(s, page, h, p) ==> #[trigger] t[p] == s[p]
}

/// Every page of the subtree under `page` in `t` is a page of the subtree
/// under `from` in `s`, or a page that `s` does not have.
pub open spec fn grown_from(s: Store, t: Store, page: int, from: int, h: nat) -> bool {
    forall|p: int| #[trigger] owns(t, page, h, p) ==> owns(s, from, h, p) || p >= s.len()
}

/// The subtree under `page` in `t` is the one in `s` with `key` given `value`.
pub open spec fn inserted(
    s: Store,
    t: Store,
    m: nat,
    page: int,
    h: nat,
    lo: Bound,
    hi: Bound,
    least: nat,
    key: Seq<u8>,
    value: Seq<u8>,
) -> bool {
    &&& subtree_ok(t, m, page, h, lo, hi, least)
    &&& forall|k: Seq<u8>| #[trigger]
        search_spec(t, page, h, k) == put(search_spec(s, page, h, k), k, key, value)
    &&& grown_from(s, t, page, page, h)
}

/// What two subtrees and the entry between them answer together.
pub open spec fn split_answer(
    t: Store,
    page: int,
    right: int,
    h: nat,
    e: EntryView,
    k: Seq<u8>,
) -> Answer {
    if k == e.key {
        Some(Some(e.value))
    } else if key_lt(k, e.key) {
        search_spec(t, page, h, k)
    } else {
        search_spec(t, right, h, k)
    }
}

/// The subtrees under `page` and `right` in `t`, with the entry `e` between
/// them, are together the subtree under `page` in `s` with `key` given `value`.
pub open spec fn inserted_split(
    s: Store,
    t: Store,
    m: nat,
    page: int,
    right: int,
    e: EntryView,
    h: nat,
    lo: Bound,
    hi: Bound,
    key: Seq<u8>,
    value: Seq<u8>,
) -> bool {
    &&& above(lo, e.key)
    &&& below(e.key, hi)
    &&& subtree_ok(t, m, page, h, lo, Some(e.key), min_members(m))
    &&& subtree_ok(t, m, right, h, Some(e.key), hi, min_members(m))
    &&& forall|k: Seq<u8>| #[trigger]
        split_answer(t, page, right, h, e, k) == put(search_spec(s, page, h, k), k, key, value)
    &&& grown_from(s, t, page, page, h)
    &&& grown_from(s, t, right, page, h)
    &&& forall|p: int| !(#[trigger] owns(t, page, h, p) && #[trigger] owns(t, right, h, p))
}

/// Node `n`, not yet written, would make the subtree under `page` in `t` the
/// subtree under `page` in `s` with `key` given `value`; and `t` is `s` but for
/// the pages of that subtree and for new pages.
pub open spec fn pending(
    s: Store,
    t: Store,
    m: nat,
    n: NodeView,
    page: int,
    h: nat,
    lo: Bound,
    hi: Bound,
    key: Seq<u8>,
    value: Seq<u8>,
) -> bool {
    &&& 0 <= page < s.len()
    &&& node_ok(t, m, n, h, lo, hi)
    &&& forall|k: Seq<u8>| #[trigger]
        node_search(t, n, h, k) == put(search_spec(s, page, h, k), k, key, value)
    &&& forall|i: int, p: int| #[trigger]
        child_owns(t, n, h, i, p) ==> 0 <= p < t.len() && p != page && (p >= s.len() || owns(
            s,
            page,
            h,
            p,
        ))
    &&& changed_within(s, t, page, h)
}

/// Where an insertion has changed the subtree under one child and the child
/// has not split, the parent's subtree holds the insertion as it stands.
pub proof fn lemma_level_kept(
    s: Store,
    t: Store,
    m: nat,
    page: int,
    h: nat,
    lo: Bound,
    hi: Bound,
    least: nat,
    key: Seq<u8>,
    value: Seq<u8>,
)
    requires
        h > 0,
        subtree_ok(s, m, page, h, lo, hi, least),
        absent(s[page].unwrap(), key),
        changed_within(s, t, child_for(s[page].unwrap(), key), (h - 1) as nat),
        inserted(
            s,
            t,
            m,
            child_for(s[page].unwrap(), key),
            (h - 1) as nat,
            child_lo(s[page].unwrap().members, rank(s[page].unwrap().members, key) as int, lo),
            child_hi(s[page].unwrap().members, rank(s[page].unwrap().members, key) as int, hi),
            min_members(m),
            key,
            value,
        ),
    ensures
        inserted(s, t, m, page, h, lo, hi, least, key, value),
        changed_within(s, t, page, h),
{
    let n = s[page].unwrap();
    let g = (h - 1) as nat;
    let r = rank(n.members, key) as int;
    lemma_rank_props(n.members, key);
    let c = n.children[r] as int;
    assert(!child_owns(s, n, h, r, page));
    assert(t[page] == s[page]);
    assert forall|j: int| 0 <= j < n.children.len() && j != r implies subtree_ok(
        t,
        m,
        (#[trigger] n.children[j]) as int,
        g,
        child_lo(n.members, j, lo),
        child_hi(n.members, j, hi),
        min_members(m),
    ) && same_subtree(s, t, n.children[j] as int, g) by {
        let cj = n.children[j] as int;
        assert forall|p: int| #[trigger] owns(s, cj, g, p) implies 0 <= p < t.len() && p
            < s.len() && t[p] == s[p] by {
            lemma_owned_in_range(
                s,
                m,
                cj,
                g,
                child_lo(n.members, j, lo),
                child_hi(n.members, j, hi),
                min_members(m),
                p,
            );
            assert(child_owns(s, n, h, j, p));
            assert(!child_owns(s, n, h, r, p));
        }
        lemma_frame(
            s,
            t,
            m,
            cj,
            g,
            child_lo(n.members, j, lo),
            child_hi(n.members, j, hi),
            min_members(m),
        );
    }
    assert forall|i: int, p: int| #[trigger] child_owns(t, n, h, i, p) implies (i == r && p
        >= s.len()) || (child_owns(s, n, h, i, p) && p < s.len()) by {
        let ci = n.children[i] as int;
        if i != r {
            assert(same_subtree(s, t, ci, g));
            assert(owns(t, ci, g, p) == owns(s, ci, g, p));
        }
        if child_owns(s, n, h, i, p) {
            lemma_owned_in_range(
                s,
                m,
                ci,
                g,
                child_lo(n.members, i, lo),
                child_hi(n.members, i, hi),
                min_members(m),
                p,
            );
        }
    }
    assert(node_ok(t, m, n, h, lo, hi)) by {
        assert forall|i: int| 0 <= i < n.children.len() implies subtree_ok(
            t,
            m,
            (#[trigger] n.children[i]) as int,
            g,
            child_lo(n.members, i, lo),
            child_hi(n.members, i, hi),
            min_members(m),
        ) by {}
        assert forall|i: int, j: int, p: int| i != j implies !(#[trigger] child_owns(
            t,
            n,
            h,
            i,
            p,
        ) && #[trigger] child_owns(t, n, h, j, p)) by {
            if child_owns(t, n, h, i, p) && child_owns(t, n, h, j, p) {
                assert(child_owns(s, n, h, i, p) && child_owns(s, n, h, j, p));
            }
        }
    }
    assert forall|k: Seq<u8>| #[trigger]
        search_spec(t, page, h, k) == put(search_spec(s, page, h, k), k, key, value) by {
        let q = rank(n.members, k) as int;
        lemma_rank_props(n.members, k);
        if q < n.children.len() {
            let cq = n.children[q] as int;
            if q != r {
                assert(same_subtree(s, t, cq, g));
            }
            assert(search_spec(t, cq, g, k) == if q == r {
                put(search_spec(s, cq, g, k), k, key, value)
            } else {
                search_spec(s, cq, g, k)
            });
        }
        assert(node_search(t, n, h, k) == put(node_search(s, n, h, k), k, key, value));
    }
    assert forall|p: int| #[trigger] owns(t, page, h, p) implies owns(s, page, h, p) || p
        >= s.len() by {
        if p != page {
            let i = choose|i: int|
                0 <= i < n.children.len() && owns(t, (#[trigger] n.children[i]) as int, g, p);
            assert(child_owns(t, n, h, i, p));
            if p < s.len() {
                lemma_owns_child(s, page, h, i, p);
            }
        }
    }
    assert forall|p: int| 0 <= p < s.len() && !owns(s, page, h, p) implies #[trigger] t[p]
        == s[p] by {
        if owns(s, c, g, p) {
            assert(child_owns(s, n, h, r, p));
            lemma_owns_child(s, page, h, r, p);
        }
    }
}

/// A new entry put into a leaf at its rank.
pub proof fn lemma_leaf_pending(
    s: Store,
    m: nat,
    page: int,
    lo: Bound,
    hi: Bound,
    least: nat,
    e: EntryView,
)
    requires
        subtree_ok(s, m, page, 0, lo, hi, least),
        absent(s[page].unwrap(), e.key),
        above(lo, e.key),
        below(e.key, hi),
    ensures
        pending(
            s,
            s,
            m,
            with_entry(s[page].unwrap(), rank(s[page].unwrap().members, e.key) as int, e),
            page,
            0,
            lo,
            hi,
            e.key,
            e.value,
        ),
{
    let n = s[page].unwrap();
    let ms = n.members;
    let r = rank(ms, e.key) as int;
    let n2 = with_entry(n, r, e);
    lemma_rank_props(ms, e.key);
    lemma_insert_sorted(ms, e, r, lo, hi);
    if r < ms.len() {
        lemma_key_lt_total(ms[r].key, e.key);
    }
    assert forall|k: Seq<u8>| #[trigger]
        node_search(s, n2, 0, k) == put(search_spec(s, page, 0, k), k, e.key, e.value) by {
        lemma_rank_insert(ms, e, r, k);
        lemma_rank_props(ms, k);
        let q = rank(ms, k) as int;
        lemma_key_lt_irreflexive(k);
        if key_lt(e.key, k) {
            if q < ms.len() {
                assert(n2.members[q + 1] == ms[q]);
            }
        } else if k == e.key {
            assert(n2.members[r] == e);
        } else {
            lemma_key_lt_total(e.key, k);
            if q < r {
                assert(n2.members[q] == ms[q]);
            } else {
                assert(n2.members[r] == e);
                if r < ms.len() {
                    lemma_key_lt_transitive(k, e.key, ms[r].key);
                }
            }
        }
    }
}

/// A new value given to an entry that is there.
pub proof fn lemma_overwrite_pending(
    s: Store,
    m: nat,
    page: int,
    h: nat,
    lo: Bound,
    hi: Bound,
    least: nat,
    key: Seq<u8>,
    value: Seq<u8>,
)
    requires
        subtree_ok(s, m, page, h, lo, hi, least),
        !absent(s[page].unwrap(), key),
    ensures
        pending(
            s,
            s,
            m,
            with_value(s[page].unwrap(), rank(s[page].unwrap().members, key) as int, value),
            page,
            h,
            lo,
            hi,
            key,
            value,
        ),
{
    let n = s[page].unwrap();
    let ms = n.members;
    let r = rank(ms, key) as int;
    let n2 = with_value(n, r, value);
    let ms2 = n2.members;
    assert forall|i: int| 0 <= i < ms.len() implies (#[trigger] ms2[i]).key == ms[i].key by {}
    assert forall|i: int, j: int| 0 <= i < j < ms2.len() implies key_lt(
        #[trigger] ms2[i].key,
        #[trigger] ms2[j].key,
    ) by {
        assert(key_lt(ms[i].key, ms[j].key));
    }
    assert forall|i: int| 0 <= i < ms2.len() implies above(lo, #[trigger] ms2[i].key) && below(
        ms2[i].key,
        hi,
    ) by {
        assert(above(lo, ms[i].key));
    }
    assert forall|i: int| 0 <= i < n2.children.len() implies child_lo(ms2, i, lo) == child_lo(
        ms,
        i,
        lo,
    ) && child_hi(ms2, i, hi) == child_hi(ms, i, hi) by {
        if h > 0 {
            if i > 0 {
                assert(ms2[i - 1].key == ms[i - 1].key);
            }
            if i < ms.len() {
                assert(ms2[i].key == ms[i].key);
            }
        }
    }
    assert forall|i: int, p: int| child_owns(s, n2, h, i, p) == child_owns(s, n, h, i, p) by {}
    assert(node_ok(s, m, n2, h, lo, hi)) by {
        if h > 0 {
            assert forall|i: int| 0 <= i < n2.children.len() implies subtree_ok(
                s,
                m,
                (#[trigger] n2.children[i]) as int,
                (h - 1) as nat,
                child_lo(ms2, i, lo),
                child_hi(ms2, i, hi),
                min_members(m),
            ) by {
                assert(n2.children[i] == n.children[i]);
            }
        }
    }
    assert forall|k: Seq<u8>| #[trigger]
        node_search(s, n2, h, k) == put(search_spec(s, page, h, k), k, key, value) by {
        lemma_rank_same_keys(ms, ms2, k);
        let q = rank(ms, k) as int;
        if q < ms.len() {
            assert(ms2[q].key == ms[q].key);
        }
    }
    assert forall|i: int, p: int| #[trigger] child_owns(s, n2, h, i, p) implies 0 <= p < s.len()
        && p != page && (p >= s.len() || owns(s, page, h, p)) by {
        assert(child_owns(s, n, h, i, p));
        lemma_owns_child(s, page, h, i, p);
        lemma_owned_in_range(s, m, page, h, lo, hi, least, p);
    }
}

/// A pending node that fits a page, written to its page.
pub proof fn lemma_commit(
    s: Store,
    t: Store,
    m: nat,
    n: NodeView,
    page: int,
    h: nat,
    lo: Bound,
    hi: Bound,
    least: nat,
    key: Seq<u8>,
    value: Seq<u8>,
)
    requires
        pending(s, t, m, n, page, h, lo, hi, key, value),
        least <= n.members.len() <= m,
    ensures
        inserted(s, t.update(page, Some(n)), m, page, h, lo, hi, least, key, value),
        changed_within(s, t.update(page, Some(n)), page, h),
{
    let u = t.update(page, Some(n));
    lemma_write(t, u, m, n, page, h, lo, hi, least);
    assert forall|k: Seq<u8>| #[trigger]
        search_spec(u, page, h, k) == put(search_spec(s, page, h, k), k, key, value) by {
        assert(search_spec(u, page, h, k) == node_search(t, n, h, k));
    }
    assert forall|p: int| #[trigger] owns(u, page, h, p) implies owns(s, page, h, p) || p
        >= s.len() by {
        if p != page {
            assert(under_children(t, n, h, p));
            let i = choose|i: int| #[trigger] child_owns(t, n, h, i, p);
            assert(child_owns(t, n, h, i, p));
        }
    }
    assert forall|p: int| 0 <= p < s.len() && !owns(s, page, h, p) implies #[trigger] u[p]
        == s[p] by {
        assert(t[p] == s[p]);
    }
}

/// The two halves of a well-formed node round entry `mid` are well-formed
/// nodes on either side of that entry, and together with it they answer as
/// the node does.
pub proof fn lemma_split_node(s: Store, m: nat, n: NodeView, h: nat, lo: Bound, hi: Bound, mid: int)
    requires
        node_ok(s, m, n, h, lo, hi),
        0 <= mid < n.members.len(),
    ensures
        above(lo, n.members[mid].key),
        below(n.members[mid].key, hi),
        node_ok(s, m, left_half(n, mid), h, lo, Some(n.members[mid].key)),
        node_ok(s, m, right_half(n, mid), h, Some(n.members[mid].key), hi),
        forall|k: Seq<u8>| #[trigger]
            node_search(s, n, h, k) == if k == n.members[mid].key {
                Some(Some(n.members[mid].value))
            } else if key_lt(k, n.members[mid].key) {
                node_search(s, left_half(n, mid), h, k)
            } else {
                node_search(s, right_half(n, mid), h, k)
            },
        forall|i: int, p: int| #[trigger]
            child_owns(s, left_half(n, mid), h, i, p) ==> i <= mid && child_owns(s, n, h, i, p),
        forall|i: int, p: int| #[trigger]
            child_owns(s, right_half(n, mid), h, i, p) ==> i >= 0 && child_owns(
                s,
                n,
                h,
                i + mid + 1,
                p,
            ),
{
    let ms = n.members;
    let e = ms[mid];
    let l = left_half(n, mid);
    let r = right_half(n, mid);
    let g = (h - 1) as nat;
    assert(above(lo, ms[mid].key) && below(ms[mid].key, hi));
    assert forall|i: int, j: int| 0 <= i < j < l.members.len() implies key_lt(
        #[trigger] l.members[i].key,
        #[trigger] l.members[j].key,
    ) by {
        assert(key_lt(ms[i].key, ms[j].key));
    }
    assert forall|i: int, j: int| 0 <= i < j < r.members.len() implies key_lt(
        #[trigger] r.members[i].key,
        #[trigger] r.members[j].key,
    ) by {
        assert(key_lt(ms[mid + 1 + i].key, ms[mid + 1 + j].key));
    }
    assert forall|i: int| 0 <= i < l.members.len() implies above(lo, #[trigger] l.members[i].key)
        && below(l.members[i].key, Some(e.key)) by {
        assert(above(lo, ms[i].key));
        assert(key_lt(ms[i].key, ms[mid].key));
    }
    assert forall|i: int| 0 <= i < r.members.len() implies above(
        Some(e.key),
        #[trigger] r.members[i].key,
    ) && below(r.members[i].key, hi) by {
        assert(below(ms[mid + 1 + i].key, hi));
        assert(key_lt(ms[mid].key, ms[mid + 1 + i].key));
    }
    if h > 0 {
        assert forall|i: int| 0 <= i < l.children.len() implies subtree_ok(
            s,
            m,
            (#[trigger] l.children[i]) as int,
            g,
            child_lo(l.members, i, lo),
            child_hi(l.members, i, Some(e.key)),
            min_members(m),
        ) by {
            assert(l.children[i] == n.children[i]);
            assert(child_lo(l.members, i, lo) == child_lo(ms, i, lo));
            assert(child_hi(l.members, i, Some(e.key)) == child_hi(ms, i, hi));
        }
        assert forall|i: int| 0 <= i < r.children.len() implies subtree_ok(
            s,
            m,
            (#[trigger] r.children[i]) as int,
            g,
            child_lo(r.members, i, Some(e.key)),
            child_hi(r.members, i, hi),
            min_members(m),
        ) by {
            assert(r.children[i] == n.children[mid + 1 + i]);
            assert(child_lo(r.members, i, Some(e.key)) == child_lo(ms, mid + 1 + i, lo));
            assert(child_hi(r.members, i, hi) == child_hi(ms, mid + 1 + i, hi));
        }
        assert forall|i: int, p: int| #[trigger] child_owns(s, l, h, i, p) implies i <= mid
            && child_owns(s, n, h, i, p) by {
            assert(l.children[i] == n.children[i]);
        }
        assert forall|i: int, p: int| #[trigger] child_owns(s, r, h, i, p) implies i >= 0
            && child_owns(s, n, h, i + mid + 1, p) by {
            assert(r.children[i] == n.children[mid + 1 + i]);
        }
        assert forall|i: int, j: int, p: int| i != j implies !(#[trigger] child_owns(s, l, h, i, p)
            && #[trigger] child_owns(s, l, h, j, p)) by {
            if child_owns(s, l, h, i, p) && child_owns(s, l, h, j, p) {
                assert(child_owns(s, n, h, i, p) && child_owns(s, n, h, j, p));
            }
        }
        assert forall|i: int, j: int, p: int| i != j implies !(#[trigger] child_owns(s, r, h, i, p)
            && #[trigger] child_owns(s, r, h, j, p)) by {
            if child_owns(s, r, h, i, p) && child_owns(s, r, h, j, p) {
                assert(child_owns(s, n, h, i + mid + 1, p) && child_owns(
                    s,
                    n,
                    h,
                    j + mid + 1,
                    p,
                ));
            }
        }
    }
    assert forall|k: Seq<u8>| #[trigger]
        node_search(s, n, h, k) == if k == e.key {
            Some(Some(e.value))
        } else if key_lt(k, e.key) {
            node_search(s, l, h, k)
        } else {
            node_search(s, r, h, k)
        } by {
        lemma_rank_split(ms, mid, k);
        lemma_rank_props(ms, k);
        lemma_key_lt_total(k, e.key);
        lemma_key_lt_irreflexive(k);
        let q = rank(ms, k) as int;
        if k == e.key {
        } else if key_lt(k, e.key) {
            if q < mid {
                assert(l.members[q] == ms[q]);
            }
            if h > 0 {
                assert(l.children[q] == n.children[q]);
            }
        } else {
            let q2 = q - mid - 1;
            if q < ms.len() {
                assert(r.members[q2] == ms[q]);
            }
            if h > 0 {
                assert(r.children[q2] == n.children[q]);
            }
        }
    }
}

/// A pending node with one entry too many, split round its middle entry: the
/// left half written to the node's page, the right half to a new page at the
/// end of the store.
pub proof fn lemma_commit_split(
    s: Store,
    t: Store,
    m: nat,
    n: NodeView,
    page: int,
    h: nat,
    lo: Bound,
    hi: Bound,
    key: Seq<u8>,
    value: Seq<u8>,
)
    requires
        pending(s, t, m, n, page, h, lo, hi, key, value),
        n.members.len() == m + 1,
        m >= 1,
    ensures
        inserted_split(
            s,
            t.push(Some(right_half(n, (m + 1) as int / 2))).update(
                page,
                Some(left_half(n, (m + 1) as int / 2)),
            ),
            m,
            page,
            t.len() as int,
            n.members[(m + 1) as int / 2],
            h,
            lo,
            hi,
            key,
            value,
        ),
        changed_within(
            s,
            t.push(Some(right_half(n, (m + 1) as int / 2))).update(
                page,
                Some(left_half(n, (m + 1) as int / 2)),
            ),
            page,
            h,
        ),
{
    let mid = (m + 1) as int / 2;
    let l = left_half(n, mid);
    let r = right_half(n, mid);
    let e = n.members[mid];
    let f = t.len() as int;
    let u = t.push(Some(r)).update(page, Some(l));
    let least = min_members(m);
    lemma_split_node(t, m, n, h, lo, hi, mid);
    assert(u[page] == Some(l));
    assert(u[f] == Some(r));
    assert forall|i: int, p: int| #[trigger] child_owns(t, l, h, i, p) implies p != page && 0 <= p
        < u.len() && p < t.len() && u[p] == t[p] by {
        assert(child_owns(t, n, h, i, p));
    }
    assert forall|i: int, p: int| #[trigger] child_owns(t, r, h, i, p) implies p != f && 0 <= p
        < u.len() && p < t.len() && u[p] == t[p] by {
        assert(child_owns(t, n, h, i + mid + 1, p));
    }
    lemma_write(t, u, m, l, page, h, lo, Some(e.key), least);
    lemma_write(t, u, m, r, f, h, Some(e.key), hi, least);
    assert forall|k: Seq<u8>| #[trigger]
        split_answer(u, page, f, h, e, k) == put(search_spec(s, page, h, k), k, key, value) by {
        assert(search_spec(u, page, h, k) == node_search(t, l, h, k));
        assert(search_spec(u, f, h, k) == node_search(t, r, h, k));
        assert(node_search(t, n, h, k) == put(search_spec(s, page, h, k), k, key, value));
    }
    assert forall|p: int| #[trigger] owns(u, page, h, p) implies owns(s, page, h, p) || p
        >= s.len() by {
        if p != page {
            assert(under_children(t, l, h, p));
            let i = choose|i: int| #[trigger] child_owns(t, l, h, i, p);
            assert(child_owns(t, n, h, i, p));
        }
    }
    assert forall|p: int| #[trigger] owns(u, f, h, p) implies owns(s, page, h, p) || p
        >= s.len() by {
        if p != f {
            assert(under_children(t, r, h, p));
            let i = choose|i: int| #[trigger] child_owns(t, r, h, i, p);
            assert(child_owns(t, n, h, i + mid + 1, p));
        }
    }
    assert forall|p: int| !(#[trigger] owns(u, page, h, p) && #[trigger] owns(u, f, h, p)) by {
        if owns(u, page, h, p) && owns(u, f, h, p) {
            if p == page {
                assert(under_children(t, r, h, p));
                let j = choose|j: int| #[trigger] child_owns(t, r, h, j, p);
                assert(child_owns(t, n, h, j + mid + 1, p));
            } else if p == f {
                assert(under_children(t, l, h, p));
                let i = choose|i: int| #[trigger] child_owns(t, l, h, i, p);
                assert(child_owns(t, n, h, i, p));
            } else {
                assert(under_children(t, l, h, p));
                assert(under_children(t, r, h, p));
                let i = choose|i: int| #[trigger] child_owns(t, l, h, i, p);
                let j = choose|j: int| #[trigger] child_owns(t, r, h, j, p);
                assert(child_owns(t, n, h, i, p));
                assert(child_owns(t, n, h, j + mid + 1, p));
            }
        }
    }
    assert forall|p: int| 0 <= p < s.len() && !owns(s, page, h, p) implies #[trigger] u[p]
        == s[p] by {
        assert(t[p] == s[p]);
    }
}

/// Where an insertion has split the child under which the key belongs, the
/// parent takes the entry that came up and the new page beside the child.
pub proof fn lemma_child_split_pending(
    s: Store,
    t: Store,
    m: nat,
    page: int,
    h: nat,
    lo: Bound,
    hi: Bound,
    least: nat,
    right: u32,
    e: EntryView,
    key: Seq<u8>,
    value: Seq<u8>,
)
    requires
        h > 0,
        subtree_ok(s, m, page, h, lo, hi, least),
        absent(s[page].unwrap(), key),
        changed_within(s, t, child_for(s[page].unwrap(), key), (h - 1) as nat),
        inserted_split(
            s,
            t,
            m,
            child_for(s[page].unwrap(), key),
            right as int,
            e,
            (h - 1) as nat,
            child_lo(s[page].unwrap().members, rank(s[page].unwrap().members, key) as int, lo),
            child_hi(s[page].unwrap().members, rank(s[page].unwrap().members, key) as int, hi),
            key,
            value,
        ),
    ensures
        pending(
            s,
            t,
            m,
            with_split_child(
                s[page].unwrap(),
                rank(s[page].unwrap().members, key) as int,
                e,
                right,
            ),
            page,
            h,
            lo,
            hi,
            key,
            value,
        ),
{
    let n = s[page].unwrap();
    let ms = n.members;
    let ch = n.children;
    let g = (h - 1) as nat;
    let r = rank(ms, key) as int;
    let c = ch[r] as int;
    let n2 = with_split_child(n, r, e, right);
    let ms2 = n2.members;
    let ch2 = n2.children;
    let least2 = min_members(m);
    lemma_rank_props(ms, key);
    // The entry that came up belongs at the same position as the key.
    assert forall|j: int| 0 <= j < r implies key_lt(#[trigger] ms[j].key, e.key) by {
        if j < r - 1 {
            assert(key_lt(ms[j].key, ms[r - 1].key));
            lemma_key_lt_transitive(ms[j].key, ms[r - 1].key, e.key);
        }
    }
    if r < ms.len() {
        lemma_key_lt_asymmetric(e.key, ms[r].key);
    }
    lemma_rank_is(ms, e.key, r);
    if r > 0 {
        assert(above(lo, ms[r - 1].key));
        if lo is Some {
            lemma_key_lt_transitive(lo.unwrap(), ms[r - 1].key, e.key);
        }
    }
    if r < ms.len() {
        assert(below(ms[r].key, hi));
        if hi is Some {
            lemma_key_lt_transitive(e.key, ms[r].key, hi.unwrap());
        }
    }
    lemma_insert_sorted(ms, e, r, lo, hi);
    // The other children are what they were.
    assert forall|j: int| 0 <= j < ch.len() && j != r implies subtree_ok(
        t,
        m,
        (#[trigger] ch[j]) as int,
        g,
        child_lo(ms, j, lo),
        child_hi(ms, j, hi),
        least2,
    ) && same_subtree(s, t, ch[j] as int, g) by {
        let cj = ch[j] as int;
        assert forall|p: int| #[trigger] owns(s, cj, g, p) implies 0 <= p < t.len() && p
            < s.len() && t[p] == s[p] by {
            lemma_owned_in_range(s, m, cj, g, child_lo(ms, j, lo), child_hi(ms, j, hi), least2, p);
            assert(child_owns(s, n, h, j, p));
            assert(!child_owns(s, n, h, r, p));
        }
        lemma_frame(s, t, m, cj, g, child_lo(ms, j, lo), child_hi(ms, j, hi), least2);
    }
    let from = |i: int| if i <= r { i } else { i - 1 };
    assert forall|i: int| 0 <= i < ch2.len() implies subtree_ok(
        t,
        m,
        (#[trigger] ch2[i]) as int,
        g,
        child_lo(ms2, i, lo),
        child_hi(ms2, i, hi),
        least2,
    ) by {
        if i < r {
            assert(ch2[i] == ch[i]);
            assert(child_lo(ms2, i, lo) == child_lo(ms, i, lo));
            assert(child_hi(ms2, i, hi) == child_hi(ms, i, hi));
        } else if i == r {
            assert(ch2[i] == ch[r]);
            assert(child_lo(ms2, i, lo) == child_lo(ms, r, lo));
            assert(child_hi(ms2, i, hi) == Some(e.key));
        } else if i == r + 1 {
            assert(ch2[i] == right);
            assert(child_lo(ms2, i, lo) == Some(e.key));
            assert(child_hi(ms2, i, hi) == child_hi(ms, r, hi));
        } else {
            assert(ch2[i] == ch[i - 1]);
            assert(ms2[i - 1] == ms[i - 2]);
            assert(child_lo(ms2, i, lo) == child_lo(ms, i - 1, lo));
            assert(child_hi(ms2, i, hi) == child_hi(ms, i - 1, hi));
        }
    }
    assert forall|i: int, p: int| #[trigger] child_owns(t, n2, h, i, p) implies 0 <= p < t.len()
        && (((i == r || i == r + 1) && p >= s.len()) || (p < s.len() && child_owns(
        s,
        n,
        h,
        from(i),
        p,
    ))) by {
        let ci = ch2[i] as int;
        lemma_owned_in_range(
            t,
            m,
            ci,
            g,
            child_lo(ms2, i, lo),
            child_hi(ms2, i, hi),
            least2,
            p,
        );
        if i == r {
            assert(ch2[i] == ch[r]);
        } else if i == r + 1 {
            assert(ch2[i] == right);
        } else {
            let j = from(i);
            assert(ch2[i] == ch[j]);
            assert(same_subtree(s, t, ch[j] as int, g));
            assert(owns(t, ch[j] as int, g, p) == owns(s, ch[j] as int, g, p));
            assert(child_owns(s, n, h, j, p));
            lemma_owned_in_range(
                s,
                m,
                ch[j] as int,
                g,
                child_lo(ms, j, lo),
                child_hi(ms, j, hi),
                least2,
                p,
            );
        }
    }
    assert(node_ok(t, m, n2, h, lo, hi)) by {
        assert forall|i: int, j: int, p: int| i != j implies !(#[trigger] child_owns(
            t,
            n2,
            h,
            i,
            p,
        ) && #[trigger] child_owns(t, n2, h, j, p)) by {
            if child_owns(t, n2, h, i, p) && child_owns(t, n2, h, j, p) {
                if from(i) == from(j) || p >= s.len() {
                    assert(ch2[r] == ch[r] && ch2[r + 1] == right);
                    assert(owns(t, c, g, p) && owns(t, right as int, g, p));
                } else {
                    assert(child_owns(s, n, h, from(i), p) && child_owns(s, n, h, from(j), p));
                }
            }
        }
    }
    assert forall|k: Seq<u8>| #[trigger]
        node_search(t, n2, h, k) == put(search_spec(s, page, h, k), k, key, value) by {
        lemma_rank_insert(ms, e, r, k);
        lemma_rank_props(ms, k);
        lemma_key_lt_irreflexive(k);
        lemma_key_lt_total(e.key, k);
        let q = rank(ms, k) as int;
        let q2 = rank(ms2, k) as int;
        assert(split_answer(t, c, right as int, g, e, k) == put(
            search_spec(s, c, g, k),
            k,
            key,
            value,
        ));
        if k == e.key {
            assert(ms2[r] == e);
        } else if key_lt(k, e.key) {
            lemma_key_lt_asymmetric(k, e.key);
            if q < r {
                assert(ms2[q] == ms[q]);
                assert(ch2[q] == ch[q]);
                assert(same_subtree(s, t, ch[q] as int, g));
                assert(search_spec(t, ch[q] as int, g, k) == search_spec(s, ch[q] as int, g, k));
            } else {
                assert(ms2[r] == e);
                assert(ch2[r] == ch[r]);
                if r < ms.len() {
                    lemma_key_lt_transitive(k, e.key, ms[r].key);
                }
            }
        } else {
            if q < ms.len() {
                assert(ms2[q + 1] == ms[q]);
            }
            if q == r {
                assert(ch2[q + 1] == right);
            } else {
                assert(ch2[q + 1] == ch[q]);
                assert(same_subtree(s, t, ch[q] as int, g));
                assert(search_spec(t, ch[q] as int, g, k) == search_spec(s, ch[q] as int, g, k));
            }
        }
    }
    assert forall|i: int, p: int| #[trigger] child_owns(t, n2, h, i, p) implies 0 <= p < t.len()
        && p != page && (p >= s.len() || owns(s, page, h, p)) by {
        if p < s.len() {
            lemma_owns_child(s, page, h, from(i), p);
        }
    }
    assert forall|p: int| 0 <= p < s.len() && !owns(s, page, h, p) implies #[trigger] t[p]
        == s[p] by {
        if owns(s, c, g, p) {
            assert(child_owns(s, n, h, r, p));
            lemma_owns_child(s, page, h, r, p);
        }
    }
}

/// Where the root has split, a new root that holds the entry that came up
/// and the two halves as its children.
pub proof fn lemma_new_root(
    s: Store,
    t: Store,
    m: nat,
    page: u32,
    right: u32,
    e: EntryView,
    h: nat,
    key: Seq<u8>,
    value: Seq<u8>,
)
    requires
        m >= 1,
        0 <= page < s.len(),
        inserted_split(s, t, m, page as int, right as int, e, h, None, None, key, value),
    ensures
        ({
            let top = NodeView { members: seq![e], children: seq![page, right] };
            let u = t.push(Some(top));
            &&& subtree_ok(u, m, t.len() as int, h + 1, None, None, 0)
            &&& forall|k: Seq<u8>| #[trigger]
                search_spec(u, t.len() as int, h + 1, k) == put(
                    search_spec(s, page as int, h, k),
                    k,
                    key,
                    value,
                )
        }),
{
    let top = NodeView { members: seq![e], children: seq![page, right] };
    let u = t.push(Some(top));
    let f = t.len() as int;
    let least = min_members(m);
    assert forall|i: int, p: int| #[trigger] child_owns(t, top, h + 1, i, p) implies 0 <= p
        < t.len() && (if i == 0 {
        owns(t, page as int, h, p)
    } else {
        i == 1 && owns(t, right as int, h, p)
    }) by {
        if i == 0 {
            lemma_owned_in_range(t, m, page as int, h, None, Some(e.key), least, p);
        } else {
            lemma_owned_in_range(t, m, right as int, h, Some(e.key), None, least, p);
        }
    }
    assert(node_ok(t, m, top, h + 1, None, None)) by {
        assert forall|i: int| 0 <= i < top.children.len() implies subtree_ok(
            t,
            m,
            (#[trigger] top.children[i]) as int,
            h,
            child_lo(top.members, i, None),
            child_hi(top.members, i, None),
            least,
        ) by {
            if i == 0 {
                assert(child_hi(top.members, i, None) == Some(e.key));
            } else {
                assert(child_lo(top.members, i, None) == Some(e.key));
            }
        }
    }
    lemma_write(t, u, m, top, f, h + 1, None, None, 0);
    assert forall|k: Seq<u8>| #[trigger]
        search_spec(u, f, h + 1, k) == put(search_spec(s, page as int, h, k), k, key, value) by {
        assert(search_spec(u, f, h + 1, k) == node_search(t, top, h + 1, k));
        assert(split_answer(t, page as int, right as int, h, e, k) == put(
            search_spec(s, page as int, h, k),
            k,
            key,
            value,
        ));
        lemma_key_lt_total(e.key, k);
        lemma_key_lt_irreflexive(k);
        if key_lt(e.key, k) {
            lemma_key_lt_asymmetric(e.key, k);
            lemma_rank_is(top.members, k, 1);
        } else {
            lemma_rank_is(top.members, k, 0);
        }
    }
}

} // verus!

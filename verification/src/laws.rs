//! What holds of every well-formed index, of its nodes and of its answers.

use crate::file::FileView;
use crate::key::{
    key_lt, lemma_key_lt_asymmetric, lemma_key_lt_irreflexive, lemma_key_lt_transitive,
};
use crate::node::{EntryView, NodeView, TreeNode};
use crate::page::encode_spec;
use crate::tree::{
    above, below, child_hi, child_lo, lemma_rank_is, members_sorted, members_within, min_members,
    put, rank, search_spec, subtree_ok, Bound, Store,
};
use vstd::prelude::*;

verus! {

/// Page `p` is the node `d` steps below `page`, along some path of children,
/// in a subtree of height `h`.
pub open spec fn at_depth(s: Store, page: int, h: nat, p: int, d: nat) -> bool
    decreases h,
{
    if d == 0 {
        p == page
    } else {
        h > 0 && 0 <= page < s.len() && s[page] is Some && exists|i: int|
            0 <= i < s[page].unwrap().children.len() && at_depth(
                s,
                (#[trigger] s[page].unwrap().children[i]) as int,
                (h - 1) as nat,
                p,
                (d - 1) as nat,
            )
    }
}

/// What holds of the node on page `p`, `d` steps below the head of a
/// well-formed subtree of height `h` between `lo` and `hi`.
pub open spec fn node_in_shape(
    n: NodeView,
    m: nat,
    h: nat,
    d: nat,
    lo: Bound,
    hi: Bound,
    least: nat,
) -> bool {
    &&& d <= h
    &&& members_sorted(n.members)
    &&& members_within(n.members, lo, hi)
    &&& n.members.len() <= m
    &&& d == 0 ==> least <= n.members.len()
    &&& d > 0 ==> min_members(m) <= n.members.len()
    &&& n.children.len() == 0 <==> d == h
    &&& n.children.len() != 0 ==> n.children.len() == n.members.len() + 1
}

/// The bounds of a child lie within the bounds of its parent.
pub proof fn lemma_child_bounds(ms: Seq<EntryView>, i: int, lo: Bound, hi: Bound, key: Seq<u8>)
    requires
        members_sorted(ms),
        members_within(ms, lo, hi),
        0 <= i <= ms.len(),
        above(child_lo(ms, i, lo), key),
        below(key, child_hi(ms, i, hi)),
    ensures
        above(lo, key),
        below(key, hi),
        rank(ms, key) == i,
        i < ms.len() ==> ms[i].key != key,
{
    if i > 0 {
        assert(above(lo, ms[i - 1].key));
        if lo is Some {
            lemma_key_lt_transitive(lo.unwrap(), ms[i - 1].key, key);
        }
    }
    if i < ms.len() {
        assert(below(ms[i].key, hi));
        if hi is Some {
            lemma_key_lt_transitive(key, ms[i].key, hi.unwrap());
        }
        lemma_key_lt_asymmetric(key, ms[i].key);
    }
    assert forall|j: int| 0 <= j < i implies key_lt(#[trigger] ms[j].key, key) by {
        if j < i - 1 {
            assert(key_lt(ms[j].key, ms[i - 1].key));
            lemma_key_lt_transitive(ms[j].key, ms[i - 1].key, key);
        }
    }
    lemma_rank_is(ms, key, i);
}

/// Every node of a well-formed subtree is in shape.
pub proof fn lemma_node_in_subtree(
    s: Store,
    m: nat,
    page: int,
    h: nat,
    lo: Bound,
    hi: Bound,
    least: nat,
    p: int,
    d: nat,
)
    requires
        subtree_ok(s, m, page, h, lo, hi, least),
        at_depth(s, page, h, p, d),
    ensures
        0 <= p < s.len(),
        s[p] is Some,
        node_in_shape(s[p].unwrap(), m, h, d, lo, hi, least),
    decreases h,
{
    let n = s[page].unwrap();
    if d > 0 {
        let i = choose|i: int|
            0 <= i < n.children.len() && at_depth(
                s,
                (#[trigger] n.children[i]) as int,
                (h - 1) as nat,
                p,
                (d - 1) as nat,
            );
        let clo = child_lo(n.members, i, lo);
        let chi = child_hi(n.members, i, hi);
        lemma_node_in_subtree(
            s,
            m,
            n.children[i] as int,
            (h - 1) as nat,
            clo,
            chi,
            min_members(m),
            p,
            (d - 1) as nat,
        );
        let q = s[p].unwrap();
        assert forall|j: int| 0 <= j < q.members.len() implies above(
            lo,
            #[trigger] q.members[j].key,
        ) && below(q.members[j].key, hi) by {
            lemma_child_bounds(n.members, i, lo, hi, q.members[j].key);
        }
    }
}

/// A search in a well-formed subtree meets no page that breaks the layout.
pub proof fn lemma_search_answers(
    s: Store,
    m: nat,
    page: int,
    h: nat,
    lo: Bound,
    hi: Bound,
    least: nat,
    key: Seq<u8>,
)
    requires
        subtree_ok(s, m, page, h, lo, hi, least),
    ensures
        search_spec(s, page, h, key) is Some,
    decreases h,
{
    let n = s[page].unwrap();
    let r = rank(n.members, key) as int;
    crate::tree::lemma_rank_props(n.members, key);
    if h > 0 && !(r < n.members.len() && n.members[r].key == key) {
        lemma_search_answers(
            s,
            m,
            n.children[r] as int,
            (h - 1) as nat,
            child_lo(n.members, r, lo),
            child_hi(n.members, r, hi),
            min_members(m),
            key,
        );
    }
}

/// A search in a well-formed subtree finds every entry of every node of the
/// subtree.
pub proof fn lemma_stored_is_found(
    s: Store,
    m: nat,
    page: int,
    h: nat,
    lo: Bound,
    hi: Bound,
    least: nat,
    p: int,
    d: nat,
    j: int,
)
    requires
        subtree_ok(s, m, page, h, lo, hi, least),
        at_depth(s, page, h, p, d),
        0 <= p < s.len() && s[p] is Some,
        0 <= j < s[p].unwrap().members.len(),
    ensures
        search_spec(s, page, h, s[p].unwrap().members[j].key) == Some(
            Some(s[p].unwrap().members[j].value),
        ),
    decreases h,
{
    let n = s[page].unwrap();
    let e = s[p].unwrap().members[j];
    if d == 0 {
        lemma_key_lt_irreflexive(e.key);
        assert forall|x: int| 0 <= x < j implies key_lt(#[trigger] n.members[x].key, e.key) by {
            assert(key_lt(n.members[x].key, n.members[j].key));
        }
        lemma_rank_is(n.members, e.key, j);
    } else {
        let i = choose|i: int|
            0 <= i < n.children.len() && at_depth(
                s,
                (#[trigger] n.children[i]) as int,
                (h - 1) as nat,
                p,
                (d - 1) as nat,
            );
        let clo = child_lo(n.members, i, lo);
        let chi = child_hi(n.members, i, hi);
        lemma_node_in_subtree(
            s,
            m,
            n.children[i] as int,
            (h - 1) as nat,
            clo,
            chi,
            min_members(m),
            p,
            (d - 1) as nat,
        );
        assert(above(clo, e.key) && below(e.key, chi));
        lemma_child_bounds(n.members, i, lo, hi, e.key);
        lemma_stored_is_found(
            s,
            m,
            n.children[i] as int,
            (h - 1) as nat,
            clo,
            chi,
            min_members(m),
            p,
            (d - 1) as nat,
            j,
        );
    }
}

/// What a search in a well-formed subtree finds is an entry of a node of the
/// subtree: the lemma gives the page of that node, its depth and the
/// position of the entry.
pub proof fn lemma_found_is_stored(
    s: Store,
    m: nat,
    page: int,
    h: nat,
    lo: Bound,
    hi: Bound,
    least: nat,
    key: Seq<u8>,
) -> (w: (int, nat, int))
    requires
        subtree_ok(s, m, page, h, lo, hi, least),
        search_spec(s, page, h, key) is Some,
        search_spec(s, page, h, key).unwrap() is Some,
    ensures
        at_depth(s, page, h, w.0, w.1),
        0 <= w.0 < s.len() && s[w.0] is Some,
        0 <= w.2 < s[w.0].unwrap().members.len(),
        s[w.0].unwrap().members[w.2].key == key,
        Some(Some(s[w.0].unwrap().members[w.2].value)) == search_spec(s, page, h, key),
    decreases h,
{
    let n = s[page].unwrap();
    let r = rank(n.members, key) as int;
    crate::tree::lemma_rank_props(n.members, key);
    if r < n.members.len() && n.members[r].key == key {
        (page, 0nat, r)
    } else {
        let below = lemma_found_is_stored(
            s,
            m,
            n.children[r] as int,
            (h - 1) as nat,
            child_lo(n.members, r, lo),
            child_hi(n.members, r, hi),
            min_members(m),
            key,
        );
        (below.0, below.1 + 1, below.2)
    }
}

impl FileView {
    /// Page `p` is the node `d` steps below the root.
    pub open spec fn reaches(self, p: int, d: nat) -> bool {
        at_depth(self.nodes(), self.root as int, self.height, p, d)
    }

    /// The node on page `p`.
    pub open spec fn node(self, p: int) -> NodeView {
        self.nodes()[p].unwrap()
    }
}

/// In a well-formed index every page that is reached from the root obeys the
/// layout.
pub proof fn lemma_nodes_readable(file: FileView, p: int, d: nat)
    requires
        file.wf(),
        file.reaches(p, d),
    ensures
        0 <= p < file.pages.len(),
        file.nodes()[p] is Some,
{
    lemma_node_in_subtree(
        file.nodes(),
        file.max_members,
        file.root as int,
        file.height,
        None,
        None,
        0,
        p,
        d,
    );
}

/// In a well-formed index the keys of every node are strictly ascending.
pub proof fn lemma_nodes_sorted(file: FileView, p: int, d: nat)
    requires
        file.wf(),
        file.reaches(p, d),
    ensures
        members_sorted(file.node(p).members),
{
    lemma_node_in_subtree(
        file.nodes(),
        file.max_members,
        file.root as int,
        file.height,
        None,
        None,
        0,
        p,
        d,
    );
}

/// In a well-formed index no node holds more entries than the fan-out, every
/// node but the root holds at least half the fan-out, rounded up, less one,
/// and every node that has children has one more than entries.
pub proof fn lemma_nodes_filled(file: FileView, p: int, d: nat)
    requires
        file.wf(),
        file.reaches(p, d),
    ensures
        file.node(p).members.len() <= file.max_members,
        d > 0 ==> min_members(file.max_members) <= file.node(p).members.len(),
        file.node(p).children.len() != 0 ==> file.node(p).children.len()
            == file.node(p).members.len() + 1,
{
    lemma_node_in_subtree(
        file.nodes(),
        file.max_members,
        file.root as int,
        file.height,
        None,
        None,
        0,
        p,
        d,
    );
}

/// In a well-formed index the leaves are the nodes `height` steps below the
/// root, and no node is deeper: all leaves are at the same depth.
pub proof fn lemma_leaves_level(file: FileView, p: int, d: nat)
    requires
        file.wf(),
        file.reaches(p, d),
    ensures
        d <= file.height,
        file.node(p).children.len() == 0 <==> d == file.height,
{
    lemma_node_in_subtree(
        file.nodes(),
        file.max_members,
        file.root as int,
        file.height,
        None,
        None,
        0,
        p,
        d,
    );
}

/// A search in a well-formed index gives an answer for every key.
pub proof fn lemma_lookup_answers(file: FileView, key: Seq<u8>)
    requires
        file.wf(),
    ensures
        file.lookup(key) is Some,
        file.lookup(key) == Some(
            if file.contents().contains_key(key) {
                Some(file.contents()[key])
            } else {
                None
            },
        ),
{
    lemma_search_answers(
        file.nodes(),
        file.max_members,
        file.root as int,
        file.height,
        None,
        None,
        0,
        key,
    );
}

/// The contents of a well-formed index are the entries of its nodes: every
/// entry of a node that is reached from the root is found under its key.
pub proof fn lemma_contents_hold_entries(file: FileView, p: int, d: nat, j: int)
    requires
        file.wf(),
        file.reaches(p, d),
        0 <= j < file.node(p).members.len(),
    ensures
        file.contents().contains_key(file.node(p).members[j].key),
        file.contents()[file.node(p).members[j].key] == file.node(p).members[j].value,
{
    lemma_nodes_readable(file, p, d);
    lemma_stored_is_found(
        file.nodes(),
        file.max_members,
        file.root as int,
        file.height,
        None,
        None,
        0,
        p,
        d,
        j,
    );
}

/// The contents of a well-formed index are the entries of its nodes: what is
/// found under a key is an entry of a node that is reached from the root.
pub proof fn lemma_contents_are_entries(file: FileView, key: Seq<u8>)
    requires
        file.wf(),
        file.contents().contains_key(key),
    ensures
        exists|p: int, d: nat, j: int|
            #![trigger file.reaches(p, d), file.node(p).members[j]]
            file.reaches(p, d) && 0 <= j < file.node(p).members.len() && file.node(p).members[j]
                == (EntryView { key, value: file.contents()[key] }),
{
    let w = lemma_found_is_stored(
        file.nodes(),
        file.max_members,
        file.root as int,
        file.height,
        None,
        None,
        0,
        key,
    );
    assert(file.reaches(w.0, w.1) && 0 <= w.2 < file.node(w.0).members.len()
        && file.node(w.0).members[w.2] == (EntryView { key, value: file.contents()[key] }));
}

/// After an insertion into a well-formed index a lookup of the inserted key
/// gives the inserted value, and a lookup of any other key gives what it
/// gave before.
pub proof fn lemma_lookup_after_insert(
    before: FileView,
    after: FileView,
    key: Seq<u8>,
    value: Seq<u8>,
    k: Seq<u8>,
)
    requires
        before.wf(),
        after.wf(),
        after.contents() == before.contents().insert(key, value),
    ensures
        after.lookup(k) == put(before.lookup(k), k, key, value),
{
    lemma_lookup_answers(before, k);
    lemma_lookup_answers(after, k);
}

/// The contents that a list of insertions leaves behind, made one after the
/// other on an empty index.
pub open spec fn replay(log: Seq<EntryView>) -> Map<Seq<u8>, Seq<u8>>
    decreases log.len(),
{
    if log.len() == 0 {
        Map::empty()
    } else {
        replay(log.drop_last()).insert(log.last().key, log.last().value)
    }
}

/// After a list of insertions a key holds the value of the last insertion
/// that named it, and a key that no insertion named is not there.
pub proof fn lemma_replay(log: Seq<EntryView>, k: Seq<u8>)
    ensures
        (forall|i: int| 0 <= i < log.len() ==> (#[trigger] log[i]).key != k)
            ==> !replay(log).contains_key(k),
        forall|i: int|
            0 <= i < log.len() && (#[trigger] log[i]).key == k && (forall|j: int|
                i < j < log.len() ==> (#[trigger] log[j]).key != k) ==> replay(log).contains_key(k)
                && replay(log)[k] == log[i].value,
    decreases log.len(),
{
    if log.len() > 0 {
        let front = log.drop_last();
        lemma_replay(front, k);
        assert forall|i: int|
            0 <= i < log.len() && (#[trigger] log[i]).key == k && (forall|j: int|
                i < j < log.len() ==> (#[trigger] log[j]).key != k) implies replay(log).contains_key(k) && replay(log)[k] == log[i].value by {
            if i < log.len() - 1 {
                assert(log[log.len() - 1].key != k);
                assert(front[i] == log[i]);
                assert forall|j: int| i < j < front.len() implies (#[trigger] front[j]).key
                    != k by {
                    assert(front[j] == log[j]);
                }
            }
        }
        if forall|i: int| 0 <= i < log.len() ==> (#[trigger] log[i]).key != k {
            assert(log[log.len() - 1].key != k);
            assert forall|i: int| 0 <= i < front.len() implies (#[trigger] front[i]).key != k by {
                assert(front[i] == log[i]);
            }
        }
    }
}

/// Two nodes that hold the same entries and children have the same page.
pub proof fn lemma_encode_same(a: TreeNode, b: TreeNode, capacity: nat)
    requires
        a@ == b@,
        a.max_members == b.max_members,
    ensures
        encode_spec(a@, a.max_members as nat, capacity) == encode_spec(
            b@,
            b.max_members as nat,
            capacity,
        ),
{
}

} // verus!

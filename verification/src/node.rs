//! One node of the tree as it lives in memory between reading and writing.

use crate::key::{
    compare_keys, key_lt, lemma_key_lt_asymmetric, lemma_key_lt_irreflexive, valid_text, KeyOrder,
};
use crate::members::{absent, left_half, right_half, with_entry, with_value};
use crate::tree::{lemma_rank_is, rank};
use vstd::prelude::*;

verus! {

/// An entry as a pair of byte strings.
pub ghost struct EntryView {
    pub key: Seq<u8>,
    pub value: Seq<u8>,
}

/// What a node holds: its entries in order, and the page numbers of its
/// children, none for a leaf.
pub ghost struct NodeView {
    pub members: Seq<EntryView>,
    pub children: Seq<u32>,
}

/// One entry of a node.
#[derive(Debug, Clone, PartialEq, Eq)]
pub struct TreeKey {
    pub key: Vec<u8>,
    pub value: Vec<u8>,
}

/// A node: the page it belongs to, the fan-out of its tree, its entries and
/// its children.
#[derive(Debug, Clone, PartialEq, Eq)]
pub struct TreeNode {
    pub index: u32,
    pub max_members: u32,
    pub members: Vec<TreeKey>,
    pub children: Vec<u32>,
}

impl View for TreeKey {
    type V = EntryView;

    open spec fn view(&self) -> EntryView {
        EntryView { key: self.key@, value: self.value@ }
    }
}

/// The entries of a vector, each by its view.
pub open spec fn entries_view(members: Seq<TreeKey>) -> Seq<EntryView> {
    Seq::new(members.len(), |i: int| members[i]@)
}

impl View for TreeNode {
    type V = NodeView;

    open spec fn view(&self) -> NodeView {
        NodeView { members: entries_view(self.members@), children: self.children@ }
    }
}

/// An entry whose key and value are both fit for a field of `capacity` bytes.
pub open spec fn entry_valid(e: EntryView, capacity: nat) -> bool {
    valid_text(e.key, capacity) && valid_text(e.value, capacity)
}

/// The shape that a page can hold: at most `max_members` entries, no children
/// or one more than entries, and every key and value fit for its field.
pub open spec fn node_valid(n: NodeView, max_members: nat, capacity: nat) -> bool {
    &&& n.members.len() <= max_members
    &&& (n.children.len() == 0 || n.children.len() == n.members.len() + 1)
    &&& forall|i: int| 0 <= i < n.members.len() ==> entry_valid(#[trigger] n.members[i], capacity)
}

impl TreeKey {
    /// An entry that owns copies of `key` and `value`.
    pub fn new(key: &[u8], value: &[u8]) -> (e: TreeKey)
        ensures
            e@ == (EntryView { key: key@, value: value@ }),
    {
        TreeKey { key: vstd::slice::slice_to_vec(key), value: vstd::slice::slice_to_vec(value) }
    }
}

impl TreeNode {
    /// An empty leaf for page `ix` of a tree with fan-out `max_members`.
    pub fn new(ix: u32, max_members: u32) -> (n: TreeNode)
        ensures
            n.index == ix,
            n.max_members == max_members,
            n@.members.len() == 0,
            n@.children.len() == 0,
    {
        TreeNode { index: ix, max_members, members: Vec::new(), children: Vec::new() }
    }

    /// Tells whether the node has no children.
    pub fn is_leaf(&self) -> (r: bool)
        ensures
            r == (self@.children.len() == 0),
    {
        self.children.len() == 0
    }

    /// Where `key` stands among the entries: the number of entries whose keys
    /// come before it, and whether the entry at that position has this key.
    pub fn position(&self, key: &[u8]) -> (r: (usize, bool))
        ensures
            r.0 == rank(self@.members, key@),
            r.0 <= self@.members.len(),
            r.1 == !absent(self@, key@),
    {
        let mut i: usize = 0;
        while i < self.members.len()
            invariant
                i <= self.members.len(),
                forall|j: int| 0 <= j < i ==> key_lt(#[trigger] self@.members[j].key, key@),
            decreases self.members.len() - i,
        {
            assert(self@.members[i as int] == self.members@[i as int]@);
            match compare_keys(self.members[i].key.as_slice(), key) {
                KeyOrder::Less => {
                    i = i + 1;
                },
                KeyOrder::Equal => {
                    proof {
                        lemma_key_lt_irreflexive(key@);
                        lemma_rank_is(self@.members, key@, i as int);
                    }
                    return (i, true);
                },
                KeyOrder::Greater => {
                    proof {
                        lemma_key_lt_asymmetric(key@, self@.members[i as int].key);
                        lemma_rank_is(self@.members, key@, i as int);
                    }
                    return (i, false);
                },
            }
        }
        proof {
            lemma_rank_is(self@.members, key@, i as int);
        }
        (i, false)
    }

    /// Puts `key` with `value` among the entries at its sorted position, or
    /// gives the entry that has this key the new value.
    pub fn insert(&mut self, key: &[u8], value: &[u8])
        ensures
            final(self).index == old(self).index,
            final(self).max_members == old(self).max_members,
            final(self)@ == if absent(old(self)@, key@) {
                with_entry(
                    old(self)@,
                    rank(old(self)@.members, key@) as int,
                    EntryView { key: key@, value: value@ },
                )
            } else {
                with_value(old(self)@, rank(old(self)@.members, key@) as int, value@)
            },
    {
        let (r, found) = self.position(key);
        let entry = TreeKey::new(key, value);
        if found {
            assert(self@.members[r as int] == self.members@[r as int]@);
            self.members.set(r, entry);
        } else {
            self.members.insert(r, entry);
        }
        assert(final(self)@.members =~= if found {
            with_value(old(self)@, r as int, value@).members
        } else {
            with_entry(old(self)@, r as int, EntryView { key: key@, value: value@ }).members
        });
    }

    /// Splits the node round its middle entry: the entries before it, with
    /// their children, stay; the middle entry is handed out; the entries after
    /// it, with their children, make a new node for page `index`.
    pub fn split(&mut self, index: u32) -> (r: (TreeKey, TreeNode))
        requires
            old(self)@.members.len() >= 1,
            old(self)@.children.len() == 0 || old(self)@.children.len() == old(self)@.members.len()
                + 1,
        ensures
            final(self).index == old(self).index,
            final(self).max_members == old(self).max_members,
            final(self)@ == left_half(old(self)@, old(self)@.members.len() as int / 2),
            r.0@ == old(self)@.members[old(self)@.members.len() as int / 2],
            r.1@ == right_half(old(self)@, old(self)@.members.len() as int / 2),
            r.1.index == index,
            r.1.max_members == old(self).max_members,
    {
        let mid: usize = self.members.len() / 2;
        let right_members = self.members.split_off(mid + 1);
        let promoted = self.members.pop().unwrap();
        let right_children = if self.children.len() == 0 {
            Vec::new()
        } else {
            self.children.split_off(mid + 1)
        };
        let right = TreeNode {
            index,
            max_members: self.max_members,
            members: right_members,
            children: right_children,
        };
        proof {
            let before = old(self)@;
            assert(final(self)@.members =~= left_half(before, mid as int).members);
            assert(final(self)@.children =~= left_half(before, mid as int).children);
            assert(right@.members =~= right_half(before, mid as int).members);
            assert(right@.children =~= right_half(before, mid as int).children);
        }
        (promoted, right)
    }
}

} // verus!

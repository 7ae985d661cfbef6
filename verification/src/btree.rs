//! The index itself: a file of pages that holds a B-tree, with insertion and
//! lookup.
//!
//! The file is kept in memory as its pages. An insertion reports which pages
//! it wrote, so that whoever keeps the file on disk writes those pages and the
//! header, and nothing else.

use crate::error::Error;
use crate::file::{
    lemma_recorded_step, lemma_recorded_then, listed, params_ok, recorded, untouched, FileView,
};
use crate::grow::{
    changed_within, inserted, inserted_split, lemma_child_split_pending, lemma_commit,
    lemma_commit_split, lemma_leaf_pending, lemma_level_kept, lemma_new_root,
    lemma_overwrite_pending, pending,
};
use crate::image::{flat, lemma_slot, parse_image, parse_image_file, HEADER_SIZE};
use crate::key::{fits, has_no_nul, lemma_key_lt_total, valid_text};
use crate::laws::lemma_lookup_answers;
use crate::members::{left_half, with_split_child};
use crate::node::{entry_valid, node_valid, EntryView, NodeView, TreeKey, TreeNode};
use crate::page::{encode_spec, push_u32, size_on_disk};
use crate::tree::{
    above, below, child_hi, child_lo, lemma_rank_props, min_members, put, rank, search_spec,
    subtree_ok, Bound,
};
use crate::wire::read_le_u32;
use vstd::prelude::*;
use vstd::slice::{slice_subrange, slice_to_vec};

verus! {

/// The fan-out of a tree made by `BTree::new`.
pub const DEFAULT_MAX_MEMBERS: u32 = 5;

/// The width of the key and value fields of a tree made by `BTree::new`.
pub const DEFAULT_CAPACITY: u32 = 4096;

/// An index: a B-tree in the pages of a file.
pub struct BTree {
    max_members: u32,
    capacity: u32,
    root: u32,
    height: u32,
    pages: Vec<Vec<u8>>,
}

/// What a node hands to its parent when it has split: the entry that goes up
/// and the page of the new node to its right.
struct Split {
    promoted: TreeKey,
    right: u32,
}

impl View for BTree {
    type V = Map<Seq<u8>, Seq<u8>>;

    open spec fn view(&self) -> Map<Seq<u8>, Seq<u8>> {
        self.file().contents()
    }
}

impl BTree {
    /// The file of this index.
    pub closed spec fn file(&self) -> FileView {
        FileView {
            max_members: self.max_members as nat,
            capacity: self.capacity as nat,
            root: self.root as nat,
            height: self.height as nat,
            pages: Seq::new(self.pages@.len(), |i: int| self.pages@[i]@),
        }
    }

    /// What holds of every index.
    pub open spec fn inv(&self) -> bool {
        self.file().inv()
    }

    /// The pages hold a B-tree.
    pub open spec fn wf(&self) -> bool {
        self.file().wf()
    }

    fn fresh(max_members: u32, capacity: u32) -> (t: BTree)
        requires
            params_ok(max_members as nat, capacity as nat),
        ensures
            t.wf(),
            t@ == Map::<Seq<u8>, Seq<u8>>::empty(),
            t.file() == (FileView {
                max_members: max_members as nat,
                capacity: capacity as nat,
                root: 0,
                height: 0,
                pages: seq![
                    encode_spec(
                        NodeView { members: Seq::empty(), children: Seq::empty() },
                        max_members as nat,
                        capacity as nat,
                    ),
                ],
            }),
    {
        let root = TreeNode::new(0, max_members);
        assert(root@.members =~= Seq::empty());
        assert(root@.children =~= Seq::empty());
        let page = root.encode(capacity);
        let mut pages: Vec<Vec<u8>> = Vec::new();
        pages.push(page);
        let t = BTree { max_members, capacity, root: 0, height: 0, pages };
        proof {
            assert(t.file().pages =~= seq![page@]);
            assert(t.file().nodes() =~= seq![Some(root@)]);
            assert forall|k: Seq<u8>| t.file().lookup(k) == Some(None::<Seq<u8>>) by {
                assert(rank(root@.members, k) == 0);
            }
            assert(t@ =~= Map::<Seq<u8>, Seq<u8>>::empty());
        }
        t
    }

    /// A new, empty index with the given fan-out and field width, or
    /// `InvalidParameters` where no index of that shape can be kept.
    pub fn create(max_members: u32, capacity: u32) -> (r: Result<BTree, Error>)
        ensures
            match r {
                Ok(t) => {
                    &&& params_ok(max_members as nat, capacity as nat)
                    &&& t.wf()
                    &&& t@ == Map::<Seq<u8>, Seq<u8>>::empty()
                    &&& t.file() == (FileView {
                        max_members: max_members as nat,
                        capacity: capacity as nat,
                        root: 0,
                        height: 0,
                        pages: seq![
                            encode_spec(
                                NodeView { members: Seq::empty(), children: Seq::empty() },
                                max_members as nat,
                                capacity as nat,
                            ),
                        ],
                    })
                },
                Err(e) => e == Error::InvalidParameters && !params_ok(
                    max_members as nat,
                    capacity as nat,
                ),
            },
    {
        if max_members == 0 || max_members >= u32::MAX - 1 {
            return Err(Error::InvalidParameters);
        }
        match size_on_disk(max_members, capacity) {
            Some(_) => Ok(BTree::fresh(max_members, capacity)),
            None => Err(Error::InvalidParameters),
        }
    }

    /// A new, empty index with fan-out 5 and fields of 4096 bytes.
    pub fn new() -> (t: BTree)
        ensures
            t.wf(),
            t@ == Map::<Seq<u8>, Seq<u8>>::empty(),
            t.file() == (FileView {
                max_members: DEFAULT_MAX_MEMBERS as nat,
                capacity: DEFAULT_CAPACITY as nat,
                root: 0,
                height: 0,
                pages: seq![
                    encode_spec(
                        NodeView { members: Seq::empty(), children: Seq::empty() },
                        DEFAULT_MAX_MEMBERS as nat,
                        DEFAULT_CAPACITY as nat,
                    ),
                ],
            }),
    {
        BTree::fresh(DEFAULT_MAX_MEMBERS, DEFAULT_CAPACITY)
    }

    /// The greatest number of entries of a node.
    pub fn max_members(&self) -> (r: u32)
        ensures
            r == self.file().max_members,
    {
        self.max_members
    }

    /// The width of a key field and of a value field.
    pub fn capacity(&self) -> (r: u32)
        ensures
            r == self.file().capacity,
    {
        self.capacity
    }

    /// The page of the root.
    pub fn root(&self) -> (r: u32)
        ensures
            r == self.file().root,
    {
        self.root
    }

    /// The number of steps from the root to a leaf.
    pub fn height(&self) -> (r: u32)
        ensures
            r == self.file().height,
    {
        self.height
    }

    /// The number of pages.
    pub fn page_count(&self) -> (r: usize)
        ensures
            r == self.file().pages.len(),
    {
        self.pages.len()
    }

    /// The node on page `page`, or `Corrupt` where there is no such page or
    /// the page breaks the layout.
    pub fn node(&self, page: u32) -> (r: Result<TreeNode, Error>)
        requires
            self.inv(),
        ensures
            match r {
                Ok(n) => {
                    &&& page < self.file().pages.len()
                    &&& self.file().nodes()[page as int] == Some(n@)
                    &&& n.index == page
                    &&& n.max_members == self.file().max_members
                    &&& node_valid(n@, self.file().max_members, self.file().capacity)
                },
                Err(e) => e == Error::Corrupt && !(page < self.file().pages.len()
                    && self.file().nodes()[page as int] is Some),
            },
    {
        if page as usize >= self.pages.len() {
            return Err(Error::Corrupt);
        }
        assert(self.file().pages[page as int] == self.pages@[page as int]@);
        TreeNode::decode(
            self.pages[page as usize].as_slice(),
            self.max_members,
            self.capacity,
            page,
        )
    }

    fn write(&mut self, page: u32, node: &TreeNode)
        requires
            old(self).inv(),
            page < old(self).file().pages.len(),
            node.max_members == old(self).max_members,
            node_valid(node@, old(self).file().max_members, old(self).file().capacity),
        ensures
            final(self).inv(),
            final(self).file() == (FileView {
                pages: old(self).file().pages.update(
                    page as int,
                    final(self).file().pages[page as int],
                ),
                ..old(self).file()
            }),
            final(self).file().nodes() == old(self).file().nodes().update(page as int, Some(node@)),
    {
        let bytes = node.encode(self.capacity);
        self.pages.set(page as usize, bytes);
        proof {
            assert(final(self).file().pages =~= old(self).file().pages.update(page as int, bytes@));
            assert(final(self).file().nodes() =~= old(self).file().nodes().update(
                page as int,
                Some(node@),
            ));
        }
    }

    fn append(&mut self, node: &TreeNode) -> (page: u32)
        requires
            old(self).inv(),
            old(self).file().pages.len() < u32::MAX,
            node.max_members == old(self).max_members,
            node_valid(node@, old(self).file().max_members, old(self).file().capacity),
        ensures
            final(self).inv(),
            page == old(self).file().pages.len(),
            final(self).file() == (FileView {
                pages: old(self).file().pages.push(final(self).file().pages[page as int]),
                ..old(self).file()
            }),
            final(self).file().nodes() == old(self).file().nodes().push(Some(node@)),
    {
        let page: u32 = self.pages.len() as u32;
        let bytes = node.encode(self.capacity);
        self.pages.push(bytes);
        proof {
            assert(final(self).file().pages =~= old(self).file().pages.push(bytes@));
            assert(final(self).file().nodes() =~= old(self).file().nodes().push(Some(node@)));
        }
        page
    }

    /// The value that the index holds for `key`, if it holds one; `Corrupt`
    /// where the search meets a page that breaks the layout, or a node with
    /// children where the header says the leaves are. In a well-formed index
    /// the search meets neither.
    pub fn get(&self, key: &[u8]) -> (r: Result<Option<Vec<u8>>, Error>)
        requires
            self.inv(),
        ensures
            match self.file().lookup(key@) {
                None => r == Err::<Option<Vec<u8>>, Error>(Error::Corrupt),
                Some(None) => r == Ok::<Option<Vec<u8>>, Error>(None),
                Some(Some(v)) => r is Ok && r.unwrap() is Some && r.unwrap().unwrap()@ == v,
            },
            self.wf() ==> r is Ok && match r.unwrap() {
                Some(v) => self@.contains_key(key@) && self@[key@] == v@,
                None => !self@.contains_key(key@),
            },
    {
        proof {
            if self.wf() {
                lemma_lookup_answers(self.file(), key@);
            }
        }
        self.search(key)
    }

    /// The search from the root: at each node the entry with this key ends
    /// it; a leaf without one ends it with nothing; and else it goes on in the
    /// child between the neighbouring keys.
    fn search(&self, key: &[u8]) -> (r: Result<Option<Vec<u8>>, Error>)
        requires
            self.inv(),
        ensures
            match self.file().lookup(key@) {
                None => r == Err::<Option<Vec<u8>>, Error>(Error::Corrupt),
                Some(None) => r == Ok::<Option<Vec<u8>>, Error>(None),
                Some(Some(v)) => r is Ok && r.unwrap() is Some && r.unwrap().unwrap()@ == v,
            },
    {
        let mut page: u32 = self.root;
        let mut h: u32 = self.height;
        loop
            invariant
                self.inv(),
                search_spec(self.file().nodes(), page as int, h as nat, key@) == self.file().lookup(
                    key@,
                ),
            decreases h,
        {
            let node = match self.node(page) {
                Ok(node) => node,
                Err(e) => {
                    return Err(e);
                },
            };
            let (r, found) = node.position(key);
            if found {
                assert(node@.members[r as int] == node.members@[r as int]@);
                return Ok(Some(vstd::slice::slice_to_vec(node.members[r].value.as_slice())));
            }
            if node.is_leaf() {
                return Ok(None);
            }
            if h == 0 {
                return Err(Error::Corrupt);
            }
            page = node.children[r];
            h = h - 1;
        }
    }

    fn write_logged(&mut self, page: u32, node: &TreeNode, written: &mut Vec<u32>)
        requires
            old(self).inv(),
            page < old(self).file().pages.len(),
            node.max_members == old(self).max_members,
            node_valid(node@, old(self).file().max_members, old(self).file().capacity),
        ensures
            final(self).inv(),
            final(self).file().max_members == old(self).file().max_members,
            final(self).file().capacity == old(self).file().capacity,
            final(self).file().root == old(self).file().root,
            final(self).file().height == old(self).file().height,
            final(self).file().pages.len() == old(self).file().pages.len(),
            final(self).file().nodes() == old(self).file().nodes().update(page as int, Some(node@)),
            recorded(
                old(self).file().pages,
                final(self).file().pages,
                old(written)@,
                final(written)@,
            ),
    {
        self.write(page, node);
        written.push(page);
        proof {
            lemma_recorded_step(
                old(self).file().pages,
                final(self).file().pages,
                old(written)@,
                page,
            );
        }
    }

    fn append_logged(&mut self, node: &TreeNode, written: &mut Vec<u32>) -> (page: u32)
        requires
            old(self).inv(),
            old(self).file().pages.len() < u32::MAX,
            node.max_members == old(self).max_members,
            node_valid(node@, old(self).file().max_members, old(self).file().capacity),
        ensures
            final(self).inv(),
            page == old(self).file().pages.len(),
            final(self).file().max_members == old(self).file().max_members,
            final(self).file().capacity == old(self).file().capacity,
            final(self).file().root == old(self).file().root,
            final(self).file().height == old(self).file().height,
            final(self).file().pages.len() == old(self).file().pages.len() + 1,
            final(self).file().nodes() == old(self).file().nodes().push(Some(node@)),
            recorded(
                old(self).file().pages,
                final(self).file().pages,
                old(written)@,
                final(written)@,
            ),
    {
        let page = self.append(node);
        written.push(page);
        proof {
            lemma_recorded_step(
                old(self).file().pages,
                final(self).file().pages,
                old(written)@,
                page,
            );
        }
        page
    }

    #[verifier::rlimit(80)]
    #[verifier::spinoff_prover]
    fn insert_into(
        &mut self,
        page: u32,
        height: u32,
        key: &[u8],
        value: &[u8],
        written: &mut Vec<u32>,
        Ghost(lo): Ghost<Bound>,
        Ghost(hi): Ghost<Bound>,
        Ghost(least): Ghost<nat>,
    ) -> (r: Result<Option<Split>, Error>)
        requires
            old(self).inv(),
            valid_text(key@, old(self).file().capacity),
            valid_text(value@, old(self).file().capacity),
            old(self).file().pages.len() + height + 1 < u32::MAX,
        ensures
            final(self).inv(),
            final(self).file().max_members == old(self).file().max_members,
            final(self).file().capacity == old(self).file().capacity,
            final(self).file().root == old(self).file().root,
            final(self).file().height == old(self).file().height,
            final(self).file().pages.len() <= old(self).file().pages.len() + height + 1,
            recorded(
                old(self).file().pages,
                final(self).file().pages,
                old(written)@,
                final(written)@,
            ),
            match r {
                Err(e) => {
                    &&& e == Error::Corrupt
                    &&& *final(self) == *old(self)
                    &&& final(written)@ == old(written)@
                    &&& !subtree_ok(
                        old(self).file().nodes(),
                        old(self).file().max_members,
                        page as int,
                        height as nat,
                        lo,
                        hi,
                        least,
                    )
                },
                Ok(None) => subtree_ok(
                    old(self).file().nodes(),
                    old(self).file().max_members,
                    page as int,
                    height as nat,
                    lo,
                    hi,
                    least,
                ) && above(lo, key@) && below(key@, hi) ==> inserted(
                    old(self).file().nodes(),
                    final(self).file().nodes(),
                    old(self).file().max_members,
                    page as int,
                    height as nat,
                    lo,
                    hi,
                    least,
                    key@,
                    value@,
                ) && changed_within(
                    old(self).file().nodes(),
                    final(self).file().nodes(),
                    page as int,
                    height as nat,
                ),
                Ok(Some(sp)) => {
                    &&& entry_valid(sp.promoted@, old(self).file().capacity)
                    &&& sp.right < final(self).file().pages.len()
                    &&& subtree_ok(
                        old(self).file().nodes(),
                        old(self).file().max_members,
                        page as int,
                        height as nat,
                        lo,
                        hi,
                        least,
                    ) && above(lo, key@) && below(key@, hi) ==> inserted_split(
                        old(self).file().nodes(),
                        final(self).file().nodes(),
                        old(self).file().max_members,
                        page as int,
                        sp.right as int,
                        sp.promoted@,
                        height as nat,
                        lo,
                        hi,
                        key@,
                        value@,
                    ) && changed_within(
                        old(self).file().nodes(),
                        final(self).file().nodes(),
                        page as int,
                        height as nat,
                    )
                },
            },
        decreases height,
    {
        let ghost s = self.file().nodes();
        let ghost m = self.max_members as nat;
        let ghost k = self.capacity as nat;
        let ghost h = height as nat;
        let ghost pages0 = self.file().pages;
        let ghost ok = subtree_ok(s, m, page as int, h, lo, hi, least) && above(lo, key@) && below(
            key@,
            hi,
        );
        let ghost entry = EntryView { key: key@, value: value@ };
        let mut node = match self.node(page) {
            Ok(node) => node,
            Err(e) => {
                return Err(e);
            },
        };
        let ghost n0 = node@;
        let (r, found) = node.position(key);
        if found {
            node.insert(key, value);
            proof {
                assert forall|i: int| 0 <= i < node@.members.len() implies entry_valid(
                    #[trigger] node@.members[i],
                    k,
                ) by {
                    if i != r {
                        assert(node@.members[i] == n0.members[i]);
                    }
                }
            }
            self.write_logged(page, &node, written);
            proof {
                if ok {
                    lemma_overwrite_pending(s, m, page as int, h, lo, hi, least, key@, value@);
                    lemma_commit(s, s, m, node@, page as int, h, lo, hi, least, key@, value@);
                }
            }
            return Ok(None);
        }
        if node.is_leaf() {
            if height != 0 {
                return Err(Error::Corrupt);
            }
            node.insert(key, value);
            proof {
                if ok {
                    lemma_leaf_pending(s, m, page as int, lo, hi, least, entry);
                }
            }
        } else {
            if height == 0 {
                return Err(Error::Corrupt);
            }
            let child = node.children[r];
            let ghost clo = child_lo(n0.members, r as int, lo);
            let ghost chi = child_hi(n0.members, r as int, hi);
            proof {
                lemma_rank_props(n0.members, key@);
                if r < n0.members.len() {
                    lemma_key_lt_total(n0.members[r as int].key, key@);
                }
                if ok {
                    assert(n0.children[r as int] == child);
                    assert(subtree_ok(
                        s,
                        m,
                        child as int,
                        (h - 1) as nat,
                        clo,
                        chi,
                        min_members(m),
                    ));
                }
            }
            match self.insert_into(
                child,
                height - 1,
                key,
                value,
                written,
                Ghost(clo),
                Ghost(chi),
                Ghost(min_members(m)),
            ) {
                Err(e) => {
                    proof {
                        assert(n0.children[r as int] == child);
                    }
                    return Err(e);
                },
                Ok(None) => {
                    proof {
                        if ok {
                            lemma_level_kept(
                                s,
                                self.file().nodes(),
                                m,
                                page as int,
                                h,
                                lo,
                                hi,
                                least,
                                key@,
                                value@,
                            );
                        }
                    }
                    return Ok(None);
                },
                Ok(Some(sp)) => {
                    let Split { promoted, right } = sp;
                    let ghost up = promoted@;
                    node.members.insert(r, promoted);
                    node.children.insert(r + 1, right);
                    proof {
                        assert(node@.members =~= with_split_child(n0, r as int, up, right).members);
                        assert(node@ == with_split_child(n0, r as int, up, right));
                        if ok {
                            lemma_child_split_pending(
                                s,
                                self.file().nodes(),
                                m,
                                page as int,
                                h,
                                lo,
                                hi,
                                least,
                                right,
                                up,
                                key@,
                                value@,
                            );
                        }
                    }
                },
            }
        }
        let ghost t = self.file().nodes();
        let ghost pages1 = self.file().pages;
        let ghost written1 = written@;
        let ghost n2 = node@;
        proof {
            assert(ok ==> pending(s, t, m, n2, page as int, h, lo, hi, key@, value@));
            assert forall|i: int| 0 <= i < n2.members.len() implies entry_valid(
                #[trigger] n2.members[i],
                k,
            ) by {
                if i < r {
                    assert(n2.members[i] == n0.members[i]);
                } else if i > r {
                    assert(n2.members[i] == n0.members[i - 1]);
                }
            }
        }
        if node.members.len() <= self.max_members as usize {
            self.write_logged(page, &node, written);
            proof {
                lemma_recorded_then(
                    pages0,
                    pages1,
                    self.file().pages,
                    old(written)@,
                    written1,
                    written@,
                );
                if ok {
                    lemma_commit(s, t, m, n2, page as int, h, lo, hi, least, key@, value@);
                }
            }
            Ok(None)
        } else {
            let next: u32 = self.pages.len() as u32;
            let (promoted, right) = node.split(next);
            proof {
                let mid = (m + 1) as int / 2;
                assert(node@ == left_half(n2, mid));
                assert forall|i: int| 0 <= i < node@.members.len() implies entry_valid(
                    #[trigger] node@.members[i],
                    k,
                ) by {
                    assert(node@.members[i] == n2.members[i]);
                }
                assert forall|i: int| 0 <= i < right@.members.len() implies entry_valid(
                    #[trigger] right@.members[i],
                    k,
                ) by {
                    assert(right@.members[i] == n2.members[mid + 1 + i]);
                }
            }
            let right_page = self.append_logged(&right, written);
            let ghost pages2 = self.file().pages;
            let ghost written2 = written@;
            self.write_logged(page, &node, written);
            proof {
                lemma_recorded_then(pages0, pages1, pages2, old(written)@, written1, written2);
                lemma_recorded_then(
                    pages0,
                    pages2,
                    self.file().pages,
                    old(written)@,
                    written2,
                    written@,
                );
                if ok {
                    lemma_commit_split(s, t, m, n2, page as int, h, lo, hi, key@, value@);
                }
            }
            Ok(Some(Split { promoted, right: right_page }))
        }
    }

    /// Gives `key` the value `value`: a new entry in the leaf where the key
    /// belongs, or a new value for the entry that has the key. A node that
    /// would hold one entry more than the fan-out allows is split round its
    /// middle entry, which goes up to the parent; when the root splits, a new
    /// root takes its place and the tree grows by one level.
    ///
    /// Returns the pages that were written, each new page among them. The
    /// tree grows by one level at most, and then the new root is the last
    /// page. On an error nothing has changed.
    pub fn insert(&mut self, key: &[u8], value: &[u8]) -> (r: Result<Vec<u32>, Error>)
        requires
            old(self).inv(),
        ensures
            final(self).inv(),
            final(self).file().max_members == old(self).file().max_members,
            final(self).file().capacity == old(self).file().capacity,
            match r {
                Ok(written) => {
                    &&& old(self).file().refusal(key@, value@) is None
                    &&& old(self).file().pages.len() <= final(self).file().pages.len()
                    &&& {
                        ||| final(self).file().root == old(self).file().root
                            && final(self).file().height == old(self).file().height
                        ||| final(self).file().root == final(self).file().pages.len() - 1
                            && final(self).file().height == old(self).file().height + 1
                    }
                    &&& untouched(old(self).file().pages, final(self).file().pages, written@)
                    &&& forall|i: int|
                        0 <= i < written@.len() ==> (#[trigger] written@[i])
                            < final(self).file().pages.len()
                    &&& old(self).wf() ==> final(self).wf() && final(self)@ == old(self)@.insert(
                        key@,
                        value@,
                    )
                },
                Err(e) => {
                    &&& *final(self) == *old(self)
                    &&& match old(self).file().refusal(key@, value@) {
                        Some(x) => e == x,
                        None => e == Error::Corrupt && !old(self).wf(),
                    }
                },
            },
    {
        if !fits(key, self.capacity) {
            return Err(Error::KeyTooLong);
        }
        if !fits(value, self.capacity) {
            return Err(Error::ValueTooLong);
        }
        if !has_no_nul(key) {
            return Err(Error::NulInKey);
        }
        if !has_no_nul(value) {
            return Err(Error::NulInValue);
        }
        if self.pages.len() as u64 + self.height as u64 + 2 > u32::MAX as u64 {
            return Err(Error::Full);
        }
        let ghost s = self.file().nodes();
        let ghost m = self.max_members as nat;
        let ghost before = self.file();
        let mut written: Vec<u32> = Vec::new();
        let root: u32 = self.root;
        let height: u32 = self.height;
        let split = match self.insert_into(
            root,
            height,
            key,
            value,
            &mut written,
            Ghost(None),
            Ghost(None),
            Ghost(0),
        ) {
            Err(e) => {
                return Err(e);
            },
            Ok(split) => split,
        };
        let ghost t = self.file().nodes();
        let ghost pages1 = self.file().pages;
        let ghost written1 = written@;
        match split {
            None => {},
            Some(sp) => {
                let Split { promoted, right } = sp;
                let ghost up = promoted@;
                let next: u32 = self.pages.len() as u32;
                let mut top = TreeNode::new(next, self.max_members);
                top.members.push(promoted);
                top.children.push(root);
                top.children.push(right);
                proof {
                    assert(top@.members =~= seq![up]);
                    assert(top@.children =~= seq![root, right]);
                    assert(top@ == (NodeView { members: seq![up], children: seq![root, right] }));
                }
                let page = self.append_logged(&top, &mut written);
                self.root = page;
                self.height = height + 1;
                proof {
                    lemma_recorded_then(
                        before.pages,
                        pages1,
                        self.file().pages,
                        Seq::empty(),
                        written1,
                        written@,
                    );
                    if before.wf() {
                        lemma_new_root(s, t, m, root, right, up, height as nat, key@, value@);
                    }
                }
            },
        }
        proof {
            assert forall|p: int| !listed(Seq::<u32>::empty(), p) by {}
            assert forall|i: int| 0 <= i < written@.len() implies (#[trigger] written@[i])
                < self.file().pages.len() by {
                assert(listed(written@, written@[i] as int));
            }
            assert(before.refusal(key@, value@) is None);
            assert(recorded(before.pages, self.file().pages, Seq::empty(), written@));
            assert(untouched(before.pages, self.file().pages, written@));
            if before.wf() {
                assert(self.wf());
                assert forall|q: Seq<u8>|
                    self.file().lookup(q) == put(before.lookup(q), q, key@, value@) by {}
                assert(self@ =~= before.contents().insert(key@, value@));
            }
        }
        Ok(written)
    }

    /// The header of the file.
    pub fn header(&self) -> (r: Vec<u8>)
        requires
            self.inv(),
        ensures
            r@ == self.file().header(),
            r@.len() == HEADER_SIZE,
    {
        let mut out: Vec<u8> = Vec::new();
        push_u32(&mut out, self.max_members);
        push_u32(&mut out, self.capacity);
        push_u32(&mut out, self.root);
        push_u32(&mut out, self.height);
        push_u32(&mut out, self.pages.len() as u32);
        out
    }

    /// The bytes of page `index`, if there is such a page.
    pub fn page(&self, index: u32) -> (r: Option<&Vec<u8>>)
        ensures
            match r {
                Some(bytes) => index < self.file().pages.len() && bytes@
                    == self.file().pages[index as int],
                None => index >= self.file().pages.len(),
            },
    {
        if (index as usize) < self.pages.len() {
            Some(&self.pages[index as usize])
        } else {
            None
        }
    }

    /// Where page `index` starts in the file, if a 64-bit offset can say so.
    pub fn page_offset(&self, index: u32) -> (r: Option<u64>)
        requires
            self.inv(),
        ensures
            match r {
                Some(at) => at == self.file().page_offset(index as int),
                None => self.file().page_offset(index as int) > u64::MAX,
            },
    {
        let size = match size_on_disk(self.max_members, self.capacity) {
            Some(size) => size,
            None => {
                return None;
            },
        };
        assert(index as u128 * size as u128 <= 0xffff_ffff * 0xffff_ffff_ffff_ffff)
            by (nonlinear_arith)
            requires
                index <= 0xffff_ffff,
                size <= 0xffff_ffff_ffff_ffff,
        ;
        let at: u128 = HEADER_SIZE as u128 + index as u128 * size as u128;
        if at <= u64::MAX as u128 {
            Some(at as u64)
        } else {
            None
        }
    }

    /// The whole file: the header, then the pages in order.
    pub fn image(&self) -> (r: Vec<u8>)
        requires
            self.inv(),
        ensures
            r@ == self.file().image(),
    {
        let mut out = self.header();
        let mut i: usize = 0;
        while i < self.pages.len()
            invariant
                i <= self.pages.len(),
                out@ == self.file().header() + flat(self.file().pages, i as nat),
            decreases self.pages.len() - i,
        {
            let page = &self.pages[i];
            let ghost before = out@;
            let mut j: usize = 0;
            while j < page.len()
                invariant
                    j <= page.len(),
                    out@ == before + page@.subrange(0, j as int),
                decreases page.len() - j,
            {
                out.push(page[j]);
                assert(out@ =~= before + page@.subrange(0, j + 1));
                j = j + 1;
            }
            assert(page@.subrange(0, j as int) =~= page@);
            assert(self.file().pages[i as int] == page@);
            assert(out@ =~= self.file().header() + flat(self.file().pages, (i + 1) as nat));
            i = i + 1;
        }
        out
    }

    /// The index that a file holds, or `Corrupt` where the bytes are not the
    /// image of one: see `parse_image`.
    pub fn open(image: &[u8]) -> (r: Result<BTree, Error>)
        ensures
            match parse_image(image@) {
                Some(file) => r is Ok && r.unwrap().file() == file && r.unwrap().inv(),
                None => r is Err && r->Err_0 == Error::Corrupt,
            },
    {
        let len: usize = image.len();
        if len < HEADER_SIZE {
            return Err(Error::Corrupt);
        }
        let max_members = read_le_u32(slice_subrange(image, 0, 4));
        let capacity = read_le_u32(slice_subrange(image, 4, 8));
        let root = read_le_u32(slice_subrange(image, 8, 12));
        let height = read_le_u32(slice_subrange(image, 12, 16));
        let count = read_le_u32(slice_subrange(image, 16, 20));
        if max_members == 0 || max_members >= u32::MAX - 1 {
            return Err(Error::Corrupt);
        }
        let size = match size_on_disk(max_members, capacity) {
            Some(size) => size,
            None => {
                return Err(Error::Corrupt);
            },
        };
        if count == 0 || root >= count {
            return Err(Error::Corrupt);
        }
        assert(count as u128 * size as u128 <= 0xffff_ffff * 0xffff_ffff_ffff_ffff)
            by (nonlinear_arith)
            requires
                count <= 0xffff_ffff,
                size <= 0xffff_ffff_ffff_ffff,
        ;
        if len as u128 != HEADER_SIZE as u128 + count as u128 * size as u128 {
            return Err(Error::Corrupt);
        }
        let ghost file = parse_image_file(image@);
        let mut pages: Vec<Vec<u8>> = Vec::new();
        let mut i: u32 = 0;
        let mut at: usize = HEADER_SIZE;
        while i < count
            invariant
                i <= count,
                at == HEADER_SIZE + i * size,
                image@.len() == HEADER_SIZE + count * size,
                image@.len() == len,
                pages@.len() == i,
                forall|j: int| 0 <= j < i ==> (#[trigger] pages@[j])@.len() == size,
                forall|j: int|
                    0 <= j < i ==> (#[trigger] pages@[j])@ == image@.subrange(
                        HEADER_SIZE + j * size,
                        HEADER_SIZE + j * size + size,
                    ),
            decreases count - i,
        {
            proof {
                lemma_slot(i as int, count as int, size as int);
            }
            pages.push(slice_to_vec(slice_subrange(image, at, at + size)));
            at = at + size;
            i = i + 1;
        }
        let tree = BTree { max_members, capacity, root, height, pages };
        proof {
            assert(tree.file().pages =~= file.pages);
            assert(tree.file() == file);
        }
        match tree.node(root) {
            Ok(_) => Ok(tree),
            Err(_) => Err(Error::Corrupt),
        }
    }
}

} // verus!

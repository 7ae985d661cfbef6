//! The file of an index as a value: its shape, its pages, and what holds of
//! them.

use crate::error::Error;
use crate::image::{flat, HEADER_SIZE};
use crate::key::valid_text;
use crate::page::{decode_spec, page_size};
use crate::tree::{search_spec, subtree_ok, Answer, Store};
use crate::wire::le_bytes;
use vstd::prelude::*;

verus! {

/// The file of an index: its shape, where its root is, how high its tree is,
/// and its pages.
pub ghost struct FileView {
    pub max_members: nat,
    pub capacity: nat,
    pub root: nat,
    pub height: nat,
    pub pages: Seq<Seq<u8>>,
}

/// Whether a tree of this fan-out and field width can be kept: the fan-out is
/// at least one, a node with one entry too many can still count its children
/// in 32 bits, the width fits in 32 bits, and the machine can address a page.
pub open spec fn params_ok(max_members: nat, capacity: nat) -> bool {
    &&& 1 <= max_members < u32::MAX - 1
    &&& capacity <= u32::MAX
    &&& page_size(max_members, capacity) <= usize::MAX
}

/// Every page that is not listed in `written` was there before and is as it
/// was.
pub open spec fn untouched(before: Seq<Seq<u8>>, after: Seq<Seq<u8>>, written: Seq<u32>) -> bool {
    forall|p: int|
        0 <= p < after.len() && !#[trigger] listed(written, p) ==> p < before.len() && after[p]
            == before[p]
}

/// Page `p` is in the list.
pub open spec fn listed(written: Seq<u32>, p: int) -> bool {
    exists|i: int| 0 <= i < written.len() && #[trigger] written[i] == p
}

/// Between `before` and `after` pages were written, or added at the end, and
/// every one of them was put on the list, which was `w0` and is now `w1`.
pub open spec fn recorded(
    before: Seq<Seq<u8>>,
    after: Seq<Seq<u8>>,
    w0: Seq<u32>,
    w1: Seq<u32>,
) -> bool {
    &&& before.len() <= after.len()
    &&& forall|p: int| #[trigger] listed(w0, p) ==> listed(w1, p)
    &&& forall|p: int| #[trigger] listed(w1, p) && !listed(w0, p) ==> 0 <= p < after.len()
    &&& untouched(before, after, w1)
}

/// One page written, or added at the end, and put on the list.
pub proof fn lemma_recorded_step(
    before: Seq<Seq<u8>>,
    after: Seq<Seq<u8>>,
    w: Seq<u32>,
    page: u32,
)
    requires
        page < after.len(),
        before.len() <= after.len() <= before.len() + 1,
        forall|p: int| 0 <= p < before.len() && p != page ==> #[trigger] after[p] == before[p],
        after.len() > before.len() ==> page == before.len(),
    ensures
        recorded(before, after, w, w.push(page)),
{
    let w1 = w.push(page);
    assert(w1[w.len() as int] == page);
    assert forall|p: int| #[trigger] listed(w, p) implies listed(w1, p) by {
        let i = choose|i: int| 0 <= i < w.len() && #[trigger] w[i] == p;
        assert(w1[i] == p);
    }
    assert forall|p: int| #[trigger] listed(w1, p) && !listed(w, p) implies 0 <= p
        < after.len() by {
        let i = choose|i: int| 0 <= i < w1.len() && #[trigger] w1[i] == p;
        if i < w.len() {
            assert(w[i] == p);
        }
    }
}

/// What was recorded in two stretches was recorded in the two together.
pub proof fn lemma_recorded_then(
    a: Seq<Seq<u8>>,
    b: Seq<Seq<u8>>,
    c: Seq<Seq<u8>>,
    w0: Seq<u32>,
    w1: Seq<u32>,
    w2: Seq<u32>,
)
    requires
        recorded(a, b, w0, w1),
        recorded(b, c, w1, w2),
    ensures
        recorded(a, c, w0, w2),
{
    assert forall|p: int| #[trigger] listed(w0, p) implies listed(w2, p) by {
        assert(listed(w1, p));
    }
    assert forall|p: int| #[trigger] listed(w2, p) && !listed(w0, p) implies 0 <= p < c.len() by {
        if listed(w1, p) {
            assert(0 <= p < b.len());
        }
    }
    assert forall|p: int| 0 <= p < c.len() && !#[trigger] listed(w2, p) implies p < a.len() && c[p]
        == a[p] by {
        assert(!listed(w1, p));
        assert(c[p] == b[p]);
        assert(b[p] == a[p]);
    }
}

impl FileView {
    /// The pages, each as the node it stands for.
    pub open spec fn nodes(self) -> Store {
        Seq::new(
            self.pages.len(),
            |i: int| decode_spec(self.pages[i], self.max_members, self.capacity),
        )
    }

    /// What holds of every index, whatever its pages hold: the shape is one
    /// that can be kept, every page has the size of a page, the pages can be
    /// numbered in 32 bits, and the root is one of them.
    pub open spec fn inv(self) -> bool {
        &&& params_ok(self.max_members, self.capacity)
        &&& 1 <= self.pages.len() <= u32::MAX
        &&& self.root < self.pages.len()
        &&& self.height <= u32::MAX
        &&& forall|i: int|
            0 <= i < self.pages.len() ==> (#[trigger] self.pages[i]).len() == page_size(
                self.max_members,
                self.capacity,
            )
    }

    /// The pages hold a B-tree: from the root, every node is in order, within
    /// the bounds that its ancestors set, filled as the fan-out asks, and all
    /// leaves are `height` steps below the root.
    pub open spec fn wf(self) -> bool {
        &&& self.inv()
        &&& subtree_ok(self.nodes(), self.max_members, self.root as int, self.height, None, None, 0)
    }

    /// What a search from the root answers.
    pub open spec fn lookup(self, key: Seq<u8>) -> Answer {
        search_spec(self.nodes(), self.root as int, self.height, key)
    }

    /// The keys that a search finds, each with the value it finds.
    pub open spec fn contents(self) -> Map<Seq<u8>, Seq<u8>> {
        Map::new(
            |k: Seq<u8>| self.lookup(k) is Some && self.lookup(k).unwrap() is Some,
            |k: Seq<u8>| self.lookup(k).unwrap().unwrap(),
        )
    }

    /// The header: the fan-out, the field width, the page of the root, the
    /// height of the tree and the number of pages, each as a little-endian
    /// 32-bit number.
    pub open spec fn header(self) -> Seq<u8> {
        le_bytes(self.max_members as u32) + le_bytes(self.capacity as u32) + le_bytes(
            self.root as u32,
        ) + le_bytes(self.height as u32) + le_bytes(self.pages.len() as u32)
    }

    /// Where page `i` starts in the image.
    pub open spec fn page_offset(self, i: int) -> int {
        HEADER_SIZE + i * page_size(self.max_members, self.capacity)
    }

    /// The file as it lies on disk: the header, then the pages in order.
    pub open spec fn image(self) -> Seq<u8> {
        self.header() + flat(self.pages, self.pages.len())
    }

    /// Whether an insertion may need more page numbers than are left.
    pub open spec fn no_room(self) -> bool {
        self.pages.len() + self.height + 2 > u32::MAX
    }

    /// The error that an insertion of this key and value gives before it looks
    /// at any page, if it gives one.
    pub open spec fn refusal(self, key: Seq<u8>, value: Seq<u8>) -> Option<Error> {
        if key.len() > self.capacity {
            Some(Error::KeyTooLong)
        } else if value.len() > self.capacity {
            Some(Error::ValueTooLong)
        } else if !valid_text(key, self.capacity) {
            Some(Error::NulInKey)
        } else if !valid_text(value, self.capacity) {
            Some(Error::NulInValue)
        } else if self.no_room() {
            Some(Error::Full)
        } else {
            None
        }
    }
}

} // verus!

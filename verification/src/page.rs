//! The page layout: how a node becomes a block of bytes and comes back.
//!
//! A page of a tree with fan-out `M` and field width `K` holds, in this order:
//! the number of children and the number of entries, each as a little-endian
//! `u32`; `M + 1` slots of four bytes for the children's page numbers; and `M`
//! slots of `2 * K` bytes, a key field and a value field each. Unused slots and
//! the unused tail of a field are zero.

use crate::error::Error;
use crate::key::valid_text;
use crate::node::{entry_valid, node_valid, EntryView, NodeView, TreeKey, TreeNode};
use crate::wire::{le_bytes, le_u32, lemma_le_round_trip, read_le_u32, write_le_u32};
use vstd::prelude::*;
use vstd::slice::slice_subrange;

verus! {

/// The number of bytes of a page.
pub open spec fn page_size(max_members: nat, capacity: nat) -> nat {
    8 + 4 * (max_members + 1) + 2 * capacity * max_members
}

/// Where the slot of child `c` starts.
pub open spec fn child_offset(c: int) -> int {
    8 + 4 * c
}

/// Where the slot of entry `e` starts.
pub open spec fn entry_offset(max_members: nat, capacity: nat, e: int) -> int {
    8 + 4 * (max_members + 1) + e * (2 * capacity)
}

/// `count` zero bytes.
pub open spec fn zeros(count: nat) -> Seq<u8> {
    Seq::new(count, |i: int| 0u8)
}

/// A field of `capacity` bytes that holds `s` at its start and zeros after it.
pub open spec fn padded(s: Seq<u8>, capacity: nat) -> Seq<u8> {
    Seq::new(capacity, |i: int| if i < s.len() { s[i] } else { 0u8 })
}

/// The four bytes of child slot `c`.
pub open spec fn child_slot(children: Seq<u32>, c: int) -> Seq<u8> {
    if 0 <= c < children.len() {
        le_bytes(children[c])
    } else {
        zeros(4)
    }
}

/// The bytes of entry slot `e`: the key field, then the value field.
pub open spec fn entry_slot(members: Seq<EntryView>, capacity: nat, e: int) -> Seq<u8> {
    if 0 <= e < members.len() {
        padded(members[e].key, capacity) + padded(members[e].value, capacity)
    } else {
        zeros(2 * capacity)
    }
}

/// The first `slots` child slots, one after the other.
pub open spec fn children_bytes(children: Seq<u32>, slots: nat) -> Seq<u8>
    decreases slots,
{
    if slots == 0 {
        Seq::empty()
    } else {
        children_bytes(children, (slots - 1) as nat) + child_slot(children, slots - 1)
    }
}

/// The first `slots` entry slots, one after the other.
pub open spec fn entries_bytes(members: Seq<EntryView>, capacity: nat, slots: nat) -> Seq<u8>
    decreases slots,
{
    if slots == 0 {
        Seq::empty()
    } else {
        entries_bytes(members, capacity, (slots - 1) as nat) + entry_slot(
            members,
            capacity,
            slots - 1,
        )
    }
}

/// The page that stands for node `n`.
pub open spec fn encode_spec(n: NodeView, max_members: nat, capacity: nat) -> Seq<u8> {
    le_bytes(n.children.len() as u32) + le_bytes(n.members.len() as u32) + children_bytes(
        n.children,
        max_members + 1,
    ) + entries_bytes(n.members, capacity, max_members)
}

/// The length of a field's content: the field without its trailing zeros.
pub open spec fn content_len(field: Seq<u8>) -> nat
    decreases field.len(),
{
    if field.len() > 0 && field.last() == 0 {
        content_len(field.drop_last())
    } else {
        field.len()
    }
}

/// A field's content.
pub open spec fn trimmed(field: Seq<u8>) -> Seq<u8> {
    field.subrange(0, content_len(field) as int)
}

/// A field holds valid content when no zero byte stands before its last
/// non-zero byte.
pub open spec fn field_ok(field: Seq<u8>) -> bool {
    forall|i: int| 0 <= i < content_len(field) ==> field[i] != 0
}

/// The count at the start of the page: the number of children.
pub open spec fn stored_children(page: Seq<u8>) -> int {
    le_u32(page.subrange(0, 4))
}

/// The second count of the page: the number of entries.
pub open spec fn stored_members(page: Seq<u8>) -> int {
    le_u32(page.subrange(4, 8))
}

/// The page number in child slot `c`.
pub open spec fn stored_child(page: Seq<u8>, c: int) -> u32 {
    le_u32(page.subrange(child_offset(c), child_offset(c) + 4)) as u32
}

/// The key field of entry slot `e`.
pub open spec fn key_field(page: Seq<u8>, max_members: nat, capacity: nat, e: int) -> Seq<u8> {
    page.subrange(
        entry_offset(max_members, capacity, e),
        entry_offset(max_members, capacity, e) + capacity,
    )
}

/// The value field of entry slot `e`.
pub open spec fn value_field(page: Seq<u8>, max_members: nat, capacity: nat, e: int) -> Seq<u8> {
    page.subrange(
        entry_offset(max_members, capacity, e) + capacity,
        entry_offset(max_members, capacity, e) + 2 * capacity,
    )
}

/// Whether the page obeys the layout: it has the right size, its counts fit
/// the fan-out and each other, and every used field holds valid content.
pub open spec fn page_ok(page: Seq<u8>, max_members: nat, capacity: nat) -> bool {
    &&& page.len() == page_size(max_members, capacity)
    &&& stored_members(page) <= max_members
    &&& (stored_children(page) == 0 || stored_children(page) == stored_members(page) + 1)
    &&& forall|e: int|
        0 <= e < stored_members(page) ==> field_ok(
            #[trigger] key_field(page, max_members, capacity, e),
        ) && field_ok(value_field(page, max_members, capacity, e))
}

/// The node that a page stands for, if the page obeys the layout.
pub open spec fn decode_spec(page: Seq<u8>, max_members: nat, capacity: nat) -> Option<NodeView> {
    if page_ok(page, max_members, capacity) {
        Some(
            NodeView {
                members: Seq::new(
                    stored_members(page) as nat,
                    |e: int|
                        EntryView {
                            key: trimmed(key_field(page, max_members, capacity, e)),
                            value: trimmed(value_field(page, max_members, capacity, e)),
                        },
                ),
                children: Seq::new(stored_children(page) as nat, |c: int| stored_child(page, c)),
            },
        )
    } else {
        None
    }
}

/// A node that a page of this shape can hold and whose counts fit in the
/// page's 32-bit counters.
pub open spec fn encodable(n: NodeView, max_members: nat, capacity: nat) -> bool {
    &&& node_valid(n, max_members, capacity)
    &&& max_members < u32::MAX
}

/// The entry slots follow the child slots, each two fields wide, and the
/// last one ends where the page ends.
pub proof fn lemma_entry_offsets(max_members: nat, capacity: nat, e: int)
    requires
        0 <= e < max_members,
    ensures
        entry_offset(max_members, capacity, e) >= 8 + 4 * (max_members + 1),
        entry_offset(max_members, capacity, e + 1) == entry_offset(max_members, capacity, e) + 2
            * capacity,
        entry_offset(max_members, capacity, e + 1) <= page_size(max_members, capacity),
        entry_offset(max_members, capacity, max_members as int) == page_size(
            max_members,
            capacity,
        ),
{
    assert((e + 1) * (2 * capacity) == e * (2 * capacity) + 2 * capacity) by (nonlinear_arith);
    assert((e + 1) * (2 * capacity) <= max_members * (2 * capacity)) by (nonlinear_arith)
        requires
            e + 1 <= max_members,
    ;
    assert(e * (2 * capacity) >= 0) by (nonlinear_arith)
        requires
            e >= 0,
    ;
    assert(max_members * (2 * capacity) == 2 * capacity * max_members) by (nonlinear_arith);
}

/// The child slots have four bytes each, and slot `c` holds `child_slot(c)`.
pub proof fn lemma_children_bytes(children: Seq<u32>, slots: nat, c: int)
    requires
        0 <= c < slots,
    ensures
        children_bytes(children, slots).len() == 4 * slots,
        children_bytes(children, slots).subrange(4 * c, 4 * c + 4) == child_slot(children, c),
    decreases slots,
{
    lemma_children_len(children, slots);
    lemma_children_len(children, (slots - 1) as nat);
    let prev = children_bytes(children, (slots - 1) as nat);
    let last = child_slot(children, slots - 1);
    if c == slots - 1 {
        assert((prev + last).subrange(4 * c, 4 * c + 4) =~= last);
    } else {
        lemma_children_bytes(children, (slots - 1) as nat, c);
        assert((prev + last).subrange(4 * c, 4 * c + 4) =~= prev.subrange(4 * c, 4 * c + 4));
    }
}

/// The child slots have four bytes each.
pub proof fn lemma_children_len(children: Seq<u32>, slots: nat)
    ensures
        children_bytes(children, slots).len() == 4 * slots,
    decreases slots,
{
    if slots > 0 {
        lemma_children_len(children, (slots - 1) as nat);
    }
}

/// The entry slots have `2 * capacity` bytes each.
pub proof fn lemma_entries_len(members: Seq<EntryView>, capacity: nat, slots: nat)
    ensures
        entries_bytes(members, capacity, slots).len() == slots * (2 * capacity),
    decreases slots,
{
    if slots > 0 {
        lemma_entries_len(members, capacity, (slots - 1) as nat);
        assert(slots * (2 * capacity) == (slots - 1) * (2 * capacity) + 2 * capacity)
            by (nonlinear_arith);
    } else {
        assert(0 * (2 * capacity) == 0) by (nonlinear_arith);
    }
}

/// The entry slots have `2 * capacity` bytes each, and slot `e` holds
/// `entry_slot(e)`.
pub proof fn lemma_entries_bytes(members: Seq<EntryView>, capacity: nat, slots: nat, e: int)
    requires
        0 <= e < slots,
    ensures
        entries_bytes(members, capacity, slots).len() == slots * (2 * capacity),
        e * (2 * capacity) + 2 * capacity <= slots * (2 * capacity),
        entries_bytes(members, capacity, slots).subrange(
            e * (2 * capacity),
            e * (2 * capacity) + 2 * capacity,
        ) == entry_slot(members, capacity, e),
    decreases slots,
{
    lemma_entries_len(members, capacity, slots);
    lemma_entries_len(members, capacity, (slots - 1) as nat);
    let prev = entries_bytes(members, capacity, (slots - 1) as nat);
    let last = entry_slot(members, capacity, slots - 1);
    let w = 2 * capacity;
    assert(slots * w == (slots - 1) * w + w) by (nonlinear_arith);
    if e == slots - 1 {
        assert((prev + last).subrange(e * w, e * w + w) =~= last);
    } else {
        lemma_entries_bytes(members, capacity, (slots - 1) as nat, e);
        assert((prev + last).subrange(e * w, e * w + w) =~= prev.subrange(e * w, e * w + w));
    }
}

/// The content of a field ends where its zeros begin.
pub proof fn lemma_content_len(field: Seq<u8>, n: int)
    requires
        0 <= n <= field.len(),
        forall|i: int| n <= i < field.len() ==> field[i] == 0,
        n == 0 || field[n - 1] != 0,
    ensures
        content_len(field) == n,
    decreases field.len(),
{
    if field.len() > n {
        lemma_content_len(field.drop_last(), n);
    }
}

/// The content of a field is no longer than the field.
pub proof fn lemma_content_len_bound(field: Seq<u8>)
    ensures
        content_len(field) <= field.len(),
    decreases field.len(),
{
    if field.len() > 0 && field.last() == 0 {
        lemma_content_len_bound(field.drop_last());
    }
}

/// The node that a page stands for has the shape that a page can hold.
pub proof fn lemma_decoded_valid(page: Seq<u8>, max_members: nat, capacity: nat)
    requires
        decode_spec(page, max_members, capacity) is Some,
    ensures
        node_valid(decode_spec(page, max_members, capacity).unwrap(), max_members, capacity),
{
    let n = decode_spec(page, max_members, capacity).unwrap();
    assert forall|e: int| 0 <= e < n.members.len() implies entry_valid(
        #[trigger] n.members[e],
        capacity,
    ) by {
        let kf = key_field(page, max_members, capacity, e);
        let vf = value_field(page, max_members, capacity, e);
        lemma_entry_offsets(max_members, capacity, e);
        lemma_content_len_bound(kf);
        lemma_content_len_bound(vf);
        assert(field_ok(kf) && field_ok(vf));
    }
}

/// A padded field gives back the content that was put in it.
pub proof fn lemma_padded_round_trip(s: Seq<u8>, capacity: nat)
    requires
        valid_text(s, capacity),
    ensures
        field_ok(padded(s, capacity)),
        trimmed(padded(s, capacity)) == s,
{
    lemma_content_len(padded(s, capacity), s.len() as int);
    assert(trimmed(padded(s, capacity)) =~= s);
}


/// Decoding the page of a node gives the node back.
pub proof fn lemma_round_trip(n: NodeView, max_members: nat, capacity: nat)
    requires
        encodable(n, max_members, capacity),
    ensures
        encode_spec(n, max_members, capacity).len() == page_size(max_members, capacity),
        decode_spec(encode_spec(n, max_members, capacity), max_members, capacity) == Some(n),
{
    let page = encode_spec(n, max_members, capacity);
    let head = le_bytes(n.children.len() as u32) + le_bytes(n.members.len() as u32);
    let kids = children_bytes(n.children, max_members + 1);
    let ents = entries_bytes(n.members, capacity, max_members);
    lemma_children_len(n.children, max_members + 1);
    lemma_entries_len(n.members, capacity, max_members);
    assert(max_members * (2 * capacity) == 2 * capacity * max_members) by (nonlinear_arith);
    assert(page.len() == page_size(max_members, capacity));
    lemma_le_round_trip(n.children.len() as u32);
    lemma_le_round_trip(n.members.len() as u32);
    assert(page.subrange(0, 4) =~= le_bytes(n.children.len() as u32));
    assert(page.subrange(4, 8) =~= le_bytes(n.members.len() as u32));
    assert(stored_children(page) == n.children.len());
    assert(stored_members(page) == n.members.len());
    assert forall|c: int| 0 <= c < n.children.len() implies stored_child(page, c)
        == n.children[c] by {
        lemma_children_bytes(n.children, max_members + 1, c);
        assert(page.subrange(child_offset(c), child_offset(c) + 4) =~= kids.subrange(
            4 * c,
            4 * c + 4,
        ));
        lemma_le_round_trip(n.children[c]);
    }
    assert forall|e: int| 0 <= e < n.members.len() implies field_ok(
        #[trigger] key_field(page, max_members, capacity, e),
    ) && field_ok(value_field(page, max_members, capacity, e)) && trimmed(
        key_field(page, max_members, capacity, e),
    ) == n.members[e].key && trimmed(value_field(page, max_members, capacity, e))
        == n.members[e].value by {
        lemma_entries_bytes(n.members, capacity, max_members, e);
        lemma_entry_offsets(max_members, capacity, e);
        let w = 2 * capacity;
        let slot = ents.subrange(e * w, e * w + w);
        assert(key_field(page, max_members, capacity, e) =~= slot.subrange(0, capacity as int));
        assert(value_field(page, max_members, capacity, e) =~= slot.subrange(
            capacity as int,
            w as int,
        ));
        assert(slot.subrange(0, capacity as int) =~= padded(n.members[e].key, capacity));
        assert(slot.subrange(capacity as int, w as int) =~= padded(
            n.members[e].value,
            capacity,
        ));
        lemma_padded_round_trip(n.members[e].key, capacity);
        lemma_padded_round_trip(n.members[e].value, capacity);
    }
    let d = decode_spec(page, max_members, capacity);
    assert(page_ok(page, max_members, capacity));
    assert(d.unwrap().members =~= n.members);
    assert(d.unwrap().children =~= n.children);
}

/// The size of a page, where the machine can address one.
pub fn size_on_disk(max_members: u32, capacity: u32) -> (size: Option<usize>)
    ensures
        match size {
            Some(s) => s == page_size(max_members as nat, capacity as nat),
            None => page_size(max_members as nat, capacity as nat) > usize::MAX,
        },
{
    let m: u128 = max_members as u128;
    let k: u128 = capacity as u128;
    assert(2 * k * m <= 2 * 0xffff_ffff * 0xffff_ffff) by (nonlinear_arith)
        requires
            k <= 0xffff_ffff,
            m <= 0xffff_ffff,
    ;
    let size: u128 = 8 + 4 * (m + 1) + 2 * k * m;
    if size <= usize::MAX as u128 {
        Some(size as usize)
    } else {
        None
    }
}

/// Appends the four bytes of `n`, least significant byte first.
pub fn push_u32(out: &mut Vec<u8>, n: u32)
    ensures
        final(out)@ == old(out)@ + le_bytes(n),
{
    let b = write_le_u32(n);
    out.push(b[0]);
    out.push(b[1]);
    out.push(b[2]);
    out.push(b[3]);
    assert(out@ =~= old(out)@ + le_bytes(n));
}

fn push_zeros(out: &mut Vec<u8>, count: usize)
    ensures
        final(out)@ == old(out)@ + zeros(count as nat),
{
    let mut i: usize = 0;
    while i < count
        invariant
            i <= count,
            out@ =~= old(out)@ + zeros(i as nat),
        decreases count - i,
    {
        out.push(0u8);
        i = i + 1;
    }
}

fn push_field(out: &mut Vec<u8>, s: &[u8], capacity: u32)
    requires
        s@.len() <= capacity,
    ensures
        final(out)@ == old(out)@ + padded(s@, capacity as nat),
{
    let mut i: usize = 0;
    while i < s.len()
        invariant
            i <= s.len(),
            out@ =~= old(out)@ + s@.subrange(0, i as int),
        decreases s.len() - i,
    {
        out.push(s[i]);
        i = i + 1;
    }
    push_zeros(out, capacity as usize - s.len());
    assert(out@ =~= old(out)@ + padded(s@, capacity as nat));
}

/// Appends the slot of one entry: its key field, then its value field.
pub fn encode_member(out: &mut Vec<u8>, m: &TreeKey, capacity: u32)
    requires
        m@.key.len() <= capacity,
        m@.value.len() <= capacity,
    ensures
        final(out)@ == old(out)@ + padded(m@.key, capacity as nat) + padded(
            m@.value,
            capacity as nat,
        ),
{
    push_field(out, m.key.as_slice(), capacity);
    push_field(out, m.value.as_slice(), capacity);
}

fn decode_field(field: &[u8]) -> (r: Option<Vec<u8>>)
    ensures
        match r {
            Some(v) => field_ok(field@) && v@ == trimmed(field@),
            None => !field_ok(field@),
        },
{
    let mut n: usize = field.len();
    while n > 0 && field[n - 1] == 0
        invariant
            n <= field.len(),
            forall|i: int| n <= i < field@.len() ==> field@[i] == 0,
        decreases n,
    {
        n = n - 1;
    }
    proof {
        lemma_content_len(field@, n as int);
    }
    let mut out: Vec<u8> = Vec::new();
    let mut i: usize = 0;
    while i < n
        invariant
            i <= n,
            n <= field.len(),
            n == content_len(field@),
            out@ =~= field@.subrange(0, i as int),
            forall|j: int| 0 <= j < i ==> field@[j] != 0,
        decreases n - i,
    {
        if field[i] == 0 {
            return None;
        }
        out.push(field[i]);
        i = i + 1;
    }
    Some(out)
}

impl TreeKey {
    /// Tells whether the key and the value are both fit for a field of
    /// `capacity` bytes.
    pub fn fits_field(&self, capacity: u32) -> (r: bool)
        ensures
            r == entry_valid(self@, capacity as nat),
    {
        crate::key::fits(self.key.as_slice(), capacity) && crate::key::has_no_nul(
            self.key.as_slice(),
        ) && crate::key::fits(self.value.as_slice(), capacity) && crate::key::has_no_nul(
            self.value.as_slice(),
        )
    }
}

impl TreeNode {
    /// Tells whether a page of a tree with this node's fan-out and fields of
    /// `capacity` bytes can hold the node.
    pub fn fits_page(&self, capacity: u32) -> (r: bool)
        ensures
            r == encodable(self@, self.max_members as nat, capacity as nat),
    {
        if self.max_members == u32::MAX || self.members.len() > self.max_members as usize {
            return false;
        }
        if self.children.len() != 0 && self.children.len() != self.members.len() + 1 {
            return false;
        }
        let mut i: usize = 0;
        while i < self.members.len()
            invariant
                i <= self.members.len(),
                forall|j: int|
                    0 <= j < i ==> entry_valid(#[trigger] self@.members[j], capacity as nat),
            decreases self.members.len() - i,
        {
            let m = &self.members[i];
            assert(self@.members[i as int] == m@);
            if !m.fits_field(capacity) {
                assert(!entry_valid(self@.members[i as int], capacity as nat));
                return false;
            }
            i = i + 1;
        }
        true
    }

    /// The page that stands for this node.
    pub fn encode(&self, capacity: u32) -> (page: Vec<u8>)
        requires
            encodable(self@, self.max_members as nat, capacity as nat),
        ensures
            page@ == encode_spec(self@, self.max_members as nat, capacity as nat),
            page@.len() == page_size(self.max_members as nat, capacity as nat),
            decode_spec(page@, self.max_members as nat, capacity as nat) == Some(self@),
    {
        let ghost mm = self.max_members as nat;
        let ghost k = capacity as nat;
        let mut page: Vec<u8> = Vec::new();
        push_u32(&mut page, self.children.len() as u32);
        push_u32(&mut page, self.members.len() as u32);
        let ghost head = page@;
        let slots: usize = self.max_members as usize + 1;
        let mut c: usize = 0;
        while c < slots
            invariant
                c <= slots,
                page@ == head + children_bytes(self.children@, c as nat),
            decreases slots - c,
        {
            if c < self.children.len() {
                push_u32(&mut page, self.children[c]);
            } else {
                push_zeros(&mut page, 4);
            }
            assert(page@ =~= head + children_bytes(self.children@, (c + 1) as nat));
            c = c + 1;
        }
        let ghost front = page@;
        let mut e: usize = 0;
        while e < self.max_members as usize
            invariant
                e <= self.max_members,
                k == capacity,
                encodable(self@, self.max_members as nat, k),
                page@ == front + entries_bytes(self@.members, k, e as nat),
            decreases self.max_members - e,
        {
            if e < self.members.len() {
                assert(self@.members[e as int] == self.members@[e as int]@);
                encode_member(&mut page, &self.members[e], capacity);
                assert(page@ =~= front + entries_bytes(self@.members, k, (e + 1) as nat));
            } else {
                push_zeros(&mut page, capacity as usize);
                push_zeros(&mut page, capacity as usize);
                assert(zeros(k) + zeros(k) =~= zeros(2 * k));
                assert(page@ =~= front + entries_bytes(self@.members, k, (e + 1) as nat));
            }
            e = e + 1;
        }
        proof {
            lemma_round_trip(self@, mm, k);
        }
        page
    }

    /// The node that a page stands for, or `Corrupt` where the page breaks the
    /// layout's rules.
    pub fn decode(page: &[u8], max_members: u32, capacity: u32, index: u32) -> (r: Result<
        TreeNode,
        Error,
    >)
        ensures
            match decode_spec(page@, max_members as nat, capacity as nat) {
                Some(n) => r is Ok && r.unwrap()@ == n && r.unwrap().index == index
                    && r.unwrap().max_members == max_members && node_valid(
                    n,
                    max_members as nat,
                    capacity as nat,
                ),
                None => r == Err::<TreeNode, Error>(Error::Corrupt),
            },
    {
        let ghost mm = max_members as nat;
        let ghost k = capacity as nat;
        let len: usize = page.len();
        let size = match size_on_disk(max_members, capacity) {
            Some(s) => s,
            None => {
                return Err(Error::Corrupt);
            },
        };
        if len != size {
            return Err(Error::Corrupt);
        }
        let nc = read_le_u32(slice_subrange(page, 0, 4));
        let nm = read_le_u32(slice_subrange(page, 4, 8));
        if nm > max_members {
            return Err(Error::Corrupt);
        }
        if nc != 0 && nc as u64 != nm as u64 + 1 {
            return Err(Error::Corrupt);
        }
        let mut children: Vec<u32> = Vec::new();
        let mut c: usize = 0;
        while c < nc as usize
            invariant
                c <= nc,
                nc <= max_members + 1,
                mm == max_members,
                k == capacity,
                page@.len() == page_size(mm, k),
                page@.len() <= usize::MAX,
                children@.len() == c,
                forall|j: int| 0 <= j < c ==> children@[j] == stored_child(page@, j),
            decreases nc - c,
        {
            let off: usize = 8 + 4 * c;
            let child = read_le_u32(slice_subrange(page, off, off + 4));
            children.push(child);
            c = c + 1;
        }
        let mut members: Vec<TreeKey> = Vec::new();
        let mut e: usize = 0;
        let mut pos: usize = 8 + 4 * (max_members as usize + 1);
        while e < nm as usize
            invariant
                e <= nm,
                nm <= max_members,
                nm == stored_members(page@),
                nc == stored_children(page@),
                nc == 0 || nc == nm + 1,
                mm == max_members,
                k == capacity,
                page@.len() == page_size(mm, k),
                page@.len() <= usize::MAX,
                pos == entry_offset(mm, k, e as int),
                members@.len() == e,
                forall|j: int|
                    0 <= j < e ==> field_ok(#[trigger] key_field(page@, mm, k, j)) && field_ok(
                        value_field(page@, mm, k, j),
                    ),
                forall|j: int|
                    0 <= j < e ==> (#[trigger] members@[j])@ == (EntryView {
                        key: trimmed(key_field(page@, mm, k, j)),
                        value: trimmed(value_field(page@, mm, k, j)),
                    }),
            decreases nm - e,
        {
            proof {
                lemma_entry_offsets(mm, k, e as int);
            }
            let width: usize = capacity as usize;
            let key = match decode_field(slice_subrange(page, pos, pos + width)) {
                Some(key) => key,
                None => {
                    assert(!field_ok(key_field(page@, mm, k, e as int)));
                    return Err(Error::Corrupt);
                },
            };
            let value = match decode_field(slice_subrange(page, pos + width, pos + width + width)) {
                Some(value) => value,
                None => {
                    assert(field_ok(key_field(page@, mm, k, e as int)));
                    assert(!field_ok(value_field(page@, mm, k, e as int)));
                    return Err(Error::Corrupt);
                },
            };
            let entry = TreeKey { key, value };
            assert(entry@ == (EntryView {
                key: trimmed(key_field(page@, mm, k, e as int)),
                value: trimmed(value_field(page@, mm, k, e as int)),
            }));
            members.push(entry);
            pos = pos + width + width;
            e = e + 1;
        }
        let node = TreeNode { index, max_members, members, children };
        proof {
            assert(page@.len() == page_size(mm, k));
            assert(stored_members(page@) <= mm);
            assert(stored_children(page@) == 0 || stored_children(page@) == stored_members(page@)
                + 1);
            assert forall|j: int| 0 <= j < stored_members(page@) implies field_ok(
                #[trigger] key_field(page@, mm, k, j),
            ) && field_ok(value_field(page@, mm, k, j)) by {}
            assert(page_ok(page@, mm, k));
            let d = decode_spec(page@, mm, k).unwrap();
            assert(node@.members =~= d.members);
            assert(node@.children =~= d.children);
            lemma_decoded_valid(page@, mm, k);
        }
        Ok(node)
    }
}

} // verus!

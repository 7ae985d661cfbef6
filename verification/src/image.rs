//! The file as it lies on disk: a header of five numbers, then the pages in
//! order.

use crate::file::{params_ok, FileView};
use crate::page::page_size;
use crate::wire::{le_bytes, le_u32, lemma_le_round_trip};
use vstd::prelude::*;

verus! {

/// The number of bytes of the header that stands before the pages.
pub const HEADER_SIZE: usize = 20;

/// The first `n` pages, one after the other.
pub open spec fn flat(pages: Seq<Seq<u8>>, n: nat) -> Seq<u8>
    decreases n,
{
    if n == 0 {
        Seq::empty()
    } else {
        flat(pages, (n - 1) as nat) + pages[n - 1]
    }
}

/// The number that stands at `at` in the header.
pub open spec fn header_field(img: Seq<u8>, at: int) -> nat {
    le_u32(img.subrange(at, at + 4)) as nat
}

/// The file that an image holds, if it holds one: a header that names a
/// shape that can be kept, at least one page, a root among the pages, and a
/// length that is the header's and the pages' together; and a root page that
/// obeys the layout.
pub open spec fn parse_image(img: Seq<u8>) -> Option<FileView> {
    if img.len() < HEADER_SIZE {
        None
    } else {
        let max_members = header_field(img, 0);
        let capacity = header_field(img, 4);
        let root = header_field(img, 8);
        let height = header_field(img, 12);
        let count = header_field(img, 16);
        let size = page_size(max_members, capacity);
        let file = FileView {
            max_members,
            capacity,
            root,
            height,
            pages: Seq::new(
                count,
                |i: int| img.subrange(HEADER_SIZE + i * size, HEADER_SIZE + i * size + size),
            ),
        };
        if params_ok(max_members, capacity) && 1 <= count && root < count && img.len()
            == HEADER_SIZE + count * size && file.nodes()[root as int] is Some {
            Some(file)
        } else {
            None
        }
    }
}

/// Slot `i` of `n` slots of `w` bytes each ends where slot `i + 1` starts,
/// and within the slots.
pub proof fn lemma_slot(i: int, n: int, w: int)
    requires
        0 <= i < n,
        0 <= w,
    ensures
        0 <= i * w,
        (i + 1) * w == i * w + w,
        (i + 1) * w <= n * w,
{
    assert(0 <= i * w) by (nonlinear_arith)
        requires
            0 <= i,
            0 <= w,
    ;
    assert((i + 1) * w == i * w + w) by (nonlinear_arith);
    assert((i + 1) * w <= n * w) by (nonlinear_arith)
        requires
            i + 1 <= n,
            0 <= w,
    ;
}

/// Pages of one size, laid one after the other, each lie at their number
/// times that size.
pub proof fn lemma_flat(pages: Seq<Seq<u8>>, n: nat, size: nat, i: int)
    requires
        n <= pages.len(),
        forall|j: int| 0 <= j < n ==> (#[trigger] pages[j]).len() == size,
        0 <= i < n,
    ensures
        flat(pages, n).len() == n * size,
        0 <= i * size,
        i * size + size <= n * size,
        flat(pages, n).subrange(i * size, i * size + size) == pages[i],
    decreases n,
{
    lemma_flat_len(pages, n, size);
    lemma_flat_len(pages, (n - 1) as nat, size);
    lemma_slot(i, n as int, size as int);
    lemma_slot(n - 1, n as int, size as int);
    let prev = flat(pages, (n - 1) as nat);
    if i == n - 1 {
        assert((prev + pages[n - 1]).subrange(i * size, i * size + size) =~= pages[i]);
    } else {
        lemma_flat(pages, (n - 1) as nat, size, i);
        assert((prev + pages[n - 1]).subrange(i * size, i * size + size) =~= prev.subrange(
            i * size,
            i * size + size,
        ));
    }
}

/// Pages of one size, laid one after the other, are as long as their number
/// times that size.
pub proof fn lemma_flat_len(pages: Seq<Seq<u8>>, n: nat, size: nat)
    requires
        n <= pages.len(),
        forall|j: int| 0 <= j < n ==> (#[trigger] pages[j]).len() == size,
    ensures
        flat(pages, n).len() == n * size,
    decreases n,
{
    if n > 0 {
        lemma_flat_len(pages, (n - 1) as nat, size);
        lemma_slot(n - 1, n as int, size as int);
    } else {
        assert(0 * size == 0) by (nonlinear_arith);
    }
}

/// The file that the header of an image names, its pages cut from the image.
pub open spec fn parse_image_file(img: Seq<u8>) -> FileView {
    let size = page_size(header_field(img, 0), header_field(img, 4));
    FileView {
        max_members: header_field(img, 0),
        capacity: header_field(img, 4),
        root: header_field(img, 8),
        height: header_field(img, 12),
        pages: Seq::new(
            header_field(img, 16),
            |i: int| img.subrange(HEADER_SIZE + i * size, HEADER_SIZE + i * size + size),
        ),
    }
}

/// The header of an image names the shape of the file.
pub proof fn lemma_header_fields(file: FileView)
    requires
        file.inv(),
    ensures
        file.image().len() == HEADER_SIZE + file.pages.len() * page_size(
            file.max_members,
            file.capacity,
        ),
        header_field(file.image(), 0) == file.max_members,
        header_field(file.image(), 4) == file.capacity,
        header_field(file.image(), 8) == file.root,
        header_field(file.image(), 12) == file.height,
        header_field(file.image(), 16) == file.pages.len(),
{
    lemma_flat_len(file.pages, file.pages.len(), page_size(file.max_members, file.capacity));
    lemma_le_round_trip(file.max_members as u32);
    lemma_le_round_trip(file.capacity as u32);
    lemma_le_round_trip(file.root as u32);
    lemma_le_round_trip(file.height as u32);
    lemma_le_round_trip(file.pages.len() as u32);
    lemma_five_words(
        le_bytes(file.max_members as u32),
        le_bytes(file.capacity as u32),
        le_bytes(file.root as u32),
        le_bytes(file.height as u32),
        le_bytes(file.pages.len() as u32),
        flat(file.pages, file.pages.len()),
    );
}

/// Five words of four bytes each, and what follows them, can be cut apart
/// again.
pub proof fn lemma_five_words(
    a: Seq<u8>,
    b: Seq<u8>,
    c: Seq<u8>,
    d: Seq<u8>,
    e: Seq<u8>,
    rest: Seq<u8>,
)
    requires
        a.len() == 4,
        b.len() == 4,
        c.len() == 4,
        d.len() == 4,
        e.len() == 4,
    ensures
        (a + b + c + d + e + rest).len() == 20 + rest.len(),
        (a + b + c + d + e + rest).subrange(0, 4) == a,
        (a + b + c + d + e + rest).subrange(4, 8) == b,
        (a + b + c + d + e + rest).subrange(8, 12) == c,
        (a + b + c + d + e + rest).subrange(12, 16) == d,
        (a + b + c + d + e + rest).subrange(16, 20) == e,
{
    let img = a + b + c + d + e + rest;
    assert(img.subrange(0, 4) =~= a);
    assert(img.subrange(4, 8) =~= b);
    assert(img.subrange(8, 12) =~= c);
    assert(img.subrange(12, 16) =~= d);
    assert(img.subrange(16, 20) =~= e);
}

/// Page `i` lies in the image at `page_offset(i)`.
pub proof fn lemma_page_in_image(file: FileView, i: int)
    requires
        file.inv(),
        0 <= i < file.pages.len(),
    ensures
        file.image().subrange(
            file.page_offset(i),
            file.page_offset(i) + page_size(file.max_members, file.capacity),
        ) == file.pages[i],
{
    let size = page_size(file.max_members, file.capacity);
    let body = flat(file.pages, file.pages.len());
    let head = file.header();
    lemma_flat(file.pages, file.pages.len(), size, i);
    assert(head.len() == HEADER_SIZE);
    assert((head + body).subrange(HEADER_SIZE + i * size, HEADER_SIZE + i * size + size)
        =~= body.subrange(i * size, i * size + size));
}

/// No two pages overlap in the image: a page ends where the next one starts,
/// or before.
pub proof fn lemma_pages_apart(file: FileView, i: int, j: int)
    requires
        0 <= i < j,
    ensures
        file.page_offset(i) + page_size(file.max_members, file.capacity) <= file.page_offset(j),
{
    let size = page_size(file.max_members, file.capacity) as int;
    assert((i + 1) * size <= j * size) by (nonlinear_arith)
        requires
            i + 1 <= j,
            0 <= size,
    ;
    assert((i + 1) * size == i * size + size) by (nonlinear_arith);
}

/// The image of a file gives the file back.
pub proof fn lemma_image_round_trip(file: FileView)
    requires
        file.inv(),
        file.nodes()[file.root as int] is Some,
    ensures
        parse_image(file.image()) == Some(file),
{
    let img = file.image();
    lemma_header_fields(file);
    let parsed = parse_image_file(img);
    assert forall|i: int| 0 <= i < file.pages.len() implies #[trigger] parsed.pages[i]
        == file.pages[i] by {
        lemma_page_in_image(file, i);
    }
    assert(parsed.pages =~= file.pages);
    assert(parsed == file);
}

} // verus!

//! The commands of the textual interface: `set <key> <value>` and `get <key>`,
//! their words parted by white space.
//!
//! A line is read as the bytes of its UTF-8 text. White space is what Unicode
//! calls so, each character in its UTF-8 form; no such form begins inside
//! another character, so the words of a text are texts again.

use vstd::prelude::*;
use vstd::slice::{slice_subrange, slice_to_vec};
use vstd::utf8::{
    is_char_boundary, is_char_boundary_iff_not_is_continuation_byte,
    is_char_boundary_start_end_of_seq, is_continuation_byte, length_of_first_scalar,
    pop_first_scalar, valid_first_scalar, valid_utf8, valid_utf8_split,
};

verus! {

/// The number of bytes of the white-space character that starts at `i`, or 0
/// where none starts there.
pub open spec fn space_at(b: Seq<u8>, i: int) -> int {
    if !(0 <= i < b.len()) {
        0
    } else if (0x09 <= b[i] <= 0x0d) || b[i] == 0x20 {
        1
    } else if i + 1 < b.len() && b[i] == 0xc2 && (b[i + 1] == 0x85 || b[i + 1] == 0xa0) {
        2
    } else if i + 2 < b.len() && ((b[i] == 0xe1 && b[i + 1] == 0x9a && b[i + 2] == 0x80) || (b[i]
        == 0xe2 && b[i + 1] == 0x80 && (0x80 <= b[i + 2] <= 0x8a || b[i + 2] == 0xa8 || b[i + 2]
        == 0xa9 || b[i + 2] == 0xaf)) || (b[i] == 0xe2 && b[i + 1] == 0x81 && b[i + 2] == 0x9f)
        || (b[i] == 0xe3 && b[i + 1] == 0x80 && b[i + 2] == 0x80)) {
        3
    } else {
        0
    }
}

/// The first position at or after `i` where no white space starts.
pub open spec fn skip_spaces(b: Seq<u8>, i: int) -> int
    decreases b.len() - i,
{
    if 0 <= i < b.len() && space_at(b, i) > 0 {
        skip_spaces(b, i + space_at(b, i))
    } else {
        i
    }
}

/// The first position at or after `i` where white space starts, or the end.
pub open spec fn word_end(b: Seq<u8>, i: int) -> int
    decreases b.len() - i,
{
    if 0 <= i < b.len() && space_at(b, i) == 0 {
        word_end(b, i + 1)
    } else {
        i
    }
}

/// The next word at or after `from`: where it starts and where it ends.
pub open spec fn next_word(b: Seq<u8>, from: int) -> Option<(int, int)> {
    let start = skip_spaces(b, from);
    if start < b.len() {
        Some((start, word_end(b, start)))
    } else {
        None
    }
}

/// The bytes of the word `set`.
pub open spec fn word_set() -> Seq<u8> {
    seq![0x73u8, 0x65u8, 0x74u8]
}

/// The bytes of the word `get`.
pub open spec fn word_get() -> Seq<u8> {
    seq![0x67u8, 0x65u8, 0x74u8]
}

/// What a line asks for.
pub ghost enum CommandView {
    /// The line has no word.
    Nothing,
    /// `set` with a key and a value; what follows the value is not read.
    Store { key: Seq<u8>, value: Seq<u8> },
    /// `get` with a key; what follows the key is not read.
    Fetch { key: Seq<u8> },
    /// `set` or `get` without a key.
    MissingKey,
    /// `set` with a key and no value.
    MissingValue,
    /// The first word is neither `set` nor `get`.
    Unknown,
}

/// What a line asks for.
#[derive(Debug, Clone, PartialEq, Eq)]
pub enum Command {
    Nothing,
    Store { key: Vec<u8>, value: Vec<u8> },
    Fetch { key: Vec<u8> },
    MissingKey,
    MissingValue,
    Unknown,
}

impl View for Command {
    type V = CommandView;

    open spec fn view(&self) -> CommandView {
        match self {
            Command::Nothing => CommandView::Nothing,
            Command::Store { key, value } => CommandView::Store { key: key@, value: value@ },
            Command::Fetch { key } => CommandView::Fetch { key: key@ },
            Command::MissingKey => CommandView::MissingKey,
            Command::MissingValue => CommandView::MissingValue,
            Command::Unknown => CommandView::Unknown,
        }
    }
}

/// The command that the bytes of a line stand for.
pub open spec fn parse_spec(b: Seq<u8>) -> CommandView {
    match next_word(b, 0) {
        None => CommandView::Nothing,
        Some((s0, e0)) => {
            let name = b.subrange(s0, e0);
            if name == word_set() {
                match next_word(b, e0) {
                    None => CommandView::MissingKey,
                    Some((s1, e1)) => match next_word(b, e1) {
                        None => CommandView::MissingValue,
                        Some((s2, e2)) => CommandView::Store {
                            key: b.subrange(s1, e1),
                            value: b.subrange(s2, e2),
                        },
                    },
                }
            } else if name == word_get() {
                match next_word(b, e0) {
                    None => CommandView::MissingKey,
                    Some((s1, e1)) => CommandView::Fetch { key: b.subrange(s1, e1) },
                }
            } else {
                CommandView::Unknown
            }
        },
    }
}

fn space_width(b: &[u8], i: usize) -> (w: usize)
    requires
        i < b@.len(),
    ensures
        w == space_at(b@, i as int),
        i + w <= b@.len(),
{
    let c = b[i];
    if (0x09 <= c && c <= 0x0d) || c == 0x20 {
        return 1;
    }
    let left: usize = b.len() - i;
    if left >= 2 && c == 0xc2 && (b[i + 1] == 0x85 || b[i + 1] == 0xa0) {
        return 2;
    }
    if left >= 3 {
        let d = b[i + 1];
        let e = b[i + 2];
        if (c == 0xe1 && d == 0x9a && e == 0x80) || (c == 0xe2 && d == 0x80 && ((0x80 <= e && e
            <= 0x8a) || e == 0xa8 || e == 0xa9 || e == 0xaf)) || (c == 0xe2 && d == 0x81 && e
            == 0x9f) || (c == 0xe3 && d == 0x80 && e == 0x80) {
            return 3;
        }
    }
    0
}

fn find_word(b: &[u8], from: usize) -> (r: Option<(usize, usize)>)
    requires
        from <= b@.len(),
    ensures
        match r {
            Some((start, end)) => next_word(b@, from as int) == Some((start as int, end as int))
                && from <= start < end <= b@.len(),
            None => next_word(b@, from as int) is None,
        },
{
    let mut start: usize = from;
    loop
        invariant
            from <= start <= b@.len(),
            skip_spaces(b@, start as int) == skip_spaces(b@, from as int),
        ensures
            start < b@.len(),
            space_at(b@, start as int) == 0,
        decreases b@.len() - start,
    {
        if start >= b.len() {
            return None;
        }
        let w = space_width(b, start);
        if w == 0 {
            break ;
        }
        start = start + w;
    }
    let n: usize = b.len();
    assert(start < n);
    let mut end: usize = start + 1;
    while end < b.len() && space_width(b, end) == 0
        invariant
            start < end <= b@.len(),
            word_end(b@, end as int) == word_end(b@, start as int),
        decreases b@.len() - end,
    {
        end = end + 1;
    }
    Some((start, end))
}

fn is_word(b: &[u8], c0: u8, c1: u8, c2: u8) -> (r: bool)
    ensures
        r == (b@ == seq![c0, c1, c2]),
{
    if b.len() == 3 && b[0] == c0 && b[1] == c1 && b[2] == c2 {
        assert(b@ =~= seq![c0, c1, c2]);
        true
    } else {
        false
    }
}

/// Reads the command of a line.
pub fn parse(line: &[u8]) -> (c: Command)
    ensures
        c@ == parse_spec(line@),
{
    let (s0, e0) = match find_word(line, 0) {
        None => {
            return Command::Nothing;
        },
        Some(w) => w,
    };
    let name = slice_subrange(line, s0, e0);
    let is_set = is_word(name, 0x73, 0x65, 0x74);
    let is_get = is_word(name, 0x67, 0x65, 0x74);
    if !is_set && !is_get {
        return Command::Unknown;
    }
    let (s1, e1) = match find_word(line, e0) {
        None => {
            return Command::MissingKey;
        },
        Some(w) => w,
    };
    let key = slice_to_vec(slice_subrange(line, s1, e1));
    if is_get {
        assert(!is_set) by {
            assert(word_set()[0] != word_get()[0]);
        }
        return Command::Fetch { key };
    }
    let (s2, e2) = match find_word(line, e1) {
        None => {
            return Command::MissingValue;
        },
        Some(w) => w,
    };
    let value = slice_to_vec(slice_subrange(line, s2, e2));
    Command::Store { key, value }
}


/// In a text, white space is skipped from one character's start to another's.
pub proof fn lemma_skip_spaces_boundary(b: Seq<u8>, i: int)
    requires
        valid_utf8(b),
        0 <= i <= b.len(),
        is_char_boundary(b, i),
    ensures
        i <= skip_spaces(b, i) <= b.len(),
        skip_spaces(b, i) < b.len() ==> space_at(b, skip_spaces(b, i)) == 0,
        is_char_boundary(b, skip_spaces(b, i)),
    decreases b.len() - i,
{
    if i < b.len() && space_at(b, i) > 0 {
        let w = space_at(b, i);
        let tail = b.subrange(i, b.len() as int);
        valid_utf8_split(b, i);
        assert(tail.len() > 0);
        assert(tail[0] == b[i]);
        assert(valid_first_scalar(tail) && valid_utf8(pop_first_scalar(tail)));
        assert(length_of_first_scalar(tail) == w);
        let rest = pop_first_scalar(tail);
        assert(rest =~= b.subrange(i + w, b.len() as int));
        if i + w < b.len() {
            assert(rest.len() > 0);
            assert(valid_first_scalar(rest));
            assert(rest[0] == b[i + w]);
            assert(!is_continuation_byte(b[i + w]));
            is_char_boundary_iff_not_is_continuation_byte(b, i + w);
        } else {
            is_char_boundary_start_end_of_seq(b);
        }
        lemma_skip_spaces_boundary(b, i + w);
    }
}

/// A word ends after it starts, within the line, and where white space
/// starts or the line ends.
pub proof fn lemma_word_end(b: Seq<u8>, i: int)
    requires
        0 <= i <= b.len(),
    ensures
        i <= word_end(b, i) <= b.len(),
        word_end(b, i) < b.len() ==> space_at(b, word_end(b, i)) > 0,
    decreases b.len() - i,
{
    if i < b.len() && space_at(b, i) == 0 {
        lemma_word_end(b, i + 1);
    }
}

/// In a text, the next word after a character's start is a text, and ends at
/// a character's start.
pub proof fn lemma_word_is_text(b: Seq<u8>, from: int)
    requires
        valid_utf8(b),
        0 <= from <= b.len(),
        is_char_boundary(b, from),
        next_word(b, from) is Some,
    ensures
        from <= next_word(b, from).unwrap().0 < next_word(b, from).unwrap().1 <= b.len(),
        is_char_boundary(b, next_word(b, from).unwrap().1),
        valid_utf8(b.subrange(next_word(b, from).unwrap().0, next_word(b, from).unwrap().1)),
{
    let (start, end) = next_word(b, from).unwrap();
    lemma_skip_spaces_boundary(b, from);
    lemma_word_end(b, start + 1);
    assert(end == word_end(b, start + 1));
    if end < b.len() {
        assert(!is_continuation_byte(b[end]));
        is_char_boundary_iff_not_is_continuation_byte(b, end);
    } else {
        is_char_boundary_start_end_of_seq(b);
    }
    valid_utf8_split(b, end);
    let front = b.subrange(0, end);
    is_char_boundary_iff_not_is_continuation_byte(b, start);
    assert(front[start] == b[start]);
    is_char_boundary_iff_not_is_continuation_byte(front, start);
    valid_utf8_split(front, start);
    assert(front.subrange(start, front.len() as int) =~= b.subrange(start, end));
}

/// The key and the value that the command of a text names are texts.
pub proof fn lemma_words_are_text(b: Seq<u8>)
    requires
        valid_utf8(b),
    ensures
        match parse_spec(b) {
            CommandView::Store { key, value } => valid_utf8(key) && valid_utf8(value),
            CommandView::Fetch { key } => valid_utf8(key),
            _ => true,
        },
{
    is_char_boundary_start_end_of_seq(b);
    if next_word(b, 0) is Some {
        lemma_word_is_text(b, 0);
        let e0 = next_word(b, 0).unwrap().1;
        if next_word(b, e0) is Some {
            lemma_word_is_text(b, e0);
            let e1 = next_word(b, e0).unwrap().1;
            if next_word(b, e1) is Some {
                lemma_word_is_text(b, e1);
            }
        }
    }
}

} // verus!

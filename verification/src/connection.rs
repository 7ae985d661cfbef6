//! The textual interface: one line in, one answer out.

use crate::btree::BTree;
use crate::command::{lemma_words_are_text, parse, parse_spec, Command, CommandView};
use crate::error::{message_spec, Error};
use crate::file::untouched;
use vstd::prelude::*;
use vstd::string::StringSliceAdditionalSpecFns;
use vstd::utf8::{decode_utf8, encode_utf8_valid_utf8, valid_utf8};

verus! {

/// What a command gives back.
#[derive(Debug, Clone, PartialEq, Eq)]
pub enum ConnectionResult {
    /// A value that was asked for.
    Output(String),
    /// Nothing to show.
    Empty,
}

/// An index and the textual interface to it.
pub struct DbConnection {
    connection: BTree,
    written: Vec<u32>,
}

/// `String::from_utf8`: the text that the bytes are the UTF-8 form of, or
/// nothing where they are the form of no text.
#[verifier::external_body]
fn text_of(bytes: Vec<u8>) -> (r: Option<String>)
    ensures
        match r {
            Some(s) => valid_utf8(bytes@) && s@ == decode_utf8(bytes@),
            None => !valid_utf8(bytes@),
        },
{
    String::from_utf8(bytes).ok()
}

/// What the interface answers when asked for the value `found`.
pub open spec fn shown(
    found: Option<Option<Seq<u8>>>,
    r: Result<ConnectionResult, &'static str>,
) -> bool {
    match found {
        None => r is Err && r->Err_0@ == message_spec(Error::Corrupt),
        Some(None) => r is Err && r->Err_0@ == "Key not found"@,
        Some(Some(v)) => if valid_utf8(v) {
            r is Ok && r->Ok_0 is Output && r->Ok_0->Output_0@ == decode_utf8(v)
        } else {
            r is Err && r->Err_0@ == "Value is not text"@
        },
    }
}

impl DbConnection {
    /// The index behind the interface.
    pub closed spec fn index(&self) -> BTree {
        self.connection
    }

    /// The pages that the last command wrote.
    pub closed spec fn log(&self) -> Seq<u32> {
        self.written@
    }

    /// What holds of every connection.
    pub open spec fn inv(&self) -> bool {
        self.index().inv()
    }

    /// A connection to a new, empty index.
    pub fn new() -> (c: DbConnection)
        ensures
            c.index().wf(),
            c.index()@ == Map::<Seq<u8>, Seq<u8>>::empty(),
            c.log() == Seq::<u32>::empty(),
    {
        DbConnection { connection: BTree::new(), written: Vec::new() }
    }

    /// A connection to the given index.
    pub fn with_tree(tree: BTree) -> (c: DbConnection)
        ensures
            c.index() == tree,
            c.log() == Seq::<u32>::empty(),
    {
        DbConnection { connection: tree, written: Vec::new() }
    }

    /// The index behind the interface.
    pub fn tree(&self) -> (t: &BTree)
        ensures
            *t == self.index(),
    {
        &self.connection
    }

    /// The pages that the last command wrote.
    pub fn written(&self) -> (w: &Vec<u32>)
        ensures
            w@ == self.log(),
    {
        &self.written
    }

    /// Carries out one line: `set <key> <value>` stores the value under the
    /// key, `get <key>` shows the value under the key. The words are parted by
    /// white space, and what follows the last word that a command needs is
    /// not read.
    pub fn execute(&mut self, input: &str) -> (r: Result<ConnectionResult, &'static str>)
        requires
            old(self).inv(),
        ensures
            final(self).inv(),
            untouched(
                old(self).index().file().pages,
                final(self).index().file().pages,
                final(self).log(),
            ),
            match parse_spec(input.spec_bytes()) {
                CommandView::Nothing => final(self).index() == old(self).index() && r is Err
                    && r->Err_0@ == "No command specified"@,
                CommandView::Unknown => final(self).index() == old(self).index() && r is Err
                    && r->Err_0@ == "Unrecognized command"@,
                CommandView::MissingKey => final(self).index() == old(self).index() && r is Err
                    && r->Err_0@ == "Key not provided"@,
                CommandView::MissingValue => final(self).index() == old(self).index() && r is Err
                    && r->Err_0@ == "Value not provided"@,
                CommandView::Fetch { key } => final(self).index() == old(self).index() && shown(
                    old(self).index().file().lookup(key),
                    r,
                ),
                CommandView::Store { key, value } => match r {
                    Ok(out) => {
                        &&& out is Empty
                        &&& old(self).index().file().refusal(key, value) is None
                        &&& old(self).index().wf() ==> final(self).index().wf()
                            && final(self).index()@ == old(self).index()@.insert(key, value)
                    },
                    Err(e) => {
                        &&& final(self).index() == old(self).index()
                        &&& match old(self).index().file().refusal(key, value) {
                            Some(x) => e@ == message_spec(x),
                            None => e@ == message_spec(Error::Corrupt) && !old(self).index().wf(),
                        }
                    },
                },
            },
    {
        self.written = Vec::new();
        proof {
            assert forall|p: int|
                0 <= p < self.index().file().pages.len() implies self.index().file().pages[p]
                == old(self).index().file().pages[p] by {}
        }
        match parse(input.as_bytes()) {
            Command::Nothing => Err("No command specified"),
            Command::Unknown => Err("Unrecognized command"),
            Command::MissingKey => Err("Key not provided"),
            Command::MissingValue => Err("Value not provided"),
            Command::Store { key, value } => {
                match self.set(key.as_slice(), value.as_slice()) {
                    Ok(()) => Ok(ConnectionResult::Empty),
                    Err(e) => Err(e.message()),
                }
            },
            Command::Fetch { key } => {
                match self.get(key.as_slice()) {
                    Err(e) => Err(e.message()),
                    Ok(None) => Err("Key not found"),
                    Ok(Some(value)) => match text_of(value) {
                        Some(text) => Ok(ConnectionResult::Output(text)),
                        None => Err("Value is not text"),
                    },
                }
            },
        }
    }

    /// Stores `value` under `key` in the index, and notes which pages that
    /// wrote.
    pub fn set(&mut self, key: &[u8], value: &[u8]) -> (r: Result<(), Error>)
        requires
            old(self).inv(),
        ensures
            final(self).inv(),
            untouched(
                old(self).index().file().pages,
                final(self).index().file().pages,
                final(self).log(),
            ),
            match r {
                Ok(_) => {
                    &&& old(self).index().file().refusal(key@, value@) is None
                    &&& old(self).index().wf() ==> final(self).index().wf()
                        && final(self).index()@ == old(self).index()@.insert(key@, value@)
                },
                Err(e) => {
                    &&& final(self).index() == old(self).index()
                    &&& match old(self).index().file().refusal(key@, value@) {
                        Some(x) => e == x,
                        None => e == Error::Corrupt && !old(self).index().wf(),
                    }
                },
            },
    {
        match self.connection.insert(key, value) {
            Ok(written) => {
                self.written = written;
                Ok(())
            },
            Err(e) => {
                self.written = Vec::new();
                proof {
                    assert forall|p: int|
                        0 <= p < self.index().file().pages.len() implies self.index().file().pages[p]
                        == old(self).index().file().pages[p] by {}
                }
                Err(e)
            },
        }
    }

    /// The value that the index holds under `key`, if it holds one.
    pub fn get(&self, key: &[u8]) -> (r: Result<Option<Vec<u8>>, Error>)
        requires
            self.inv(),
        ensures
            match self.index().file().lookup(key@) {
                None => r == Err::<Option<Vec<u8>>, Error>(Error::Corrupt),
                Some(None) => r == Ok::<Option<Vec<u8>>, Error>(None),
                Some(Some(v)) => r is Ok && r.unwrap() is Some && r.unwrap().unwrap()@ == v,
            },
            self.index().wf() ==> r is Ok && match r.unwrap() {
                Some(v) => self.index()@.contains_key(key@) && self.index()@[key@] == v@,
                None => !self.index()@.contains_key(key@),
            },
    {
        self.connection.get(key)
    }
}


/// The key and the value that a line names are texts: what `set` stores
/// through the interface, `get` can show.
pub proof fn lemma_line_names_texts(line: &str)
    ensures
        match parse_spec(line.spec_bytes()) {
            CommandView::Store { key, value } => valid_utf8(key) && valid_utf8(value),
            CommandView::Fetch { key } => valid_utf8(key),
            _ => true,
        },
{
    encode_utf8_valid_utf8(line@);
    lemma_words_are_text(line.spec_bytes());
}

} // verus!

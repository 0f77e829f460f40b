//! Bencode values, as nREPL messages carry them.

use vstd::prelude::*;
use vstd::utf8::*;
use crate::bytes::{bytes_copy, same_bytes};
use crate::text::text_from_utf8;

verus! {

/// One bencode value. A dictionary holds each key once.
#[derive(Debug)]
pub enum Bencode {
    Int(i64),
    Bytes(Vec<u8>),
    List(Vec<Bencode>),
    Dict(Vec<(Vec<u8>, Bencode)>),
}

/// What a [`Bencode`] holds.
pub enum Ben {
    Int(i64),
    Bytes(Seq<u8>),
    List(Seq<Ben>),
    Dict(Seq<(Seq<u8>, Ben)>),
}

impl Bencode {
    /// What the value holds.
    pub open spec fn view(&self) -> Ben
        decreases self,
    {
        match self {
            Bencode::Int(n) => Ben::Int(*n),
            Bencode::Bytes(b) => Ben::Bytes(b@),
            Bencode::List(items) => Ben::List(
                Seq::new(
                    items@.len(),
                    |i: int|
                        if 0 <= i < items@.len() {
                            items@[i].view()
                        } else {
                            Ben::Int(0)
                        },
                ),
            ),
            Bencode::Dict(entries) => Ben::Dict(
                Seq::new(
                    entries@.len(),
                    |i: int|
                        if 0 <= i < entries@.len() {
                            (entries@[i].0@, entries@[i].1.view())
                        } else {
                            (Seq::empty(), Ben::Int(0))
                        },
                ),
            ),
        }
    }

    /// The byte string of a text.
    pub fn text(s: &str) -> (r: Bencode)
        ensures
            r.view() == Ben::Bytes(encode_utf8(s@)),
    {
        Bencode::Bytes(bytes_copy(s.as_bytes()))
    }

    /// The text of a byte string that is UTF-8.
    pub fn as_str(&self) -> (r: Option<String>)
        ensures
            (match r {
                Some(s) => Some(s@),
                None => None,
            }) == text_in(self.view()),
    {
        match self {
            Bencode::Bytes(b) => text_from_utf8(bytes_copy(b)),
            _ => None,
        }
    }
}

/// The views of items.
pub open spec fn bens(items: Seq<Bencode>) -> Seq<Ben> {
    Seq::new(items.len(), |i: int| items[i].view())
}

/// The views of entries.
pub open spec fn entry_bens(entries: Seq<(Vec<u8>, Bencode)>) -> Seq<(Seq<u8>, Ben)> {
    Seq::new(entries.len(), |i: int| (entries[i].0@, entries[i].1.view()))
}

/// A list's view holds its items' views, a dictionary's its entries'.
pub proof fn lemma_ben_views(v: Bencode)
    ensures
        v matches Bencode::List(items) ==> v.view() == Ben::List(bens(items@)),
        v matches Bencode::Dict(entries) ==> v.view() == Ben::Dict(entry_bens(entries@)),
{
    match v {
        Bencode::List(items) => {
            assert(v.view()->List_0 =~= bens(items@));
        },
        Bencode::Dict(entries) => {
            assert(v.view()->Dict_0 =~= entry_bens(entries@));
        },
        _ => {},
    }
}

/// The text of a byte string that is UTF-8.
pub open spec fn text_in(v: Ben) -> Option<Seq<char>> {
    match v {
        Ben::Bytes(b) => if valid_utf8(b) {
            Some(decode_utf8(b))
        } else {
            None
        },
        _ => None,
    }
}

/// The value under a key.
pub open spec fn entry_under(entries: Seq<(Seq<u8>, Ben)>, key: Seq<u8>) -> Option<Ben>
    decreases entries.len(),
{
    if entries.len() == 0 {
        None
    } else if entries.last().0 == key {
        Some(entries.last().1)
    } else {
        entry_under(entries.drop_last(), key)
    }
}

/// The value under a key.
pub fn dict_get<'a>(entries: &'a Vec<(Vec<u8>, Bencode)>, key: &[u8]) -> (r: Option<&'a Bencode>)
    ensures
        (match r {
            Some(v) => Some(v.view()),
            None => None,
        }) == entry_under(entry_bens(entries@), key@),
{
    let ghost all = entry_bens(entries@);
    let mut i: usize = entries.len();
    assert(all.take(i as int) =~= all);
    while i > 0
        invariant
            i <= entries@.len(),
            all == entry_bens(entries@),
            entry_under(all, key@) == entry_under(all.take(i as int), key@),
        decreases i,
    {
        assert(all.take(i as int).drop_last() =~= all.take(i - 1));
        assert(all.take(i as int).last() == all[i - 1]);
        if same_bytes(entries[i - 1].0.as_slice(), key) {
            return Some(&entries[i - 1].1);
        }
        i = i - 1;
    }
    None
}

/// The text under a key.
pub open spec fn text_under(entries: Seq<(Seq<u8>, Ben)>, key: Seq<u8>) -> Option<Seq<char>> {
    match entry_under(entries, key) {
        Some(v) => text_in(v),
        None => None,
    }
}

/// The text under a key.
pub fn bstr(entries: &Vec<(Vec<u8>, Bencode)>, key: &str) -> (r: Option<String>)
    ensures
        (match r {
            Some(s) => Some(s@),
            None => None,
        }) == text_under(entry_bens(entries@), encode_utf8(key@)),
{
    match dict_get(entries, key.as_bytes()) {
        Some(v) => v.as_str(),
        None => None,
    }
}

} // verus!

//! Decoding of a credential's serialized attribute stream.
//!
//! A stream is a concatenation of items, each encoded as a tag byte, a
//! length byte, and that many value bytes. An item whose declared length
//! exceeds [`MAX_ITEM_LEN`], or a stream that ends in the middle of an
//! item, is malformed; the scan then yields no items at all.

use vstd::prelude::*;

verus! {

/// Attribute tag carrying a nationality country code.
pub const NATIONALITY: u8 = 5;

/// Attribute tag carrying a date of birth as decimal digit bytes.
pub const DOB: u8 = 3;

/// Attribute tag carrying a country-of-residence code.
pub const COUNTRY_OF_RESIDENCE: u8 = 4;

/// Largest number of value bytes one attribute item may carry.
pub const MAX_ITEM_LEN: usize = 31;

/// One decoded attribute item: a tag and its raw value bytes.
pub struct AttributeItem {
    pub tag: u8,
    pub value: Vec<u8>,
}

impl View for AttributeItem {
    type V = (u8, Seq<u8>);

    open spec fn view(&self) -> (u8, Seq<u8>) {
        (self.tag, self.value@)
    }
}

/// The items encoded by a raw attribute stream, or `None` if the stream
/// is malformed (a truncated item, or a declared length over the maximum).
pub open spec fn items_of(s: Seq<u8>) -> Option<Seq<(u8, Seq<u8>)>>
    decreases s.len(),
{
    if s.len() == 0 {
        Some(Seq::empty())
    } else if s.len() < 2 {
        None
    } else {
        let tag = s[0];
        let len = s[1] as int;
        if len > MAX_ITEM_LEN || s.len() < 2 + len {
            None
        } else {
            match items_of(s.subrange(2 + len, s.len() as int)) {
                Some(rest) => Some(seq![(tag, s.subrange(2, 2 + len))] + rest),
                None => None,
            }
        }
    }
}

/// Every item of a well-formed stream carries at most [`MAX_ITEM_LEN`]
/// value bytes.
pub proof fn lemma_items_of_value_len(s: Seq<u8>, items: Seq<(u8, Seq<u8>)>)
    requires
        items_of(s) == Some(items),
    ensures
        forall|i: int| 0 <= i < items.len() ==> (#[trigger] items[i]).1.len() <= MAX_ITEM_LEN,
    decreases s.len(),
{
    if s.len() >= 2 {
        let len = s[1] as int;
        if len <= MAX_ITEM_LEN && s.len() >= 2 + len {
            let tail = s.subrange(2 + len, s.len() as int);
            if let Some(rest) = items_of(tail) {
                lemma_items_of_value_len(tail, rest);
                assert(items == seq![(s[0], s.subrange(2, 2 + len))] + rest);
                assert forall|i: int| 0 <= i < items.len() implies (#[trigger] items[i]).1.len()
                    <= MAX_ITEM_LEN by {
                    if i > 0 {
                        assert(items[i] == rest[i - 1]);
                    }
                }
            }
        }
    }
}

/// The abstract (tag, value) pairs of a sequence of decoded items.
pub open spec fn views_of(items: Seq<AttributeItem>) -> Seq<(u8, Seq<u8>)> {
    items.map_values(|it: AttributeItem| it@)
}

/// Decodes a whole attribute stream, returning its items in order, or
/// `None` exactly when the stream is malformed.
pub fn scan(stream: &[u8]) -> (r: Option<Vec<AttributeItem>>)
    ensures
        match r {
            Some(items) => items_of(stream@) == Some(views_of(items@)),
            None => items_of(stream@) is None,
        },
{
    let n: usize = stream.len();
    let mut items: Vec<AttributeItem> = Vec::new();
    let mut i: usize = 0;
    proof {
        assert(stream@.subrange(0, n as int) =~= stream@);
        if let Some(rest) = items_of(stream@) {
            assert(views_of(items@) + rest =~= rest);
        }
    }
    while i < n
        invariant
            n == stream@.len(),
            0 <= i <= n,
            items_of(stream@) == match items_of(stream@.subrange(i as int, n as int)) {
                Some(rest) => Some(views_of(items@) + rest),
                None => None::<Seq<(u8, Seq<u8>)>>,
            },
        decreases n - i,
    {
        let ghost suffix = stream@.subrange(i as int, n as int);
        if i + 1 >= n {
            // a lone tag byte: the stream is truncated
            assert(suffix.len() == 1);
            return None;
        }
        let tag = stream[i];
        let len = stream[i + 1] as usize;
        assert(suffix[0] == stream@[i as int]);
        assert(suffix[1] == stream@[i as int + 1]);
        if len > MAX_ITEM_LEN || len > n - (i + 2) {
            return None;
        }
        let value_slice = vstd::slice::slice_subrange(stream, i + 2, i + 2 + len);
        let value = vstd::slice::slice_to_vec(value_slice);
        let item = AttributeItem { tag, value };
        proof {
            assert(suffix.subrange(2, 2 + len as int) =~= stream@.subrange(
                i as int + 2,
                i as int + 2 + len as int,
            ));
            assert(suffix.subrange(2 + len as int, suffix.len() as int) =~= stream@.subrange(
                i as int + 2 + len as int,
                n as int,
            ));
            assert(views_of(items@.push(item)) =~= views_of(items@) + seq![item@]);
            if let Some(rest) = items_of(stream@.subrange(i as int + 2 + len as int, n as int)) {
                assert(views_of(items@) + (seq![(tag, suffix.subrange(2, 2 + len as int))] + rest)
                    =~= views_of(items@.push(item)) + rest);
            }
        }
        items.push(item);
        i = i + 2 + len;
    }
    proof {
        assert(stream@.subrange(n as int, n as int) =~= Seq::<u8>::empty());
        assert(views_of(items@) + Seq::<(u8, Seq<u8>)>::empty() =~= views_of(items@));
    }
    Some(items)
}

} // verus!

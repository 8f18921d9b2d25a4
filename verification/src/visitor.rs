//! The decode dispatcher: one callback per kind of data item, and the walk that drives them.

use vstd::prelude::*;
use vstd::slice::slice_to_vec;
use vstd::string::StringExecFns;

use crate::cid::CBOR_TAG_CID;
use crate::error::DecodeError;
use crate::raw::{entry_trees, lemma_entry_trees, lemma_trees, trees, Item, Raw};
use crate::value::{collect, lemma_list_view, views, Data, Ipld, IpldMap};

verus! {

/// A decode result by the value it holds.
pub open spec fn outcome(r: Result<Ipld, DecodeError>) -> Result<Data, DecodeError> {
    match r {
        Ok(value) => Ok(value@),
        Err(e) => Err(e),
    }
}

/// What a data item decodes to.
pub open spec fn decoded(item: Item) -> Result<Data, DecodeError>
    decreases item, 0nat,
{
    match item {
        Item::Null => Ok(Data::Null),
        Item::Bool(b) => Ok(Data::Bool(b)),
        Item::Integer(i) => Ok(Data::Integer(i)),
        Item::Float(bits) => Ok(Data::Float(bits)),
        Item::Bytes(bytes) => Ok(Data::Bytes(bytes)),
        Item::Text(text) => Ok(Data::Text(text)),
        Item::Array(items) => match decoded_list(items) {
            Ok(list) => Ok(Data::List(list)),
            Err(e) => Err(e),
        },
        Item::Mapping(entries) => match decoded_pairs(entries) {
            Ok(pairs) => Ok(Data::Mapping(collect(pairs))),
            Err(e) => Err(e),
        },
        Item::Tag(tag, inner) => tagged(Some(tag), *inner),
    }
}

/// What a payload decodes to under the tag that is active when it is entered: a link where the
/// tag is the link tag and the payload decodes to a byte string, and a failure in every other
/// case.
pub open spec fn tagged(tag: Option<u64>, payload: Item) -> Result<Data, DecodeError>
    decreases payload, 1nat,
{
    match tag {
        Some(found) => if found == CBOR_TAG_CID {
            match decoded(payload) {
                Ok(Data::Bytes(bytes)) => Ok(Data::Link(bytes)),
                _ => Err(DecodeError::BytesExpected),
            }
        } else {
            Err(DecodeError::UnexpectedTag(found))
        },
        None => Err(DecodeError::TagExpected),
    }
}

/// The items decoded in order; the first failure ends the run.
pub open spec fn decoded_list(items: Seq<Item>) -> Result<Seq<Data>, DecodeError>
    decreases items, 0nat,
{
    if items.len() == 0 {
        Ok(Seq::empty())
    } else {
        match decoded_list(items.drop_last()) {
            Ok(front) => match decoded(items.last()) {
                Ok(value) => Ok(front.push(value)),
                Err(e) => Err(e),
            },
            Err(e) => Err(e),
        }
    }
}

/// The entries decoded in order, key before value; the first failure ends the run.
pub open spec fn decoded_pairs(entries: Seq<(Item, Item)>) -> Result<
    Seq<(Seq<char>, Data)>,
    DecodeError,
>
    decreases entries, 0nat,
{
    if entries.len() == 0 {
        Ok(Seq::empty())
    } else {
        match decoded_pairs(entries.drop_last()) {
            Ok(front) => match entries.last().0 {
                Item::Text(key) => match decoded(entries.last().1) {
                    Ok(value) => Ok(front.push((key, value))),
                    Err(e) => Err(e),
                },
                _ => Err(DecodeError::TextKeyExpected),
            },
            Err(e) => Err(e),
        }
    }
}

/// One more item: the run so far, then that item.
proof fn lemma_list_step(items: Seq<Item>, i: int)
    requires
        0 <= i < items.len(),
    ensures
        decoded_list(items.take(i + 1)) == match decoded_list(items.take(i)) {
            Ok(front) => match decoded(items[i]) {
                Ok(value) => Ok(front.push(value)),
                Err(e) => Err(e),
            },
            Err(e) => Err(e),
        },
{
    assert(items.take(i + 1).drop_last() =~= items.take(i));
}

/// A run that has failed stays failed, with the same error, whatever follows.
proof fn lemma_list_failed(items: Seq<Item>, i: int)
    requires
        0 <= i <= items.len(),
        decoded_list(items.take(i)) is Err,
    ensures
        decoded_list(items) == decoded_list(items.take(i)),
    decreases items.len() - i,
{
    if i < items.len() {
        lemma_list_step(items, i);
        lemma_list_failed(items, i + 1);
    } else {
        assert(items.take(i) =~= items);
    }
}

/// One more entry: the run so far, then that entry, key before value.
proof fn lemma_pairs_step(entries: Seq<(Item, Item)>, i: int)
    requires
        0 <= i < entries.len(),
    ensures
        decoded_pairs(entries.take(i + 1)) == match decoded_pairs(entries.take(i)) {
            Ok(front) => match entries[i].0 {
                Item::Text(key) => match decoded(entries[i].1) {
                    Ok(value) => Ok(front.push((key, value))),
                    Err(e) => Err(e),
                },
                _ => Err(DecodeError::TextKeyExpected),
            },
            Err(e) => Err(e),
        },
{
    assert(entries.take(i + 1).drop_last() =~= entries.take(i));
}

/// A run of entries that has failed stays failed, with the same error, whatever follows.
proof fn lemma_pairs_failed(entries: Seq<(Item, Item)>, i: int)
    requires
        0 <= i <= entries.len(),
        decoded_pairs(entries.take(i)) is Err,
    ensures
        decoded_pairs(entries) == decoded_pairs(entries.take(i)),
    decreases entries.len() - i,
{
    if i < entries.len() {
        lemma_pairs_step(entries, i);
        lemma_pairs_failed(entries, i + 1);
    } else {
        assert(entries.take(i) =~= entries);
    }
}

/// The dispatcher's callbacks. Each takes what the engine found and gives the value for it.
#[derive(Clone, Copy, Debug)]
pub struct IpldVisitor;

impl IpldVisitor {
    /// What the dispatcher accepts, in words.
    pub fn expecting(&self) -> (r: &'static str)
        ensures
            r@ == "any valid CBOR value"@,
    {
        "any valid CBOR value"
    }

    /// Borrowed text: copied, then kept as a string.
    pub fn visit_str(self, value: &str) -> (r: Ipld)
        ensures
            r@ == Data::Text(value@),
    {
        self.visit_string(String::from_str(value))
    }

    /// Owned text: kept as a string.
    pub fn visit_string(self, value: String) -> (r: Ipld)
        ensures
            r == Ipld::String(value),
            r@ == Data::Text(value@),
    {
        Ipld::String(value)
    }

    /// A borrowed byte string: copied, then kept as bytes.
    pub fn visit_bytes(self, v: &[u8]) -> (r: Ipld)
        ensures
            r@ == Data::Bytes(v@),
    {
        self.visit_byte_buf(slice_to_vec(v))
    }

    /// An owned byte string: kept as bytes.
    pub fn visit_byte_buf(self, v: Vec<u8>) -> (r: Ipld)
        ensures
            r == Ipld::Bytes(v),
            r@ == Data::Bytes(v@),
    {
        Ipld::Bytes(v)
    }

    /// An unsigned integer of up to 64 bits: widened, its value kept.
    pub fn visit_u64(self, v: u64) -> (r: Ipld)
        ensures
            r@ == Data::Integer(v as int),
    {
        Ipld::Integer(v as i128)
    }

    /// A signed integer of up to 64 bits: widened, its value kept.
    pub fn visit_i64(self, v: i64) -> (r: Ipld)
        ensures
            r@ == Data::Integer(v as int),
    {
        Ipld::Integer(v as i128)
    }

    /// A signed integer of 128 bits: kept as it is.
    pub fn visit_i128(self, v: i128) -> (r: Ipld)
        ensures
            r == Ipld::Integer(v),
            r@ == Data::Integer(v as int),
    {
        Ipld::Integer(v)
    }

    /// A boolean.
    pub fn visit_bool(self, v: bool) -> (r: Ipld)
        ensures
            r == Ipld::Bool(v),
            r@ == Data::Bool(v),
    {
        Ipld::Bool(v)
    }

    /// An absent value: null.
    pub fn visit_none(self) -> (r: Ipld)
        ensures
            r == Ipld::Null,
            r@ == Data::Null,
    {
        self.visit_unit()
    }

    /// The unit value: null.
    pub fn visit_unit(self) -> (r: Ipld)
        ensures
            r == Ipld::Null,
            r@ == Data::Null,
    {
        Ipld::Null
    }

    /// A 64-bit float, given by its bit pattern: kept bit for bit.
    pub fn visit_f64(self, bits: u64) -> (r: Ipld)
        ensures
            r == Ipld::Float(bits),
            r@ == Data::Float(bits),
    {
        Ipld::Float(bits)
    }

    /// A sequence: its items decoded in the order given and kept as a list in that order. The
    /// first item that fails ends the decode with its error.
    pub fn visit_seq(self, items: &Vec<Raw>) -> (r: Result<Ipld, DecodeError>)
        ensures
            outcome(r) == decoded(Item::Array(trees(items@))),
            r matches Ok(value) ==> value.wf(),
        decreases items, 1nat,
    {
        let ghost all = trees(items@);
        let mut list: Vec<Ipld> = Vec::new();
        let mut i: usize = 0;
        proof {
            lemma_trees(items@);
            assert(views(list@) =~= Seq::empty());
        }
        while i < items.len()
            invariant
                all == trees(items@),
                all.len() == items.len(),
                forall|j: int| 0 <= j < items.len() ==> (#[trigger] all[j]) == items@[j]@,
                i <= items.len(),
                list@.len() == i,
                decoded_list(all.take(i as int)) == Ok::<Seq<Data>, DecodeError>(views(list@)),
                forall|j: int| 0 <= j < i ==> (#[trigger] list@[j]).wf(),
            decreases items.len() - i,
        {
            proof {
                assert(decreases_to!(*items => items@));
                assert(decreases_to!(items@ => items@[i as int]));
                lemma_list_step(all, i as int);
            }
            match Ipld::deserialize(&items[i]) {
                Ok(value) => {
                    proof {
                        assert(views(list@.push(value)) =~= views(list@).push(value@));
                    }
                    list.push(value);
                },
                Err(e) => {
                    proof {
                        lemma_list_failed(all, i + 1);
                    }
                    return Err(e);
                },
            }
            i += 1;
        }
        proof {
            assert(all.take(i as int) =~= all);
            lemma_list_view(list);
        }
        Ok(Ipld::List(list))
    }

    /// A mapping: its entries decoded in the order given, key before value, and written one
    /// after the other into a mapping ordered by key, a later entry over an earlier one with the
    /// same key. Every entry is decoded, also one whose key comes again later: a key that is
    /// not text, or a value that fails, ends the decode.
    pub fn visit_map(self, entries: &Vec<(Raw, Raw)>) -> (r: Result<Ipld, DecodeError>)
        ensures
            outcome(r) == decoded(Item::Mapping(entry_trees(entries@))),
            r matches Ok(value) ==> value.wf(),
        decreases entries, 1nat,
    {
        let ghost all = entry_trees(entries@);
        let ghost mut pairs: Seq<(Seq<char>, Data)> = Seq::empty();
        let mut values = IpldMap::new();
        let mut i: usize = 0;
        proof {
            lemma_entry_trees(entries@);
        }
        while i < entries.len()
            invariant
                all == entry_trees(entries@),
                all.len() == entries.len(),
                forall|j: int|
                    0 <= j < entries.len() ==> (#[trigger] all[j]) == (
                        entries@[j].0@,
                        entries@[j].1@,
                    ),
                i <= entries.len(),
                decoded_pairs(all.take(i as int)) == Ok::<Seq<(Seq<char>, Data)>, DecodeError>(
                    pairs,
                ),
                values@ == collect(pairs),
                values.wf(),
            decreases entries.len() - i,
        {
            proof {
                assert(decreases_to!(*entries => entries@));
                assert(decreases_to!(entries@ => entries@[i as int]));
                assert(decreases_to!(entries@[i as int] => entries@[i as int].1));
                lemma_pairs_step(all, i as int);
            }
            let key = match &entries[i].0 {
                Raw::Text(text) => text.clone(),
                _ => {
                    proof {
                        lemma_pairs_failed(all, i + 1);
                    }
                    return Err(DecodeError::TextKeyExpected);
                },
            };
            match Ipld::deserialize(&entries[i].1) {
                Ok(value) => {
                    proof {
                        let front = pairs;
                        pairs = front.push((key@, value@));
                        assert(pairs.drop_last() =~= front);
                    }
                    values.insert(key, value);
                },
                Err(e) => {
                    proof {
                        lemma_pairs_failed(all, i + 1);
                    }
                    return Err(e);
                },
            }
            i += 1;
        }
        proof {
            assert(all.take(i as int) =~= all);
        }
        Ok(Ipld::Mapping(values))
    }

    /// A tagged value, entered with `tag` active: under the link tag a payload that decodes to
    /// a byte string is a link; any other payload, any other tag, and no tag at all fail.
    pub fn visit_newtype_struct(self, tag: Option<u64>, payload: &Raw) -> (r: Result<
        Ipld,
        DecodeError,
    >)
        ensures
            outcome(r) == tagged(tag, payload@),
            r matches Ok(value) ==> value.wf(),
        decreases payload, 1nat,
    {
        match tag {
            Some(found) => if found == CBOR_TAG_CID {
                match Ipld::deserialize(payload) {
                    Ok(Ipld::Bytes(link)) => Ok(Ipld::Link(link)),
                    _ => Err(DecodeError::BytesExpected),
                }
            } else {
                Err(DecodeError::UnexpectedTag(found))
            },
            None => Err(DecodeError::TagExpected),
        }
    }
}

impl Ipld {
    /// Decodes one data item, with all that it holds.
    pub fn deserialize(item: &Raw) -> (r: Result<Ipld, DecodeError>)
        ensures
            outcome(r) == decoded(item@),
            r matches Ok(value) ==> value.wf(),
        decreases item, 0nat,
    {
        let visitor = IpldVisitor;
        match item {
            Raw::Null => Ok(visitor.visit_unit()),
            Raw::Bool(b) => Ok(visitor.visit_bool(*b)),
            Raw::Integer(i) => Ok(visitor.visit_i128(*i)),
            Raw::Float(bits) => Ok(visitor.visit_f64(*bits)),
            Raw::Bytes(bytes) => Ok(visitor.visit_bytes(bytes.as_slice())),
            Raw::Text(text) => Ok(visitor.visit_str(text.as_str())),
            Raw::Array(items) => visitor.visit_seq(items),
            Raw::Mapping(entries) => visitor.visit_map(entries),
            Raw::Tag(tag, inner) => visitor.visit_newtype_struct(Some(*tag), inner),
        }
    }
}

} // verus!

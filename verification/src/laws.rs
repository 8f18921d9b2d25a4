//! What holds of every decode, proved from the definitions.

use vstd::prelude::*;

use crate::raw::Item;
use crate::cid::CBOR_TAG_CID;
use crate::error::DecodeError;
use crate::value::{
    collect, keys_ascending, lemma_collect_ascending, lemma_collect_last_wins,
    lemma_collect_ascending_same, lemma_collect_values_wf, lookup, values_wf, Data,
};
use crate::visitor::{decoded, decoded_list, decoded_pairs, tagged};

verus! {

/// A list decodes exactly when each of its items does, and then holds their values in the
/// order of the items.
pub proof fn lemma_list_keeps_order(items: Seq<Item>)
    ensures
        decoded_list(items) is Ok <==> forall|i: int|
            0 <= i < items.len() ==> (#[trigger] decoded(items[i])) is Ok,
        decoded_list(items) matches Ok(list) ==> {
            &&& list.len() == items.len()
            &&& forall|i: int|
                0 <= i < items.len() ==> decoded(items[i]) == Ok::<Data, DecodeError>(
                    #[trigger] list[i],
                )
        },
    decreases items.len(),
{
    if items.len() > 0 {
        let front = items.drop_last();
        lemma_list_keeps_order(front);
        assert forall|i: int| 0 <= i < front.len() implies front[i] == items[i] by {}
        if decoded_list(items) is Ok {
            let list = decoded_list(items)->Ok_0;
            assert forall|i: int| 0 <= i < items.len() implies decoded(items[i]) == Ok::<
                Data,
                DecodeError,
            >(#[trigger] list[i]) by {}
        } else if decoded_list(front) is Ok {
            assert(decoded(items[items.len() - 1]) is Err);
        }
    }
}

/// A list that does not decode fails with the error of its first item that does not.
pub proof fn lemma_list_first_failure(items: Seq<Item>) -> (at: int)
    requires
        decoded_list(items) is Err,
    ensures
        0 <= at < items.len(),
        forall|i: int| 0 <= i < at ==> (#[trigger] decoded(items[i])) is Ok,
        decoded(items[at]) is Err,
        decoded_list(items)->Err_0 == decoded(items[at])->Err_0,
    decreases items.len(),
{
    let front = items.drop_last();
    assert forall|i: int| 0 <= i < front.len() implies front[i] == items[i] by {}
    if decoded_list(front) is Err {
        lemma_list_first_failure(front)
    } else {
        lemma_list_keeps_order(front);
        items.len() - 1
    }
}

/// The entries of a mapping that decodes all have text keys and values that decode, and the
/// pairs written into the mapping are those keys and values in the order of the entries.
pub proof fn lemma_pairs_keep_order(entries: Seq<(Item, Item)>)
    ensures
        decoded_pairs(entries) matches Ok(pairs) ==> {
            &&& pairs.len() == entries.len()
            &&& forall|i: int|
                0 <= i < entries.len() ==> {
                    &&& entries[i].0 == Item::Text((#[trigger] pairs[i]).0)
                    &&& decoded(entries[i].1) == Ok::<Data, DecodeError>(pairs[i].1)
                }
        },
    decreases entries.len(),
{
    if entries.len() > 0 {
        let front = entries.drop_last();
        lemma_pairs_keep_order(front);
        if decoded_pairs(entries) is Ok {
            let pairs = decoded_pairs(entries)->Ok_0;
            assert forall|i: int| 0 <= i < entries.len() implies {
                &&& entries[i].0 == Item::Text((#[trigger] pairs[i]).0)
                &&& decoded(entries[i].1) == Ok::<Data, DecodeError>(pairs[i].1)
            } by {
                if i < front.len() {
                    assert(front[i] == entries[i]);
                }
            }
        }
    }
}

/// In a decoded mapping the keys ascend, and each key holds the value that was written last
/// under it.
pub proof fn lemma_mapping_last_wins(entries: Seq<(Item, Item)>, key: Seq<char>)
    requires
        decoded_pairs(entries) is Ok,
    ensures
        decoded(Item::Mapping(entries)) matches Ok(Data::Mapping(mapping)) && keys_ascending(
            mapping,
        ) && lookup(mapping, key) == lookup(decoded_pairs(entries)->Ok_0, key),
{
    let pairs = decoded_pairs(entries)->Ok_0;
    lemma_collect_ascending(pairs);
    lemma_collect_last_wins(pairs, key);
}

/// Only the link tag gives a value, and that value is a link with the bytes of the payload:
/// a tagged byte string is never handed on as plain bytes.
pub proof fn lemma_tagged_is_link(tag: Option<u64>, payload: Item)
    ensures
        tagged(tag, payload) matches Ok(value) ==> {
            &&& tag == Some(CBOR_TAG_CID)
            &&& value matches Data::Link(bytes) && decoded(payload) == Ok::<Data, DecodeError>(
                Data::Bytes(bytes),
            )
        },
        tag matches Some(found) ==> (found != CBOR_TAG_CID ==> tagged(tag, payload) == Err::<
            Data,
            DecodeError,
        >(DecodeError::UnexpectedTag(found))),
        tag is None ==> tagged(tag, payload) == Err::<Data, DecodeError>(DecodeError::TagExpected),
{
}

/// A link comes only from the link tag over a payload that decodes to a byte string, and plain
/// bytes come only from an untagged byte string: the two are never taken for each other.
pub proof fn lemma_link_only_from_tag(item: Item)
    ensures
        decoded(item) matches Ok(Data::Link(bytes)) ==> item matches Item::Tag(tag, inner) && tag
            == CBOR_TAG_CID && decoded(*inner) == Ok::<Data, DecodeError>(Data::Bytes(bytes)),
        decoded(item) matches Ok(Data::Bytes(bytes)) ==> item == Item::Bytes(bytes),
{
}

/// An empty sequence decodes to the empty list and an empty map to the empty mapping.
pub proof fn lemma_empty_containers()
    ensures
        decoded(Item::Array(Seq::empty())) == Ok::<Data, DecodeError>(Data::List(Seq::empty())),
        decoded(Item::Mapping(Seq::empty())) == Ok::<Data, DecodeError>(
            Data::Mapping(Seq::empty()),
        ),
{
}

/// The values of a decoded list are well formed.
proof fn lemma_decoded_list_wf(items: Seq<Item>)
    ensures
        decoded_list(items) matches Ok(list) ==> forall|i: int|
            0 <= i < list.len() ==> (#[trigger] list[i]).wf(),
    decreases items, 0nat,
{
    if items.len() > 0 {
        lemma_decoded_list_wf(items.drop_last());
        lemma_decoded_wf(items.last());
    }
}

/// The values of decoded entries are well formed.
proof fn lemma_decoded_pairs_wf(entries: Seq<(Item, Item)>)
    ensures
        decoded_pairs(entries) matches Ok(pairs) ==> values_wf(pairs),
    decreases entries, 0nat,
{
    if entries.len() > 0 {
        lemma_decoded_pairs_wf(entries.drop_last());
        lemma_decoded_wf(entries.last().1);
    }
}

/// Every value that a decode gives is well formed: each mapping in it, at any depth, holds its
/// keys in ascending order, whatever the order of the entries was.
pub proof fn lemma_decoded_wf(item: Item)
    ensures
        decoded(item) matches Ok(value) ==> value.wf(),
    decreases item, 1nat,
{
    match item {
        Item::Array(items) => {
            lemma_decoded_list_wf(items);
        },
        Item::Mapping(entries) => {
            lemma_decoded_pairs_wf(entries);
            if decoded_pairs(entries) is Ok {
                lemma_collect_ascending(decoded_pairs(entries)->Ok_0);
                lemma_collect_values_wf(decoded_pairs(entries)->Ok_0);
            }
        },
        _ => {},
    }
}

/// The data item that stands for a value: a link as its bytes under the link tag, a mapping
/// with its keys as text, everything else as the item of its own kind.
pub open spec fn item_of(value: Data) -> Item
    decreases value,
{
    match value {
        Data::Null => Item::Null,
        Data::Bool(b) => Item::Bool(b),
        Data::Integer(i) => Item::Integer(i),
        Data::Float(bits) => Item::Float(bits),
        Data::Text(text) => Item::Text(text),
        Data::Bytes(bytes) => Item::Bytes(bytes),
        Data::List(items) => Item::Array(
            Seq::new(
                items.len(),
                |i: int|
                    if 0 <= i < items.len() {
                        item_of(items[i])
                    } else {
                        Item::Null
                    },
            ),
        ),
        Data::Mapping(entries) => Item::Mapping(
            Seq::new(
                entries.len(),
                |i: int|
                    if 0 <= i < entries.len() {
                        (Item::Text(entries[i].0), item_of(entries[i].1))
                    } else {
                        (Item::Null, Item::Null)
                    },
            ),
        ),
        Data::Link(bytes) => Item::Tag(CBOR_TAG_CID, Box::new(Item::Bytes(bytes))),
    }
}

/// The items that stand for the first `upto` values of a list decode to those values.
proof fn lemma_list_round_trip(items: Seq<Data>, coded: Seq<Item>, upto: int)
    requires
        0 <= upto <= items.len(),
        coded.len() == items.len(),
        forall|i: int| 0 <= i < items.len() ==> coded[i] == item_of(#[trigger] items[i]),
        forall|i: int| 0 <= i < items.len() ==> (#[trigger] items[i]).wf(),
    ensures
        decoded_list(coded.take(upto)) == Ok::<Seq<Data>, DecodeError>(items.take(upto)),
    decreases items, upto,
{
    if upto == 0 {
        assert(items.take(upto) =~= Seq::empty());
    } else {
        lemma_list_round_trip(items, coded, upto - 1);
        lemma_round_trip(items[upto - 1]);
        assert(coded.take(upto).drop_last() =~= coded.take(upto - 1));
        assert(items.take(upto - 1).push(items[upto - 1]) =~= items.take(upto));
    }
}

/// The entries that stand for the first `upto` entries of a mapping decode to those entries.
proof fn lemma_pairs_round_trip(
    entries: Seq<(Seq<char>, Data)>,
    coded: Seq<(Item, Item)>,
    upto: int,
)
    requires
        0 <= upto <= entries.len(),
        coded.len() == entries.len(),
        forall|i: int|
            0 <= i < entries.len() ==> coded[i] == (
                Item::Text((#[trigger] entries[i]).0),
                item_of(entries[i].1),
            ),
        forall|i: int| 0 <= i < entries.len() ==> (#[trigger] entries[i]).1.wf(),
    ensures
        decoded_pairs(coded.take(upto)) == Ok::<Seq<(Seq<char>, Data)>, DecodeError>(
            entries.take(upto),
        ),
    decreases entries, upto,
{
    if upto == 0 {
        assert(entries.take(upto) =~= Seq::empty());
    } else {
        lemma_pairs_round_trip(entries, coded, upto - 1);
        lemma_round_trip(entries[upto - 1].1);
        assert(coded.take(upto).drop_last() =~= coded.take(upto - 1));
        assert(entries.take(upto - 1).push(entries[upto - 1]) =~= entries.take(upto));
    }
}

/// Decoding the data item that stands for a well-formed value gives that value back.
pub proof fn lemma_round_trip(value: Data)
    requires
        value.wf(),
    ensures
        decoded(item_of(value)) == Ok::<Data, DecodeError>(value),
    decreases value, 0nat,
{
    match value {
        Data::List(items) => {
            let coded = item_of(value)->Array_0;
            lemma_list_round_trip(items, coded, items.len() as int);
            assert(coded.take(items.len() as int) =~= coded);
            assert(items.take(items.len() as int) =~= items);
        },
        Data::Mapping(entries) => {
            let coded = item_of(value)->Mapping_0;
            lemma_pairs_round_trip(entries, coded, entries.len() as int);
            assert(coded.take(entries.len() as int) =~= coded);
            assert(entries.take(entries.len() as int) =~= entries);
            lemma_collect_ascending_same(entries);
        },
        Data::Link(bytes) => {
            assert(tagged(Some(CBOR_TAG_CID), Item::Bytes(bytes)) == Ok::<Data, DecodeError>(
                Data::Link(bytes),
            ));
        },
        _ => {},
    }
}

} // verus!

//! Data items as the engine announces them, before anything is decided about them.

use vstd::prelude::*;

verus! {

/// A data item as a tree.
#[verifier::ext_equal]
pub enum Item {
    Null,
    Bool(bool),
    Integer(int),
    /// The bit pattern of a 64-bit binary float.
    Float(u64),
    Bytes(Seq<u8>),
    Text(Seq<char>),
    Array(Seq<Item>),
    /// Every entry that was announced, in the order of the announcements: an entry with the
    /// key of an earlier one is an entry of its own.
    Mapping(Seq<(Item, Item)>),
    Tag(u64, Box<Item>),
}

/// A data item as it was announced. A map holds its entries as they came: in wire order, and
/// a key that came twice has two entries.
#[derive(Debug, PartialEq)]
pub enum Raw {
    Null,
    Bool(bool),
    Integer(i128),
    /// The bit pattern of the float.
    Float(u64),
    Bytes(Vec<u8>),
    Text(String),
    Array(Vec<Raw>),
    Mapping(Vec<(Raw, Raw)>),
    Tag(u64, Box<Raw>),
}

/// The tree of an item.
pub open spec fn tree(item: Raw) -> Item
    decreases item,
{
    match item {
        Raw::Null => Item::Null,
        Raw::Bool(b) => Item::Bool(b),
        Raw::Integer(i) => Item::Integer(i as int),
        Raw::Float(bits) => Item::Float(bits),
        Raw::Bytes(bytes) => Item::Bytes(bytes@),
        Raw::Text(text) => Item::Text(text@),
        Raw::Array(items) => Item::Array(trees(items@)),
        Raw::Mapping(entries) => Item::Mapping(entry_trees(entries@)),
        Raw::Tag(tag, inner) => Item::Tag(tag, Box::new(tree(*inner))),
    }
}

/// The trees of a run of items, one for one.
pub open spec fn trees(items: Seq<Raw>) -> Seq<Item>
    decreases items,
{
    Seq::new(
        items.len(),
        |i: int|
            if 0 <= i < items.len() {
                tree(items[i])
            } else {
                Item::Null
            },
    )
}

/// The trees of a run of key-value entries, one for one.
pub open spec fn entry_trees(entries: Seq<(Raw, Raw)>) -> Seq<(Item, Item)>
    decreases entries,
{
    Seq::new(
        entries.len(),
        |i: int|
            if 0 <= i < entries.len() {
                (tree(entries[i].0), tree(entries[i].1))
            } else {
                (Item::Null, Item::Null)
            },
    )
}

impl View for Raw {
    type V = Item;

    /// The tree of the item.
    open spec fn view(&self) -> Item {
        tree(*self)
    }
}

/// The trees of a run are as many as its items, each the tree of its item.
pub proof fn lemma_trees(items: Seq<Raw>)
    ensures
        trees(items).len() == items.len(),
        forall|i: int| 0 <= i < items.len() ==> (#[trigger] trees(items)[i]) == items[i]@,
{
}

/// The trees of a run of entries are as many as the entries, each the trees of its entry.
pub proof fn lemma_entry_trees(entries: Seq<(Raw, Raw)>)
    ensures
        entry_trees(entries).len() == entries.len(),
        forall|i: int|
            0 <= i < entries.len() ==> (#[trigger] entry_trees(entries)[i]) == (
                entries[i].0@,
                entries[i].1@,
            ),
{
}

} // verus!

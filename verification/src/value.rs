//! The value model: what a decoded value is, and the exec types that hold one.

use vstd::prelude::*;
use vstd::std_specs::cmp::PartialEqSpec;

use crate::text::{
    compare, lemma_text_lt_irreflexive, lemma_text_lt_total, lemma_text_lt_transitive, text_lt,
    Order,
};

verus! {

/// A value as mathematics sees it.
#[verifier::ext_equal]
pub enum Data {
    Null,
    Bool(bool),
    Integer(int),
    /// The bit pattern of a 64-bit binary float.
    Float(u64),
    Text(Seq<char>),
    Bytes(Seq<u8>),
    List(Seq<Data>),
    /// The entries in the order in which the mapping is walked.
    Mapping(Seq<(Seq<char>, Data)>),
    Link(Seq<u8>),
}

/// Each key sorts strictly before every later one, so no key occurs twice.
pub open spec fn keys_ascending(entries: Seq<(Seq<char>, Data)>) -> bool {
    forall|i: int, j: int|
        0 <= i < j < entries.len() ==> text_lt(#[trigger] entries[i].0, #[trigger] entries[j].0)
}

/// Every value of the entries is well formed.
pub open spec fn values_wf(entries: Seq<(Seq<char>, Data)>) -> bool {
    forall|i: int| 0 <= i < entries.len() ==> (#[trigger] entries[i]).1.wf()
}

impl Data {
    /// Every mapping in the value, at any depth, holds its keys in ascending order.
    pub open spec fn wf(self) -> bool
        decreases self,
    {
        match self {
            Data::List(items) => forall|i: int|
                0 <= i < items.len() ==> (#[trigger] items[i]).wf(),
            Data::Mapping(entries) => {
                &&& keys_ascending(entries)
                &&& forall|i: int| 0 <= i < entries.len() ==> (#[trigger] entries[i]).1.wf()
            },
            _ => true,
        }
    }
}

/// The value written last under `key`, if any was.
pub open spec fn lookup(entries: Seq<(Seq<char>, Data)>, key: Seq<char>) -> Option<Data>
    decreases entries.len(),
{
    if entries.len() == 0 {
        None
    } else if entries.last().0 == key {
        Some(entries.last().1)
    } else {
        lookup(entries.drop_last(), key)
    }
}

/// Where `key` belongs: behind it stand only entries with a larger key.
pub open spec fn slot(entries: Seq<(Seq<char>, Data)>, key: Seq<char>) -> int
    decreases entries.len(),
{
    if entries.len() > 0 && text_lt(key, entries.last().0) {
        slot(entries.drop_last(), key)
    } else {
        entries.len() as int
    }
}

/// `entries` with `value` written under `key`: over the entry of that key where there is one,
/// else as a new entry at the key's slot.
pub open spec fn put(entries: Seq<(Seq<char>, Data)>, key: Seq<char>, value: Data) -> Seq<
    (Seq<char>, Data),
> {
    let at = slot(entries, key);
    if at > 0 && entries[at - 1].0 == key {
        entries.update(at - 1, (key, value))
    } else {
        entries.insert(at, (key, value))
    }
}

/// The mapping that results from writing `pairs` one after the other, first to last.
pub open spec fn collect(pairs: Seq<(Seq<char>, Data)>) -> Seq<(Seq<char>, Data)>
    decreases pairs.len(),
{
    if pairs.len() == 0 {
        Seq::empty()
    } else {
        put(collect(pairs.drop_last()), pairs.last().0, pairs.last().1)
    }
}

/// The slot lies within the entries, with only larger keys from it on and none just before it.
pub proof fn lemma_slot(entries: Seq<(Seq<char>, Data)>, key: Seq<char>)
    ensures
        0 <= slot(entries, key) <= entries.len(),
        forall|j: int|
            slot(entries, key) <= j < entries.len() ==> text_lt(key, #[trigger] entries[j].0),
        slot(entries, key) > 0 ==> !text_lt(key, entries[slot(entries, key) - 1].0),
    decreases entries.len(),
{
    if entries.len() > 0 && text_lt(key, entries.last().0) {
        let front = entries.drop_last();
        lemma_slot(front, key);
        assert forall|j: int| slot(entries, key) <= j < entries.len() implies text_lt(
            key,
            #[trigger] entries[j].0,
        ) by {
            if j < front.len() {
                assert(front[j] == entries[j]);
            }
        }
    }
}

/// A position with only larger keys from it on and none just before it is the slot.
pub proof fn lemma_slot_is(entries: Seq<(Seq<char>, Data)>, key: Seq<char>, at: int)
    requires
        0 <= at <= entries.len(),
        forall|j: int| at <= j < entries.len() ==> text_lt(key, #[trigger] entries[j].0),
        at > 0 ==> !text_lt(key, entries[at - 1].0),
    ensures
        slot(entries, key) == at,
    decreases entries.len(),
{
    if at < entries.len() {
        let front = entries.drop_last();
        lemma_slot_is(front, key, at);
    }
}

/// Writing into ascending entries leaves them ascending.
pub proof fn lemma_put_ascending(entries: Seq<(Seq<char>, Data)>, key: Seq<char>, value: Data)
    requires
        keys_ascending(entries),
    ensures
        keys_ascending(put(entries, key, value)),
{
    let at = slot(entries, key);
    let after = put(entries, key, value);
    lemma_slot(entries, key);
    if !(at > 0 && entries[at - 1].0 == key) {
        assert forall|i: int, j: int| 0 <= i < j < after.len() implies text_lt(
            #[trigger] after[i].0,
            #[trigger] after[j].0,
        ) by {
            if j == at {
                lemma_text_lt_total(entries[at - 1].0, key);
                if i < at - 1 {
                    lemma_text_lt_transitive(entries[i].0, entries[at - 1].0, key);
                }
            } else if i < at && j > at && i == j - 1 {
                lemma_text_lt_total(entries[at - 1].0, key);
                lemma_text_lt_transitive(entries[i].0, key, entries[j - 1].0);
            }
        }
    }
}

/// Writing adds no value but the one written.
pub proof fn lemma_put_values_wf(entries: Seq<(Seq<char>, Data)>, key: Seq<char>, value: Data)
    requires
        values_wf(entries),
        value.wf(),
    ensures
        values_wf(put(entries, key, value)),
{
    let at = slot(entries, key);
    let after = put(entries, key, value);
    lemma_slot(entries, key);
    assert forall|i: int| 0 <= i < after.len() implies (#[trigger] after[i]).1.wf() by {
        if at > 0 && entries[at - 1].0 == key {
            if i != at - 1 {
                assert(after[i] == entries[i]);
            }
        } else if i < at {
            assert(after[i] == entries[i]);
        } else if i > at {
            assert(after[i] == entries[i - 1]);
        }
    }
}

/// No key behind position `i` of ascending entries equals the key at `i`.
proof fn lemma_ascending_distinct(entries: Seq<(Seq<char>, Data)>, i: int, j: int)
    requires
        keys_ascending(entries),
        0 <= i < j < entries.len(),
    ensures
        entries[i].0 != entries[j].0,
{
    lemma_text_lt_irreflexive(entries[i].0);
}

/// In ascending entries a key that is there is found with its value.
pub proof fn lemma_lookup_found(entries: Seq<(Seq<char>, Data)>, i: int)
    requires
        keys_ascending(entries),
        0 <= i < entries.len(),
    ensures
        lookup(entries, entries[i].0) == Some(entries[i].1),
    decreases entries.len(),
{
    if i < entries.len() - 1 {
        lemma_ascending_distinct(entries, i, entries.len() - 1);
        lemma_lookup_found(entries.drop_last(), i);
    }
}

/// A key that no entry has is not found.
pub proof fn lemma_lookup_absent(entries: Seq<(Seq<char>, Data)>, key: Seq<char>)
    requires
        forall|i: int| 0 <= i < entries.len() ==> (#[trigger] entries[i]).0 != key,
    ensures
        lookup(entries, key) is None,
    decreases entries.len(),
{
    if entries.len() > 0 {
        lemma_lookup_absent(entries.drop_last(), key);
    }
}

/// What is found is the value of some entry with that key.
pub proof fn lemma_lookup_some(entries: Seq<(Seq<char>, Data)>, key: Seq<char>) -> (i: int)
    requires
        lookup(entries, key) is Some,
    ensures
        0 <= i < entries.len(),
        entries[i].0 == key,
        lookup(entries, key) == Some(entries[i].1),
    decreases entries.len(),
{
    if entries.last().0 == key {
        entries.len() - 1
    } else {
        lemma_lookup_some(entries.drop_last(), key)
    }
}

/// After a write the key holds the value written, and every other key what it held before.
pub proof fn lemma_put_lookup(
    entries: Seq<(Seq<char>, Data)>,
    key: Seq<char>,
    value: Data,
    other: Seq<char>,
)
    requires
        keys_ascending(entries),
    ensures
        lookup(put(entries, key, value), other) == if other == key {
            Some(value)
        } else {
            lookup(entries, other)
        },
{
    let at = slot(entries, key);
    let after = put(entries, key, value);
    let replaced = at > 0 && entries[at - 1].0 == key;
    let spot = if replaced { at - 1 } else { at };
    lemma_slot(entries, key);
    lemma_put_ascending(entries, key, value);
    if other == key {
        lemma_lookup_found(after, spot);
    } else if lookup(entries, other) is Some {
        let i = lemma_lookup_some(entries, other);
        lemma_lookup_found(entries, i);
        let moved = if replaced || i < at { i } else { i + 1 };
        lemma_lookup_found(after, moved);
    } else {
        assert forall|i: int| 0 <= i < after.len() implies (#[trigger] after[i]).0 != other by {
            if i != spot {
                let from = if replaced || i < at { i } else { i - 1 };
                if entries[from].0 == other {
                    lemma_lookup_found(entries, from);
                }
            }
        }
        lemma_lookup_absent(after, other);
    }
}

/// However the pairs came, the mapping collected from them is ascending.
pub proof fn lemma_collect_ascending(pairs: Seq<(Seq<char>, Data)>)
    ensures
        keys_ascending(collect(pairs)),
    decreases pairs.len(),
{
    if pairs.len() > 0 {
        lemma_collect_ascending(pairs.drop_last());
        lemma_put_ascending(collect(pairs.drop_last()), pairs.last().0, pairs.last().1);
    }
}

/// The mapping collected from well-formed values holds well-formed values.
pub proof fn lemma_collect_values_wf(pairs: Seq<(Seq<char>, Data)>)
    requires
        values_wf(pairs),
    ensures
        values_wf(collect(pairs)),
    decreases pairs.len(),
{
    if pairs.len() > 0 {
        let front = pairs.drop_last();
        lemma_collect_values_wf(front);
        lemma_put_values_wf(collect(front), pairs.last().0, pairs.last().1);
    }
}

/// Under each key the collected mapping holds the value that was written last under it.
pub proof fn lemma_collect_last_wins(pairs: Seq<(Seq<char>, Data)>, key: Seq<char>)
    ensures
        lookup(collect(pairs), key) == lookup(pairs, key),
    decreases pairs.len(),
{
    if pairs.len() > 0 {
        let front = pairs.drop_last();
        lemma_collect_last_wins(front, key);
        lemma_collect_ascending(front);
        lemma_put_lookup(collect(front), pairs.last().0, pairs.last().1, key);
    }
}

/// Entries that ascend already are what collecting them gives.
pub proof fn lemma_collect_ascending_same(entries: Seq<(Seq<char>, Data)>)
    requires
        keys_ascending(entries),
    ensures
        collect(entries) == entries,
    decreases entries.len(),
{
    if entries.len() > 0 {
        let front = entries.drop_last();
        let key = entries.last().0;
        lemma_collect_ascending_same(front);
        if front.len() > 0 {
            lemma_text_lt_irreflexive(key);
            if text_lt(key, front[front.len() - 1].0) {
                lemma_text_lt_transitive(key, front[front.len() - 1].0, key);
            }
        }
        lemma_slot_is(front, key, front.len() as int);
    }
}

/// A decoded value.
#[derive(Debug)]
pub enum Ipld {
    Null,
    Bool(bool),
    Integer(i128),
    /// The bit pattern of the float, kept as it came.
    Float(u64),
    String(String),
    Bytes(Vec<u8>),
    List(Vec<Ipld>),
    Mapping(IpldMap),
    Link(Vec<u8>),
}

/// A mapping from text keys to values, walked in ascending key order.
#[derive(Debug)]
pub struct IpldMap {
    entries: Vec<(String, Ipld)>,
}

impl View for Ipld {
    type V = Data;

    /// The value that is held, without regard to how it is stored.
    open spec fn view(&self) -> Data
        decreases self,
    {
        match self {
            Ipld::Null => Data::Null,
            Ipld::Bool(b) => Data::Bool(*b),
            Ipld::Integer(i) => Data::Integer(*i as int),
            Ipld::Float(bits) => Data::Float(*bits),
            Ipld::String(s) => Data::Text(s@),
            Ipld::Bytes(b) => Data::Bytes(b@),
            Ipld::List(items) => Data::List(
                Seq::new(
                    items@.len(),
                    |i: int|
                        if 0 <= i < items@.len() {
                            items@[i].view()
                        } else {
                            Data::Null
                        },
                ),
            ),
            Ipld::Mapping(m) => Data::Mapping(m.view()),
            Ipld::Link(b) => Data::Link(b@),
        }
    }
}

impl View for IpldMap {
    type V = Seq<(Seq<char>, Data)>;

    /// The entries in the order in which the mapping is walked.
    closed spec fn view(&self) -> Seq<(Seq<char>, Data)>
        decreases self,
    {
        Seq::new(
            self.entries@.len(),
            |i: int|
                if 0 <= i < self.entries@.len() {
                    (self.entries@[i].0@, self.entries@[i].1.view())
                } else {
                    (Seq::empty(), Data::Null)
                },
        )
    }
}

/// The views of a list's items, one for one.
pub open spec fn views(items: Seq<Ipld>) -> Seq<Data> {
    Seq::new(items.len(), |i: int| items[i]@)
}

/// A list's view holds the views of its items.
pub proof fn lemma_list_view(items: Vec<Ipld>)
    ensures
        Ipld::List(items)@ == Data::List(views(items@)),
{
    reveal_with_fuel(<Ipld as View>::view, 2);
    let whole = Ipld::List(items)@;
    assert forall|i: int| 0 <= i < items@.len() implies whole->List_0[i] == views(items@)[i] by {}
    assert(whole->List_0 =~= views(items@));
}

impl Ipld {
    /// Every mapping in the value, at any depth, holds its keys in ascending order.
    pub open spec fn wf(&self) -> bool {
        self@.wf()
    }
}

impl Clone for Ipld {
    /// A copy of the whole value.
    fn clone(&self) -> (r: Ipld)
        ensures
            r@ == self@,
        decreases self,
    {
        match self {
            Ipld::Null => Ipld::Null,
            Ipld::Bool(b) => Ipld::Bool(*b),
            Ipld::Integer(i) => Ipld::Integer(*i),
            Ipld::Float(bits) => Ipld::Float(*bits),
            Ipld::String(s) => Ipld::String(s.clone()),
            Ipld::Bytes(b) => Ipld::Bytes(b.clone()),
            Ipld::List(items) => {
                let mut copy: Vec<Ipld> = Vec::new();
                let mut i: usize = 0;
                while i < items.len()
                    invariant
                        *self == Ipld::List(*items),
                        i <= items.len(),
                        copy@.len() == i,
                        forall|j: int| 0 <= j < i ==> copy@[j]@ == items@[j]@,
                    decreases items.len() - i,
                {
                    proof {
                        assert(decreases_to!(*self => self->List_0));
                    }
                    copy.push(items[i].clone());
                    i += 1;
                }
                proof {
                    lemma_list_view(copy);
                    lemma_list_view(*items);
                    assert(views(copy@) =~= views(items@));
                }
                Ipld::List(copy)
            },
            Ipld::Mapping(m) => Ipld::Mapping(m.clone()),
            Ipld::Link(b) => Ipld::Link(b.clone()),
        }
    }
}

impl Clone for IpldMap {
    /// A copy of the mapping with copies of its values.
    fn clone(&self) -> (r: IpldMap)
        ensures
            r@ == self@,
        decreases self,
    {
        let mut copy: Vec<(String, Ipld)> = Vec::new();
        let mut i: usize = 0;
        while i < self.entries.len()
            invariant
                i <= self.entries.len(),
                copy@.len() == i,
                forall|j: int|
                    0 <= j < i ==> copy@[j].0@ == self.entries@[j].0@ && copy@[j].1@
                        == self.entries@[j].1@,
            decreases self.entries.len() - i,
        {
            let key = self.entries[i].0.clone();
            let value = self.entries[i].1.clone();
            copy.push((key, value));
            i += 1;
        }
        let r = IpldMap { entries: copy };
        r
    }
}

/// Whether two byte strings hold the same bytes.
pub(crate) fn same_bytes(a: &Vec<u8>, b: &Vec<u8>) -> (r: bool)
    ensures
        r == (a@ == b@),
{
    let r = *a == *b;
    proof {
        assert(r == a.eq_spec(b));
        if r {
            assert(a@ =~= b@);
        } else if a@ == b@ {
            assert(forall|i: int| 0 <= i < a.len() ==> a[i] == b[i]);
        }
    }
    r
}

impl Ipld {
    /// Whether two values are the same value: of the same kind, with the same content.
    pub fn same(&self, other: &Ipld) -> (r: bool)
        ensures
            r == (self@ == other@),
        decreases self,
    {
        match (self, other) {
            (Ipld::Null, Ipld::Null) => true,
            (Ipld::Bool(a), Ipld::Bool(b)) => *a == *b,
            (Ipld::Integer(a), Ipld::Integer(b)) => *a == *b,
            (Ipld::Float(a), Ipld::Float(b)) => *a == *b,
            (Ipld::String(a), Ipld::String(b)) => *a == *b,
            (Ipld::Bytes(a), Ipld::Bytes(b)) => same_bytes(a, b),
            (Ipld::Link(a), Ipld::Link(b)) => same_bytes(a, b),
            (Ipld::Mapping(a), Ipld::Mapping(b)) => a.same(b),
            (Ipld::List(a), Ipld::List(b)) => {
                proof {
                    lemma_list_view(*a);
                    lemma_list_view(*b);
                }
                if a.len() != b.len() {
                    assert(views(a@).len() != views(b@).len());
                    return false;
                }
                let mut i: usize = 0;
                while i < a.len()
                    invariant
                        *self == Ipld::List(*a),
                        self@ == Data::List(views(a@)),
                        other@ == Data::List(views(b@)),
                        i <= a.len(),
                        a.len() == b.len(),
                        forall|j: int| 0 <= j < i ==> a@[j]@ == b@[j]@,
                    decreases a.len() - i,
                {
                    proof {
                        assert(decreases_to!(*self => self->List_0));
                        assert(decreases_to!(*a => a@));
                        assert(decreases_to!(a@ => a@[i as int]));
                    }
                    if !a[i].same(&b[i]) {
                        assert(views(a@)[i as int] != views(b@)[i as int]);
                        return false;
                    }
                    i += 1;
                }
                assert(views(a@) =~= views(b@));
                true
            },
            _ => false,
        }
    }
}

impl IpldMap {
    /// Whether two mappings hold the same entries.
    pub fn same(&self, other: &IpldMap) -> (r: bool)
        ensures
            r == (self@ == other@),
        decreases self,
    {
        if self.entries.len() != other.entries.len() {
            assert(self@.len() != other@.len());
            return false;
        }
        let mut i: usize = 0;
        while i < self.entries.len()
            invariant
                i <= self.entries.len(),
                self.entries.len() == other.entries.len(),
                forall|j: int| 0 <= j < i ==> self@[j] == other@[j],
            decreases self.entries.len() - i,
        {
            let equal = self.entries[i].0 == other.entries[i].0 && self.entries[i].1.same(
                &other.entries[i].1,
            );
            if !equal {
                assert(self@[i as int] != other@[i as int]);
                return false;
            }
            i += 1;
        }
        assert(self@ =~= other@);
        true
    }
}

impl PartialEq for Ipld {
    /// Values are equal when they are the same value.
    fn eq(&self, other: &Ipld) -> (r: bool) {
        self.same(other)
    }
}

impl vstd::std_specs::cmp::PartialEqSpecImpl for Ipld {
    open spec fn obeys_eq_spec() -> bool {
        true
    }

    open spec fn eq_spec(&self, other: &Ipld) -> bool {
        self@ == other@
    }
}

impl PartialEq for IpldMap {
    /// Mappings are equal when they hold the same entries.
    fn eq(&self, other: &IpldMap) -> (r: bool) {
        self.same(other)
    }
}

impl vstd::std_specs::cmp::PartialEqSpecImpl for IpldMap {
    open spec fn obeys_eq_spec() -> bool {
        true
    }

    open spec fn eq_spec(&self, other: &IpldMap) -> bool {
        self@ == other@
    }
}

impl IpldMap {
    /// The keys ascend and the values are well formed.
    pub open spec fn wf(&self) -> bool {
        keys_ascending(self@) && values_wf(self@)
    }

    /// The empty mapping.
    pub fn new() -> (m: IpldMap)
        ensures
            m@ == Seq::<(Seq<char>, Data)>::empty(),
            m.wf(),
    {
        IpldMap { entries: Vec::new() }
    }

    /// The number of entries.
    pub fn len(&self) -> (n: usize)
        ensures
            n == self@.len(),
    {
        self.entries.len()
    }

    /// Whether the mapping has no entry.
    pub fn is_empty(&self) -> (r: bool)
        ensures
            r == (self@.len() == 0),
    {
        self.entries.len() == 0
    }

    /// The entries in the order in which the mapping is walked.
    pub fn entries(&self) -> (r: &Vec<(String, Ipld)>)
        ensures
            r@.len() == self@.len(),
            forall|i: int|
                0 <= i < r@.len() ==> (#[trigger] r@[i]).0@ == self@[i].0 && r@[i].1@
                    == self@[i].1,
    {
        &self.entries
    }

    /// Writes `value` under `key`, over what the key held before.
    pub fn insert(&mut self, key: String, value: Ipld)
        ensures
            final(self)@ == put(old(self)@, key@, value@),
            old(self).wf() && value.wf() ==> final(self).wf(),
    {
        let ghost before = self@;
        let mut at: usize = self.entries.len();
        let mut found: bool = false;
        let mut placed: bool = false;
        while at > 0 && !found && !placed
            invariant
                self@ == before,
                at <= self.entries.len(),
                before.len() == self.entries.len(),
                forall|j: int| at <= j < before.len() ==> text_lt(key@, #[trigger] before[j].0),
                found ==> at > 0 && before[at - 1].0 == key@,
                placed ==> at > 0 && !text_lt(key@, before[at - 1].0) && before[at - 1].0 != key@,
            decreases at + if found || placed { 0int } else { 1int },
        {
            let order = compare(key.as_str(), self.entries[at - 1].0.as_str());
            match order {
                Order::Before => {
                    at = at - 1;
                },
                Order::Same => {
                    found = true;
                },
                Order::After => {
                    placed = true;
                },
            }
        }
        proof {
            if found {
                lemma_text_lt_irreflexive(key@);
            }
            lemma_slot_is(before, key@, at as int);
            if keys_ascending(before) && values_wf(before) && value.wf() {
                lemma_put_ascending(before, key@, value@);
                lemma_put_values_wf(before, key@, value@);
            }
        }
        let ghost written = (key@, value@);
        if found {
            self.entries[at - 1] = (key, value);
        } else {
            self.entries.insert(at, (key, value));
        }
        assert(self@ =~= put(before, written.0, written.1));
    }

    /// The value under `key`, if the mapping has that key.
    pub fn get(&self, key: &str) -> (r: Option<&Ipld>)
        ensures
            match r {
                Some(value) => lookup(self@, key@) == Some(value@),
                None => lookup(self@, key@) is None,
            },
    {
        let mut i: usize = self.entries.len();
        assert(self@.take(i as int) =~= self@);
        while i > 0
            invariant
                i <= self.entries.len(),
                self@.len() == self.entries.len(),
                lookup(self@, key@) == lookup(self@.take(i as int), key@),
            decreases i,
        {
            assert(self@.take(i as int).drop_last() =~= self@.take(i - 1));
            match compare(key, self.entries[i - 1].0.as_str()) {
                Order::Same => {
                    return Some(&self.entries[i - 1].1);
                },
                _ => {
                    proof {
                        lemma_text_lt_irreflexive(key@);
                    }
                    i -= 1;
                },
            }
        }
        None
    }
}

} // verus!

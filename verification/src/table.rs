//! An insertion-ordered table keyed by strings: the slots keep the order in
//! which keys were first seen, a hash index finds a key's slot.

use vstd::hash_map::StringHashMap;
use vstd::prelude::*;

verus! {

/// Whether some entry of `entries` carries `key`.
pub open spec fn has_key<V>(entries: Seq<(Seq<char>, V)>, key: Seq<char>) -> bool {
    exists|i: int| 0 <= i < entries.len() && (#[trigger] entries[i]).0 == key
}

/// The position of an entry that carries `key`, where there is one.
pub open spec fn slot_of<V>(entries: Seq<(Seq<char>, V)>, key: Seq<char>) -> int {
    choose|i: int| 0 <= i < entries.len() && (#[trigger] entries[i]).0 == key
}

/// No key is carried by two entries.
pub open spec fn distinct_keys<V>(entries: Seq<(Seq<char>, V)>) -> bool {
    forall|i: int, j: int|
        0 <= i < entries.len() && 0 <= j < entries.len() && i != j ==> (#[trigger] entries[i]).0
            != (#[trigger] entries[j]).0
}

/// With distinct keys, the entry at `i` is the one that `slot_of` finds.
pub proof fn lemma_slot_of<V>(entries: Seq<(Seq<char>, V)>, i: int)
    requires
        distinct_keys(entries),
        0 <= i < entries.len(),
    ensures
        has_key(entries, entries[i].0),
        slot_of(entries, entries[i].0) == i,
{
    let key = entries[i].0;
    assert(has_key(entries, key));
    let j = slot_of(entries, key);
    assert(0 <= j < entries.len() && entries[j].0 == key);
}

/// The entries of `entries` whose value `f` keeps, each with its key and the
/// value that `f` gives it, in the same order.
pub open spec fn select<V, W>(entries: Seq<(Seq<char>, V)>, f: spec_fn(V) -> Option<W>) -> Seq<
    (Seq<char>, W),
>
    decreases entries.len(),
{
    if entries.len() == 0 {
        Seq::empty()
    } else {
        let rest = select(entries.drop_last(), f);
        match f(entries.last().1) {
            Some(w) => rest.push((entries.last().0, w)),
            None => rest,
        }
    }
}

/// Whether `item` is what `f` makes of some entry of `entries`.
pub open spec fn comes_from<V, W>(
    entries: Seq<(Seq<char>, V)>,
    f: spec_fn(V) -> Option<W>,
    item: (Seq<char>, W),
) -> bool {
    exists|i: int|
        0 <= i < entries.len() && (#[trigger] entries[i]).0 == item.0 && f(entries[i].1) == Some(
            item.1,
        )
}

/// Selecting from one entry more adds what `f` makes of that entry, if anything.
pub proof fn lemma_select_step<V, W>(
    entries: Seq<(Seq<char>, V)>,
    f: spec_fn(V) -> Option<W>,
    i: int,
)
    requires
        0 <= i < entries.len(),
    ensures
        select(entries.take(i + 1), f) == match f(entries[i].1) {
            Some(w) => select(entries.take(i), f).push((entries[i].0, w)),
            None => select(entries.take(i), f),
        },
{
    assert(entries.take(i + 1).drop_last() =~= entries.take(i));
    assert(entries.take(i + 1).last() == entries[i]);
}

/// Every selected item comes from an entry, and no more items are selected
/// than there are entries.
pub proof fn lemma_select_sources<V, W>(entries: Seq<(Seq<char>, V)>, f: spec_fn(V) -> Option<W>)
    ensures
        select(entries, f).len() <= entries.len(),
        forall|j: int|
            0 <= j < select(entries, f).len() ==> comes_from(
                entries,
                f,
                #[trigger] select(entries, f)[j],
            ),
    decreases entries.len(),
{
    if entries.len() > 0 {
        let rest = entries.drop_last();
        let last = entries.last();
        let out = select(entries, f);
        lemma_select_sources(rest, f);
        assert forall|j: int| 0 <= j < out.len() implies comes_from(entries, f, #[trigger] out[j]) by {
            if j < select(rest, f).len() {
                assert(out[j] == select(rest, f)[j]);
                assert(comes_from(rest, f, select(rest, f)[j]));
                let i = choose|i: int|
                    0 <= i < rest.len() && (#[trigger] rest[i]).0 == out[j].0 && f(rest[i].1)
                        == Some(out[j].1);
                assert(entries[i] == rest[i]);
            } else {
                assert(entries[entries.len() - 1] == last);
            }
        }
    }
}

/// Selecting from entries with distinct keys gives items with distinct keys.
pub proof fn lemma_select_distinct<V, W>(entries: Seq<(Seq<char>, V)>, f: spec_fn(V) -> Option<W>)
    requires
        distinct_keys(entries),
    ensures
        distinct_keys(select(entries, f)),
    decreases entries.len(),
{
    if entries.len() > 0 {
        let rest = entries.drop_last();
        let last = entries.last();
        let out = select(entries, f);
        assert(distinct_keys(rest)) by {
            assert forall|i: int, j: int|
                0 <= i < rest.len() && 0 <= j < rest.len() && i != j implies (#[trigger] rest[i]).0
                != (#[trigger] rest[j]).0 by {
                assert(rest[i] == entries[i] && rest[j] == entries[j]);
            }
        }
        lemma_select_distinct(rest, f);
        lemma_select_sources(rest, f);
        assert forall|j: int| 0 <= j < select(rest, f).len() implies (#[trigger] select(
            rest,
            f,
        )[j]).0 != last.0 by {
            assert(comes_from(rest, f, select(rest, f)[j]));
            let i = choose|i: int|
                0 <= i < rest.len() && (#[trigger] rest[i]).0 == select(rest, f)[j].0 && f(
                    rest[i].1,
                ) == Some(select(rest, f)[j].1);
            assert(rest[i] == entries[i]);
            assert(entries[entries.len() - 1] == last);
        }
    }
}

/// An entry whose value `f` keeps is among the selected items, with the
/// value that `f` gives it.
pub proof fn lemma_select_keeps<V, W>(
    entries: Seq<(Seq<char>, V)>,
    f: spec_fn(V) -> Option<W>,
    i: int,
) -> (j: int)
    requires
        0 <= i < entries.len(),
        f(entries[i].1) is Some,
    ensures
        0 <= j < select(entries, f).len(),
        select(entries, f)[j] == (entries[i].0, f(entries[i].1)->Some_0),
        has_key(select(entries, f), entries[i].0),
    decreases entries.len(),
{
    let rest = entries.drop_last();
    let out = select(entries, f);
    if i == entries.len() - 1 {
        let j = out.len() - 1;
        assert(out[j].0 == entries[i].0);
        j
    } else {
        let j = lemma_select_keeps(rest, f, i);
        assert(rest[i] == entries[i]);
        assert(out[j] == select(rest, f)[j]);
        assert(out[j].0 == entries[i].0);
        j
    }
}

/// String keys with a value each, in the order in which the keys came.
pub struct Table<V> {
    keys: Vec<String>,
    values: Vec<V>,
    index: StringHashMap<usize>,
}

impl<V> View for Table<V> {
    type V = Seq<(Seq<char>, V)>;

    closed spec fn view(&self) -> Seq<(Seq<char>, V)> {
        Seq::new(self.keys@.len(), |i: int| (self.keys@[i]@, self.values@[i]))
    }
}

impl<V: Copy> Table<V> {
    /// The index knows exactly the keys of the slots, each with its position.
    pub closed spec fn wf(&self) -> bool {
        &&& self.keys@.len() == self.values@.len()
        &&& forall|i: int|
            0 <= i < self.keys@.len() ==> self.index@.contains_key((#[trigger] self.keys@[i])@)
                && self.index@[self.keys@[i]@] == i
        &&& forall|k: Seq<char>| #[trigger]
            self.index@.contains_key(k) ==> self.index@[k] < self.keys@.len()
                && self.keys@[self.index@[k] as int]@ == k
    }

    /// A well-formed table holds no key twice.
    pub proof fn lemma_distinct(&self)
        requires
            self.wf(),
        ensures
            distinct_keys(self@),
    {
        assert forall|i: int, j: int|
            0 <= i < self@.len() && 0 <= j < self@.len() && i != j implies (#[trigger] self@[i]).0
            != (#[trigger] self@[j]).0 by {
            assert(self.index@[self.keys@[i]@] == i);
            assert(self.index@[self.keys@[j]@] == j);
        }
    }

    /// The empty table.
    pub fn new() -> (table: Self)
        ensures
            table.wf(),
            table@ == Seq::<(Seq<char>, V)>::empty(),
    {
        let table = Table { keys: Vec::new(), values: Vec::new(), index: StringHashMap::new() };
        assert(table@ =~= Seq::<(Seq<char>, V)>::empty());
        table
    }

    /// The number of entries.
    pub fn len(&self) -> (n: usize)
        requires
            self.wf(),
        ensures
            n == self@.len(),
    {
        self.keys.len()
    }

    /// The slot that holds `key`, if it is in the table.
    pub fn find(&self, key: &str) -> (slot: Option<usize>)
        requires
            self.wf(),
        ensures
            match slot {
                Some(i) => i < self@.len() && self@[i as int].0 == key@,
                None => !has_key(self@, key@),
            },
    {
        match self.index.get(key) {
            Some(i) => Some(*i),
            None => {
                assert forall|i: int| 0 <= i < self@.len() implies (#[trigger] self@[i]).0
                    != key@ by {
                    assert(self.index@.contains_key(self.keys@[i]@));
                }
                None
            },
        }
    }

    /// The key in slot `i`.
    pub fn key_at(&self, i: usize) -> (key: &String)
        requires
            self.wf(),
            i < self@.len(),
        ensures
            key@ == self@[i as int].0,
    {
        &self.keys[i]
    }

    /// The value in slot `i`.
    pub fn value_at(&self, i: usize) -> (value: V)
        requires
            self.wf(),
            i < self@.len(),
        ensures
            value == self@[i as int].1,
    {
        self.values[i]
    }

    /// Replaces the value in slot `i`.
    pub fn set(&mut self, i: usize, value: V)
        requires
            old(self).wf(),
            i < old(self)@.len(),
        ensures
            final(self).wf(),
            final(self)@ == old(self)@.update(i as int, (old(self)@[i as int].0, value)),
    {
        self.values[i] = value;
        assert(self@ =~= old(self)@.update(i as int, (old(self)@[i as int].0, value)));
    }

    /// Appends an entry for a key that the table does not hold yet.
    pub fn push(&mut self, key: String, value: V)
        requires
            old(self).wf(),
            !has_key(old(self)@, key@),
        ensures
            final(self).wf(),
            final(self)@ == old(self)@.push((key@, value)),
    {
        let at = self.keys.len();
        proof {
            assert forall|i: int| 0 <= i < self.keys@.len() implies (#[trigger] self.keys@[i])@
                != key@ by {
                assert(self@[i].0 == self.keys@[i]@);
            }
        }
        self.index.insert(key.clone(), at);
        self.keys.push(key);
        self.values.push(value);
        assert(self@ =~= old(self)@.push((key@, value)));
    }
}

} // verus!

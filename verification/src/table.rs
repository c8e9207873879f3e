//! Values by name, kept in the order of their names.

use crate::text::{
    is_before, lemma_before_irreflexive, lemma_before_total, lemma_before_transitive, same_text,
    text_before, texts,
};
use vstd::prelude::*;

verus! {

/// The value `entries` hold under `key`.
pub open spec fn lookup<V>(entries: Seq<(Seq<char>, V)>, key: Seq<char>) -> Option<V>
    decreases entries.len(),
{
    if entries.len() == 0 {
        None
    } else if entries[0].0 == key {
        Some(entries[0].1)
    } else {
        lookup(entries.skip(1), key)
    }
}

/// `entries` with `value` under `key`: in place of what was there, or where the
/// order of names puts it.
pub open spec fn inserted<V>(entries: Seq<(Seq<char>, V)>, key: Seq<char>, value: V) -> Seq<
    (Seq<char>, V),
>
    decreases entries.len(),
{
    if entries.len() == 0 {
        seq![(key, value)]
    } else if entries[0].0 == key {
        seq![(key, value)] + entries.skip(1)
    } else if text_before(key, entries[0].0) {
        seq![(key, value)] + entries
    } else {
        seq![entries[0]] + inserted(entries.skip(1), key, value)
    }
}

/// Whether `entries` are in the order of their names, each name once.
pub open spec fn in_order<V>(entries: Seq<(Seq<char>, V)>) -> bool {
    forall|i: int, j: int|
        0 <= i < j < entries.len() ==> text_before((#[trigger] entries[i]).0, (#[trigger] entries[j]).0)
}

/// The names of `entries`.
pub open spec fn names_of<V>(entries: Seq<(Seq<char>, V)>) -> Seq<Seq<char>> {
    Seq::new(entries.len(), |i: int| entries[i].0)
}

/// A value just put under a name is the one found there; every other name keeps
/// what it had.
pub proof fn lemma_lookup_inserted<V>(
    entries: Seq<(Seq<char>, V)>,
    key: Seq<char>,
    value: V,
    sought: Seq<char>,
)
    requires
        in_order(entries),
    ensures
        lookup(inserted(entries, key, value), sought) == if sought == key {
            Some(value)
        } else {
            lookup(entries, sought)
        },
    decreases entries.len(),
{
    reveal_with_fuel(lookup, 2);
    if entries.len() == 0 {
        assert(seq![(key, value)].skip(1) =~= Seq::<(Seq<char>, V)>::empty());
    } else if entries[0].0 == key {
        assert((seq![(key, value)] + entries.skip(1)).skip(1) =~= entries.skip(1));
    } else if text_before(key, entries[0].0) {
        assert((seq![(key, value)] + entries).skip(1) =~= entries);
    } else {
        assert(in_order(entries.skip(1))) by {
            assert forall|i: int, j: int| 0 <= i < j < entries.skip(1).len() implies text_before(
                (#[trigger] entries.skip(1)[i]).0,
                (#[trigger] entries.skip(1)[j]).0,
            ) by {
                assert(entries.skip(1)[i] == entries[i + 1]);
                assert(entries.skip(1)[j] == entries[j + 1]);
            }
        }
        lemma_lookup_inserted(entries.skip(1), key, value, sought);
        let rest = inserted(entries.skip(1), key, value);
        assert((seq![entries[0]] + rest).skip(1) =~= rest);
    }
}

/// Putting a value under a name keeps the names in order.
pub proof fn lemma_inserted_in_order<V>(entries: Seq<(Seq<char>, V)>, key: Seq<char>, value: V)
    requires
        in_order(entries),
    ensures
        in_order(inserted(entries, key, value)),
        forall|i: int|
            0 <= i < inserted(entries, key, value).len() ==> (#[trigger] inserted(
                entries,
                key,
                value,
            )[i]).0 == key || exists|k: int|
                0 <= k < entries.len() && inserted(entries, key, value)[i].0 == (
                #[trigger] entries[k]).0,
    decreases entries.len(),
{
    let all = inserted(entries, key, value);
    if entries.len() == 0 {
    } else if entries[0].0 == key {
        assert(all =~= entries.update(0, (key, value)));
        assert forall|i: int| 0 <= i < all.len() implies (#[trigger] all[i]).0 == key || exists|
            k: int,
        | 0 <= k < entries.len() && all[i].0 == (#[trigger] entries[k]).0 by {
            assert(all[i].0 == entries[i].0);
        }
    } else if text_before(key, entries[0].0) {
        assert forall|i: int, j: int| 0 <= i < j < all.len() implies text_before(
            (#[trigger] all[i]).0,
            (#[trigger] all[j]).0,
        ) by {
            assert(all[j] == entries[j - 1]);
            if i == 0 {
                if j > 1 {
                    lemma_before_transitive(key, entries[0].0, entries[j - 1].0);
                }
            } else {
                assert(all[i] == entries[i - 1]);
            }
        }
        assert forall|i: int| 0 <= i < all.len() implies (#[trigger] all[i]).0 == key || exists|
            k: int,
        | 0 <= k < entries.len() && all[i].0 == (#[trigger] entries[k]).0 by {
            if i > 0 {
                assert(all[i].0 == entries[i - 1].0);
            }
        }
    } else {
        let tail = entries.skip(1);
        assert forall|i: int, j: int| 0 <= i < j < tail.len() implies text_before(
            (#[trigger] tail[i]).0,
            (#[trigger] tail[j]).0,
        ) by {
            assert(tail[i] == entries[i + 1]);
            assert(tail[j] == entries[j + 1]);
        }
        lemma_inserted_in_order(tail, key, value);
        let rest = inserted(tail, key, value);
        assert(all =~= seq![entries[0]] + rest);
        lemma_before_total(key, entries[0].0);
        assert forall|i: int, j: int| 0 <= i < j < all.len() implies text_before(
            (#[trigger] all[i]).0,
            (#[trigger] all[j]).0,
        ) by {
            assert(all[j] == rest[j - 1]);
            if i == 0 {
                if rest[j - 1].0 != key {
                    let k = choose|k: int|
                        0 <= k < tail.len() && rest[j - 1].0 == (#[trigger] tail[k]).0;
                    assert(tail[k] == entries[k + 1]);
                }
            } else {
                assert(all[i] == rest[i - 1]);
            }
        }
        assert forall|i: int| 0 <= i < all.len() implies (#[trigger] all[i]).0 == key || exists|
            k: int,
        | 0 <= k < entries.len() && all[i].0 == (#[trigger] entries[k]).0 by {
            if i == 0 {
                assert(all[i].0 == entries[0].0);
            } else {
                assert(all[i] == rest[i - 1]);
                if rest[i - 1].0 != key {
                    let k = choose|k: int|
                        0 <= k < tail.len() && rest[i - 1].0 == (#[trigger] tail[k]).0;
                    assert(tail[k] == entries[k + 1]);
                }
            }
        }
    }
}

/// A value is found under a name exactly where an entry has the name.
pub proof fn lemma_lookup_at<V>(entries: Seq<(Seq<char>, V)>, i: int)
    requires
        in_order(entries),
        0 <= i < entries.len(),
    ensures
        lookup(entries, entries[i].0) == Some(entries[i].1),
    decreases entries.len(),
{
    if i > 0 {
        let tail = entries.skip(1);
        assert forall|a: int, b: int| 0 <= a < b < tail.len() implies text_before(
            (#[trigger] tail[a]).0,
            (#[trigger] tail[b]).0,
        ) by {
            assert(tail[a] == entries[a + 1]);
            assert(tail[b] == entries[b + 1]);
        }
        lemma_lookup_at(tail, i - 1);
        assert(tail[i - 1] == entries[i]);
        lemma_before_irreflexive(entries[0].0);
        assert(text_before(entries[0].0, entries[i].0));
    }
}

/// What is found under a name is some entry's.
pub proof fn lemma_lookup_has<V>(entries: Seq<(Seq<char>, V)>, key: Seq<char>) -> (at: int)
    requires
        lookup(entries, key) is Some,
    ensures
        0 <= at < entries.len(),
        entries[at].0 == key,
        lookup(entries, key) == Some(entries[at].1),
    decreases entries.len(),
{
    if entries[0].0 == key {
        0
    } else {
        let rest = lemma_lookup_has(entries.skip(1), key);
        assert(entries.skip(1)[rest] == entries[rest + 1]);
        rest + 1
    }
}

/// Nothing is found under a name no entry has, and something under every other.
pub proof fn lemma_lookup_some<V>(entries: Seq<(Seq<char>, V)>, key: Seq<char>)
    ensures
        lookup(entries, key) is Some <==> names_of(entries).contains(key),
    decreases entries.len(),
{
    if entries.len() > 0 {
        lemma_lookup_some(entries.skip(1), key);
        let names = names_of(entries);
        let rest = names_of(entries.skip(1));
        if entries[0].0 == key {
            assert(names[0] == key);
        } else if rest.contains(key) {
            let k = choose|k: int| 0 <= k < rest.len() && rest[k] == key;
            assert(names[k + 1] == key);
        } else if names.contains(key) {
            let k = choose|k: int| 0 <= k < names.len() && names[k] == key;
            assert(rest[k - 1] == key);
        }
    }
}

/// One more entry of a table in order is what is found under its name.
pub proof fn lemma_lookup_take<V>(entries: Seq<(Seq<char>, V)>, i: int, key: Seq<char>)
    requires
        in_order(entries),
        0 <= i < entries.len(),
    ensures
        lookup(entries.take(i + 1), key) == if key == entries[i].0 {
            Some(entries[i].1)
        } else {
            lookup(entries.take(i), key)
        },
    decreases i,
{
    reveal_with_fuel(lookup, 2);
    let longer = entries.take(i + 1);
    let shorter = entries.take(i);
    if i == 0 {
        assert(longer.skip(1) =~= Seq::<(Seq<char>, V)>::empty());
    } else {
        let tail = entries.skip(1);
        assert forall|a: int, b: int| 0 <= a < b < tail.len() implies text_before(
            (#[trigger] tail[a]).0,
            (#[trigger] tail[b]).0,
        ) by {
            assert(tail[a] == entries[a + 1]);
            assert(tail[b] == entries[b + 1]);
        }
        lemma_lookup_take(tail, i - 1, key);
        assert(longer.skip(1) =~= tail.take(i));
        assert(shorter.skip(1) =~= tail.take(i - 1));
        assert(tail[i - 1] == entries[i]);
        assert(text_before(entries[0].0, entries[i].0));
        lemma_before_irreflexive(entries[0].0);
    }
}

/// `entries` without the one under `key`.
pub open spec fn removed<V>(entries: Seq<(Seq<char>, V)>, key: Seq<char>) -> Seq<(Seq<char>, V)>
    decreases entries.len(),
{
    if entries.len() == 0 {
        entries
    } else if entries[0].0 == key {
        entries.skip(1)
    } else {
        seq![entries[0]] + removed(entries.skip(1), key)
    }
}

/// Nothing is found under a name taken out; every other keeps what it had, and
/// the rest stay in order.
pub proof fn lemma_lookup_removed<V>(entries: Seq<(Seq<char>, V)>, key: Seq<char>, sought: Seq<char>)
    requires
        in_order(entries),
    ensures
        lookup(removed(entries, key), sought) == if sought == key {
            None
        } else {
            lookup(entries, sought)
        },
    decreases entries.len(),
{
    reveal_with_fuel(lookup, 2);
    if entries.len() > 0 {
        let tail = entries.skip(1);
        assert forall|a: int, b: int| 0 <= a < b < tail.len() implies text_before(
            (#[trigger] tail[a]).0,
            (#[trigger] tail[b]).0,
        ) by {
            assert(tail[a] == entries[a + 1]);
            assert(tail[b] == entries[b + 1]);
        }
        if entries[0].0 == key {
            if sought == key {
                lemma_lookup_some(tail, key);
                if names_of(tail).contains(key) {
                    let k = choose|k: int| 0 <= k < tail.len() && names_of(tail)[k] == key;
                    assert(tail[k] == entries[k + 1]);
                    assert(text_before(entries[0].0, entries[k + 1].0));
                    lemma_before_irreflexive(key);
                }
            }
        } else {
            lemma_lookup_removed(tail, key, sought);
            let rest = removed(tail, key);
            assert((seq![entries[0]] + rest).skip(1) =~= rest);
        }
    }
}

proof fn lemma_removed_at<V>(entries: Seq<(Seq<char>, V)>, key: Seq<char>, at: int)
    requires
        0 <= at < entries.len(),
        entries[at].0 == key,
        forall|k: int| 0 <= k < at ==> (#[trigger] entries[k]).0 != key,
    ensures
        removed(entries, key) == entries.remove(at),
    decreases entries.len(),
{
    if at == 0 {
        assert(entries.skip(1) =~= entries.remove(0));
    } else {
        let tail = entries.skip(1);
        assert forall|k: int| 0 <= k < at - 1 implies (#[trigger] tail[k]).0 != key by {
            assert(tail[k] == entries[k + 1]);
        }
        lemma_removed_at(tail, key, at - 1);
        assert(entries[0].0 != key);
        assert(seq![entries[0]] + tail.remove(at - 1) =~= entries.remove(at));
    }
}

proof fn lemma_removed_none<V>(entries: Seq<(Seq<char>, V)>, key: Seq<char>)
    requires
        forall|k: int| 0 <= k < entries.len() ==> (#[trigger] entries[k]).0 != key,
    ensures
        removed(entries, key) == entries,
    decreases entries.len(),
{
    if entries.len() > 0 {
        let tail = entries.skip(1);
        assert forall|k: int| 0 <= k < tail.len() implies (#[trigger] tail[k]).0 != key by {
            assert(tail[k] == entries[k + 1]);
        }
        lemma_removed_none(tail, key);
        assert(entries[0].0 != key);
        assert(seq![entries[0]] + tail =~= entries);
    }
}

/// Values by name, in the order of their names.
#[derive(Debug)]
pub struct Table<V> {
    entries: Vec<(String, V)>,
}

/// Each name with its value.
pub open spec fn entries_view<V>(entries: Seq<(String, V)>) -> Seq<(Seq<char>, V)> {
    Seq::new(entries.len(), |i: int| (entries[i].0@, entries[i].1))
}

impl<V> View for Table<V> {
    type V = Seq<(Seq<char>, V)>;

    closed spec fn view(&self) -> Seq<(Seq<char>, V)> {
        entries_view(self.entries@)
    }
}

impl<V> Table<V> {
    #[verifier::type_invariant]
    closed spec fn well_formed(&self) -> bool {
        in_order(entries_view(self.entries@))
    }

    /// Nothing under any name.
    pub fn new() -> (r: Self)
        ensures
            r@ == Seq::<(Seq<char>, V)>::empty(),
    {
        let r = Table { entries: Vec::new() };
        proof {
            assert(entries_view(r.entries@) =~= Seq::<(Seq<char>, V)>::empty());
        }
        r
    }

    /// The names are in order, each once.
    pub fn ordered(&self)
        ensures
            in_order(self@),
    {
        proof {
            use_type_invariant(self);
        }
    }

    /// How many names there are.
    pub fn len(&self) -> (r: usize)
        ensures
            r == self@.len(),
    {
        self.entries.len()
    }

    /// The name at `i`, in order.
    pub fn name_at(&self, i: usize) -> (r: &str)
        requires
            i < self@.len(),
        ensures
            r@ == self@[i as int].0,
    {
        self.entries[i].0.as_str()
    }

    /// The value at `i`, in the order of names.
    pub fn value_at(&self, i: usize) -> (r: &V)
        requires
            i < self@.len(),
        ensures
            *r == self@[i as int].1,
    {
        &self.entries[i].1
    }

    /// Every name, in order.
    pub fn names(&self) -> (r: Vec<String>)
        ensures
            texts(r@) == names_of(self@),
    {
        let mut out: Vec<String> = Vec::new();
        let mut i: usize = 0;
        while i < self.entries.len()
            invariant
                i <= self.entries@.len(),
                texts(out@) =~= names_of(self@).take(i as int),
            decreases self.entries@.len() - i,
        {
            let ghost before = texts(out@);
            out.push(self.entries[i].0.clone());
            proof {
                assert(texts(out@) =~= before.push(self.entries@[i as int].0@));
            }
            i += 1;
        }
        proof {
            assert(texts(out@) =~= names_of(self@));
        }
        out
    }

    /// The value under `key`.
    pub fn get(&self, key: &str) -> (r: Option<&V>)
        ensures
            match r {
                Some(value) => lookup(self@, key@) == Some(*value),
                None => lookup(self@, key@) is None,
            },
    {
        let ghost all = self@;
        let mut i: usize = 0;
        proof {
            assert(all.skip(0) =~= all);
        }
        while i < self.entries.len()
            invariant
                i <= self.entries@.len(),
                all == entries_view(self.entries@),
                lookup(all, key@) == lookup(all.skip(i as int), key@),
            decreases self.entries@.len() - i,
        {
            if same_text(self.entries[i].0.as_str(), key) {
                return Some(&self.entries[i].1);
            }
            proof {
                assert(all.skip(i as int).skip(1) =~= all.skip(i + 1));
            }
            i += 1;
        }
        None
    }

    /// Puts `value` under `key`.
    pub fn insert(&mut self, key: &str, value: V)
        ensures
            final(self)@ == inserted(old(self)@, key@, value),
    {
        proof {
            use_type_invariant(&*self);
            lemma_inserted_in_order(self@, key@, value);
        }
        let mut entries: Vec<(String, V)> = Vec::new();
        core::mem::swap(&mut entries, &mut self.entries);
        let ghost all = entries_view(entries@);
        let mut i: usize = 0;
        proof {
            assert(all.skip(0) =~= all);
            assert(all.take(0) + inserted(all.skip(0), key@, value) =~= inserted(all, key@, value));
        }
        while i < entries.len() && !same_text(entries[i].0.as_str(), key) && !is_before(
            key,
            entries[i].0.as_str(),
        )
            invariant
                i <= entries@.len(),
                all == entries_view(entries@),
                all.take(i as int) + inserted(all.skip(i as int), key@, value) =~= inserted(
                    all,
                    key@,
                    value,
                ),
            decreases entries@.len() - i,
        {
            proof {
                assert(all.skip(i as int).skip(1) =~= all.skip(i + 1));
                assert(all.take(i + 1) =~= all.take(i as int) + seq![all[i as int]]);
            }
            i += 1;
        }
        let ghost put = (key@, value);
        if i < entries.len() && same_text(entries[i].0.as_str(), key) {
            entries[i] = (key.to_owned(), value);
            proof {
                assert(entries_view(entries@) =~= all.take(i as int) + (seq![put] + all.skip(
                    i as int,
                ).skip(1)));
            }
        } else {
            entries.insert(i, (key.to_owned(), value));
            proof {
                assert(entries_view(entries@) =~= all.take(i as int) + (seq![put] + all.skip(
                    i as int,
                )));
                if i == all.len() {
                    assert(all.skip(i as int) =~= Seq::<(Seq<char>, V)>::empty());
                    assert(seq![put] + all.skip(i as int) =~= seq![put]);
                }
            }
        }
        self.entries = entries;
    }

    /// Takes out the value under `key`.
    pub fn remove(&mut self, key: &str) -> (r: Option<V>)
        ensures
            final(self)@ == removed(old(self)@, key@),
            r == lookup(old(self)@, key@),
    {
        proof {
            use_type_invariant(&*self);
        }
        let mut entries: Vec<(String, V)> = Vec::new();
        core::mem::swap(&mut entries, &mut self.entries);
        let ghost all = entries_view(entries@);
        let mut i: usize = 0;
        proof {
            assert(all.skip(0) =~= all);
        }
        while i < entries.len() && !same_text(entries[i].0.as_str(), key)
            invariant
                i <= entries@.len(),
                all == entries_view(entries@),
                forall|k: int| 0 <= k < i ==> (#[trigger] all[k]).0 != key@,
                lookup(all, key@) == lookup(all.skip(i as int), key@),
            decreases entries@.len() - i,
        {
            proof {
                assert(all.skip(i as int).skip(1) =~= all.skip(i + 1));
            }
            i += 1;
        }
        let mut taken: Option<V> = None;
        if i < entries.len() {
            proof {
                lemma_removed_at(all, key@, i as int);
            }
            let (_, value) = entries.remove(i);
            taken = Some(value);
            proof {
                let rest = all.remove(i as int);
                assert(entries_view(entries@) =~= rest);
                assert forall|a: int, b: int| 0 <= a < b < rest.len() implies text_before(
                    (#[trigger] rest[a]).0,
                    (#[trigger] rest[b]).0,
                ) by {
                    let x = if a < i {
                        a
                    } else {
                        a + 1
                    };
                    let y = if b < i {
                        b
                    } else {
                        b + 1
                    };
                    assert(rest[a] == all[x] && rest[b] == all[y]);
                }
            }
        } else {
            proof {
                lemma_removed_none(all, key@);
            }
        }
        self.entries = entries;
        taken
    }
}

} // verus!

//! Per-tenant secrets and state.

use vstd::prelude::*;
use zeroize::Zeroize;

use crate::rng;

verus! {

/// A 32-byte secret that is wiped when it is dropped, and can be wiped before.
pub struct Secret {
    bytes: [u8; 32],
}

impl View for Secret {
    type V = Seq<u8>;

    closed spec fn view(&self) -> Seq<u8> {
        self.bytes@
    }
}

/// Thirty-two zeros.
pub open spec fn wiped() -> Seq<u8> {
    Seq::new(32, |i: int| 0u8)
}

/// Overwrites bytes with zeros, through `Zeroize::zeroize` of the crate of that name: all of
/// them are zero afterwards, and the call does not panic.
#[verifier::external_body]
fn overwrite(bytes: &mut [u8; 32])
    ensures
        final(bytes)@ == wiped(),
    opens_invariants none
    no_unwind
{
    bytes.zeroize();
}

impl Drop for Secret {
    fn drop(&mut self)
        ensures
            final(self)@ == wiped(),
        opens_invariants none
        no_unwind
    {
        overwrite(&mut self.bytes);
    }
}

impl Secret {
    pub fn new(bytes: [u8; 32]) -> (r: Secret)
        ensures
            r@ == bytes@,
    {
        Secret { bytes }
    }

    /// The secret was drawn at random.
    pub open spec fn is_drawn(self) -> bool {
        exists|bytes: [u8; 32]| #[trigger] rng::from_chance(bytes) && self@ == bytes@
    }

    /// A secret drawn at random. Which one is left to chance.
    pub fn fresh() -> (r: Secret)
        ensures
            r@.len() == 32,
            r.is_drawn(),
    {
        Secret { bytes: rng::chance_bytes() }
    }

    /// Another copy, which is wiped on its own.
    pub fn copied(&self) -> (r: Secret)
        ensures
            r == *self,
    {
        Secret { bytes: self.bytes }
    }

    pub fn bytes(&self) -> (r: &[u8; 32])
        ensures
            r@ == self@,
    {
        &self.bytes
    }

    /// Overwrites the secret with zeros.
    pub fn wipe(&mut self)
        ensures
            final(self)@ == wiped(),
    {
        overwrite(&mut self.bytes);
    }
}

/// Some entry has this name.
pub open spec fn named<V>(entries: Seq<(String, V)>, name: Seq<char>) -> bool {
    exists|i: int| 0 <= i < entries.len() && #[trigger] entries[i].0@ == name
}

/// The value of the entry with this name.
pub open spec fn value_of<V>(entries: Seq<(String, V)>, name: Seq<char>) -> V {
    let i = choose|i: int| 0 <= i < entries.len() && #[trigger] entries[i].0@ == name;
    entries[i].1
}

/// A value for each of some tenants.
pub struct TenantTable<V> {
    entries: Vec<(String, V)>,
}

impl<V> View for TenantTable<V> {
    type V = Map<Seq<char>, V>;

    closed spec fn view(&self) -> Map<Seq<char>, V> {
        Map::new(
            |name: Seq<char>| named(self.entries@, name),
            |name: Seq<char>| value_of(self.entries@, name),
        )
    }
}

impl<V> TenantTable<V> {
    #[verifier::type_invariant]
    spec fn distinct(self) -> bool {
        forall|i: int, j: int|
            0 <= i < j < self.entries@.len() ==> (#[trigger] self.entries@[i]).0@ != (
            #[trigger] self.entries@[j]).0@
    }

    pub fn new() -> (r: TenantTable<V>)
        ensures
            r@ == Map::<Seq<char>, V>::empty(),
    {
        let r = TenantTable { entries: Vec::new() };
        assert(r@ =~= Map::<Seq<char>, V>::empty());
        r
    }

    /// Where a tenant's entry is.
    fn position(&self, name: &String) -> (r: Option<usize>)
        ensures
            match r {
                Some(i) => i < self.entries@.len() && self.entries@[i as int].0@ == name@,
                None => !named(self.entries@, name@),
            },
    {
        for i in 0..self.entries.len()
            invariant
                forall|j: int| 0 <= j < i ==> (#[trigger] self.entries@[j]).0@ != name@,
        {
            if self.entries[i].0 == *name {
                return Some(i);
            }
        }
        None
    }

    pub fn contains(&self, name: &String) -> (r: bool)
        ensures
            r == self@.contains_key(name@),
    {
        match self.position(name) {
            Some(i) => {
                assert(named(self.entries@, name@)) by {
                    assert(self.entries@[i as int].0@ == name@);
                }
                true
            },
            None => false,
        }
    }

    pub fn get(&self, name: &String) -> (r: Option<&V>)
        ensures
            r is Some <==> self@.contains_key(name@),
            r matches Some(v) ==> *v == self@[name@],
    {
        proof {
            use_type_invariant(self);
        }
        match self.position(name) {
            Some(i) => {
                proof {
                    lemma_value_at(self.entries@, i as int);
                }
                Some(&self.entries[i].1)
            },
            None => None,
        }
    }

    /// Takes a tenant's value out.
    pub fn remove(&mut self, name: &String) -> (r: Option<V>)
        ensures
            r is Some <==> old(self)@.contains_key(name@),
            r matches Some(v) ==> v == old(self)@[name@],
            final(self)@ == old(self)@.remove(name@),
    {
        proof {
            use_type_invariant(&*self);
        }
        let at: Option<usize> = self.position(name);
        match at {
            Some(i) => {
                let ghost before = self.entries@;
                let mut entries: Vec<(String, V)> = Vec::new();
                std::mem::swap(&mut entries, &mut self.entries);
                let (_, value) = entries.remove(i);
                proof {
                    lemma_value_at(before, i as int);
                    lemma_removed(before, entries@, i as int, name@);
                }
                self.entries = entries;
                assert(self@ =~= old(self)@.remove(name@));
                Some(value)
            },
            None => {
                assert(self@ =~= old(self)@.remove(name@));
                None
            },
        }
    }

    /// Sets a tenant's value.
    pub fn insert(&mut self, name: &String, value: V)
        ensures
            final(self)@ == old(self)@.insert(name@, value),
    {
        let _ = self.remove(name);
        proof {
            use_type_invariant(&*self);
        }
        let ghost before = self.entries@;
        let ghost table = self@;
        let ghost kept = value;
        let mut entries: Vec<(String, V)> = Vec::new();
        std::mem::swap(&mut entries, &mut self.entries);
        assert(!named(before, name@)) by {
            assert(table == old(self)@.remove(name@));
            assert(!table.contains_key(name@));
        }
        entries.push((name.clone(), value));
        proof {
            assert(entries@.drop_last() =~= before);
            lemma_added(before, entries@, name@, kept);
        }
        self.entries = entries;
        assert forall|other: Seq<char>| old(self)@.contains_key(other) && other != name@ implies
            #[trigger] self@[other] == old(self)@[other] by {
            assert(table.contains_key(other));
            assert(table[other] == old(self)@[other]);
        }
        assert forall|other: Seq<char>| #[trigger] self@.contains_key(other) == old(self)@.insert(
            name@,
            kept,
        ).contains_key(other) by {
            assert(table.contains_key(other) == named(before, other));
        }
        assert(self@ =~= old(self)@.insert(name@, kept));
    }

    /// The tenants of the table, each once, in no particular order.
    pub fn names(&self) -> (r: Vec<String>)
        ensures
            forall|name: Seq<char>|
                self@.contains_key(name) <==> exists|i: int|
                    0 <= i < r@.len() && #[trigger] r@[i]@ == name,
            forall|i: int, j: int| 0 <= i < j < r@.len() ==> r@[i]@ != r@[j]@,
    {
        proof {
            use_type_invariant(self);
        }
        let mut out: Vec<String> = Vec::new();
        for i in 0..self.entries.len()
            invariant
                out@.len() == i,
                forall|j: int| 0 <= j < i ==> #[trigger] out@[j]@ == self.entries@[j].0@,
        {
            out.push(self.entries[i].0.clone());
        }
        assert forall|name: Seq<char>| self@.contains_key(name) implies exists|i: int|
            0 <= i < out@.len() && #[trigger] out@[i]@ == name by {
            let i = choose|i: int|
                0 <= i < self.entries@.len() && #[trigger] self.entries@[i].0@ == name;
            assert(out@[i]@ == name);
        }
        assert forall|name: Seq<char>|
            (exists|i: int| 0 <= i < out@.len() && #[trigger] out@[i]@ == name)
            implies self@.contains_key(name) by {
            let i = choose|i: int| 0 <= i < out@.len() && #[trigger] out@[i]@ == name;
            assert(self.entries@[i].0@ == name);
        }
        assert forall|i: int, j: int| 0 <= i < j < out@.len() implies out@[i]@ != out@[j]@ by {
            assert(self.entries@[i].0@ != self.entries@[j].0@);
        }
        out
    }
}

/// Names differ from place to place.
spec fn all_distinct<V>(entries: Seq<(String, V)>) -> bool {
    forall|i: int, j: int|
        0 <= i < j < entries.len() ==> (#[trigger] entries[i]).0@ != (#[trigger] entries[j]).0@
}

proof fn lemma_value_at<V>(entries: Seq<(String, V)>, i: int)
    requires
        all_distinct(entries),
        0 <= i < entries.len(),
    ensures
        named(entries, entries[i].0@),
        value_of(entries, entries[i].0@) == entries[i].1,
{
    let name = entries[i].0@;
    assert(named(entries, name));
    let j = choose|j: int| 0 <= j < entries.len() && #[trigger] entries[j].0@ == name;
    if i < j {
        assert(entries[i].0@ != entries[j].0@);
    } else if j < i {
        assert(entries[j].0@ != entries[i].0@);
    }
}

proof fn lemma_removed<V>(
    before: Seq<(String, V)>,
    after: Seq<(String, V)>,
    at: int,
    name: Seq<char>,
)
    requires
        all_distinct(before),
        0 <= at < before.len(),
        before[at].0@ == name,
        after == before.remove(at),
    ensures
        all_distinct(after),
        forall|other: Seq<char>| #[trigger]
            named(after, other) == (named(before, other) && other != name),
        forall|other: Seq<char>|
            named(after, other) ==> #[trigger] value_of(after, other) == value_of(before, other),
{
    assert forall|other: Seq<char>| #[trigger] named(after, other) == (named(before, other) && other
        != name) by {
        if named(after, other) {
            let i = choose|i: int| 0 <= i < after.len() && #[trigger] after[i].0@ == other;
            let j = if i < at {
                i
            } else {
                i + 1
            };
            assert(before[j].0@ == other);
            if j < at {
                assert(before[j].0@ != before[at].0@);
            } else {
                assert(before[at].0@ != before[j].0@);
            }
        }
        if named(before, other) && other != name {
            let j = choose|j: int| 0 <= j < before.len() && #[trigger] before[j].0@ == other;
            let i = if j < at {
                j
            } else {
                j - 1
            };
            assert(after[i].0@ == other);
        }
    }
    assert forall|other: Seq<char>| named(after, other) implies #[trigger] value_of(after, other)
        == value_of(before, other) by {
        let i = choose|i: int| 0 <= i < after.len() && #[trigger] after[i].0@ == other;
        let j = if i < at {
            i
        } else {
            i + 1
        };
        lemma_value_at(after, i);
        lemma_value_at(before, j);
    }
}

proof fn lemma_added<V>(
    before: Seq<(String, V)>,
    after: Seq<(String, V)>,
    name: Seq<char>,
    value: V,
)
    requires
        all_distinct(before),
        !named(before, name),
        after.len() == before.len() + 1,
        after.drop_last() == before,
        after.last().0@ == name,
        after.last().1 == value,
    ensures
        all_distinct(after),
        forall|other: Seq<char>| #[trigger]
            named(after, other) == (named(before, other) || other == name),
        value_of(after, name) == value,
        forall|other: Seq<char>|
            named(before, other) ==> #[trigger] value_of(after, other) == value_of(before, other),
{
    assert forall|i: int| 0 <= i < before.len() implies #[trigger] before[i] == after[i] by {
        assert(after.drop_last()[i] == after[i]);
    }
    assert forall|i: int, j: int| 0 <= i < j < after.len() implies (#[trigger] after[i]).0@ != (
    #[trigger] after[j]).0@ by {
        assert(before[i] == after[i]);
        if j == before.len() {
            assert(before[i].0@ != name);
        } else {
            assert(before[j] == after[j]);
        }
    }
    assert forall|other: Seq<char>| #[trigger] named(after, other) == (named(before, other) || other
        == name) by {
        if named(after, other) {
            let i = choose|i: int| 0 <= i < after.len() && #[trigger] after[i].0@ == other;
            if i < before.len() {
                assert(before[i].0@ == other);
            }
        }
        if named(before, other) {
            let i = choose|i: int| 0 <= i < before.len() && #[trigger] before[i].0@ == other;
            assert(after[i].0@ == other);
        }
        if other == name {
            assert(after[before.len() as int].0@ == name);
        }
    }
    lemma_value_at(after, before.len() as int);
    assert forall|other: Seq<char>| named(before, other) implies #[trigger] value_of(after, other)
        == value_of(before, other) by {
        let i = choose|i: int| 0 <= i < before.len() && #[trigger] before[i].0@ == other;
        assert(before[i] == after[i]);
        lemma_value_at(before, i);
        lemma_value_at(after, i);
    }
}

} // verus!

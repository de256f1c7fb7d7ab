//! Timing profiles: cumulative time and number of calls by category.
//!
//! A profile belongs to one thread; worker threads flush theirs into a shared staging
//! area, from which the main thread gathers them.

use vstd::prelude::*;

verus! {

/// Length of the longest measurable duration, in nanoseconds.
pub const MAX_DURATION_NANOS: u128 = 18446744073709551615999999999;

/// Place of a text relative to another in the order of their characters.
#[derive(Debug, Clone, Copy, PartialEq, Eq, Structural)]
enum Place {
    Before,
    Same,
    After,
}

/// `a` stands before `b` in the dictionary order of characters.
pub open spec fn precedes(a: Seq<char>, b: Seq<char>) -> bool {
    exists|k: int| #[trigger] splits(a, b, k)
}

/// `a` and `b` agree on the first `k` characters, and there `a` ends or has the smaller one.
pub open spec fn splits(a: Seq<char>, b: Seq<char>, k: int) -> bool {
    &&& 0 <= k <= a.len()
    &&& k < b.len()
    &&& forall|j: int| 0 <= j < k ==> a[j] == b[j]
    &&& k == a.len() || (a[k] as int) < (b[k] as int)
}

fn place(a: &str, b: &str) -> (r: Place)
    ensures
        r == Place::Before <==> precedes(a@, b@),
        r == Place::Same <==> a@ == b@,
        r == Place::After <==> precedes(b@, a@),
{
    let la: usize = a.unicode_len();
    let lb: usize = b.unicode_len();
    let mut k: usize = 0;
    while k < la && k < lb && a.get_char(k) == b.get_char(k)
        invariant
            la == a@.len(),
            lb == b@.len(),
            k <= la,
            k <= lb,
            forall|j: int| 0 <= j < k ==> a@[j] == b@[j],
        decreases la - k,
    {
        k = k + 1;
    }
    proof {
        lemma_order_is_strict(a@, b@);
    }
    if k == la && k == lb {
        assert(a@ =~= b@);
        Place::Same
    } else if k == la {
        assert(splits(a@, b@, k as int));
        Place::Before
    } else if k == lb {
        assert(splits(b@, a@, k as int));
        Place::After
    } else {
        let x: char = a.get_char(k);
        let y: char = b.get_char(k);
        if (x as u32) < (y as u32) {
            assert(splits(a@, b@, k as int));
            Place::Before
        } else {
            assert(splits(b@, a@, k as int));
            Place::After
        }
    }
}

/// No text stands before itself, nor two before each other.
proof fn lemma_order_is_strict(a: Seq<char>, b: Seq<char>)
    ensures
        !(precedes(a, b) && precedes(b, a)),
        precedes(a, b) ==> a != b,
{
    if precedes(a, b) && precedes(b, a) {
        let k = choose|k: int| #[trigger] splits(a, b, k);
        let l = choose|l: int| #[trigger] splits(b, a, l);
        if k < l {
            assert(b[k] == a[k]);
        } else if l < k {
            assert(a[l] == b[l]);
        }
        assert(false);
    }
    if precedes(a, b) && a == b {
        let k = choose|k: int| #[trigger] splits(a, b, k);
        assert(false);
    }
}

/// The order of texts is transitive.
proof fn lemma_order_is_transitive(a: Seq<char>, b: Seq<char>, c: Seq<char>)
    requires
        precedes(a, b),
        precedes(b, c),
    ensures
        precedes(a, c),
{
    let k = choose|k: int| #[trigger] splits(a, b, k);
    let l = choose|l: int| #[trigger] splits(b, c, l);
    if k <= l {
        assert(splits(a, c, k));
    } else {
        assert(splits(a, c, l));
    }
}

/// One category: its name, cumulative nanoseconds and number of calls.
pub struct Entry {
    pub name: Seq<char>,
    pub nanos: nat,
    pub calls: nat,
}

/// The categories stand in strict order of their names.
pub open spec fn in_order(s: Seq<Entry>) -> bool {
    forall|i: int, j: int| 0 <= i < j < s.len() ==> #[trigger] precedes(s[i].name, s[j].name)
}

/// First place whose name does not stand before `name`.
pub open spec fn slot(s: Seq<Entry>, name: Seq<char>) -> int
    decreases s.len(),
{
    if s.len() == 0 || precedes(s.last().name, name) {
        s.len() as int
    } else {
        slot(s.drop_last(), name)
    }
}

/// Whether a category is there.
pub open spec fn holds(s: Seq<Entry>, name: Seq<char>) -> bool {
    exists|i: int| 0 <= i < s.len() && #[trigger] s[i].name == name
}

/// Time and calls of a category; zeros where it is not there.
pub open spec fn tally(s: Seq<Entry>, name: Seq<char>) -> (nat, nat) {
    if holds(s, name) {
        let i = choose|i: int| 0 <= i < s.len() && #[trigger] s[i].name == name;
        (s[i].nanos, s[i].calls)
    } else {
        (0, 0)
    }
}

/// The profile with time and calls added to one category.
pub open spec fn bumped(s: Seq<Entry>, name: Seq<char>, nanos: nat, calls: nat) -> Seq<Entry> {
    let p = slot(s, name);
    if p < s.len() && s[p].name == name {
        s.update(p, Entry { name, nanos: s[p].nanos + nanos, calls: s[p].calls + calls })
    } else {
        s.insert(p, Entry { name, nanos, calls })
    }
}

/// The profile with every category of another added.
pub open spec fn merged(s: Seq<Entry>, other: Seq<Entry>) -> Seq<Entry>
    decreases other.len(),
{
    if other.len() == 0 {
        s
    } else {
        let e = other.last();
        bumped(merged(s, other.drop_last()), e.name, e.nanos, e.calls)
    }
}

/// Time over all categories.
pub open spec fn total_nanos(s: Seq<Entry>) -> nat
    decreases s.len(),
{
    if s.len() == 0 {
        0
    } else {
        total_nanos(s.drop_last()) + s.last().nanos
    }
}

/// Calls over all categories.
pub open spec fn total_calls(s: Seq<Entry>) -> nat
    decreases s.len(),
{
    if s.len() == 0 {
        0
    } else {
        total_calls(s.drop_last()) + s.last().calls
    }
}

/// A category can take this much more time and this many more calls.
pub open spec fn has_room(s: Seq<Entry>, name: Seq<char>, nanos: nat, calls: nat) -> bool {
    &&& tally(s, name).0 + nanos <= u128::MAX
    &&& tally(s, name).1 + calls <= u64::MAX
}

/// Every category can take what another profile holds.
pub open spec fn has_room_for(s: Seq<Entry>, other: Seq<Entry>) -> bool {
    forall|i: int|
        0 <= i < other.len() ==> #[trigger] has_room(
            s,
            other[i].name,
            other[i].nanos,
            other[i].calls,
        )
}

/// Everything before the slot of a name stands before it; nothing from the slot on does.
proof fn lemma_slot(s: Seq<Entry>, name: Seq<char>)
    requires
        in_order(s),
    ensures
        0 <= slot(s, name) <= s.len(),
        forall|i: int| 0 <= i < slot(s, name) ==> precedes(#[trigger] s[i].name, name),
        forall|i: int| slot(s, name) <= i < s.len() ==> !precedes(#[trigger] s[i].name, name),
    decreases s.len(),
{
    if s.len() > 0 {
        if precedes(s.last().name, name) {
            assert forall|i: int| 0 <= i < s.len() implies precedes(
                #[trigger] s[i].name,
                name,
            ) by {
                if i < s.len() - 1 {
                    assert(precedes(s[i].name, s[s.len() - 1].name));
                    lemma_order_is_transitive(s[i].name, s.last().name, name);
                }
            }
        } else {
            let t = s.drop_last();
            assert forall|i: int, j: int| 0 <= i < j < t.len() implies #[trigger] precedes(
                t[i].name,
                t[j].name,
            ) by {
                assert(precedes(s[i].name, s[j].name));
            }
            lemma_slot(t, name);
            assert forall|i: int| 0 <= i < slot(s, name) implies precedes(
                #[trigger] s[i].name,
                name,
            ) by {
                assert(t[i].name == s[i].name);
            }
            assert forall|i: int| slot(s, name) <= i < s.len() implies !precedes(
                #[trigger] s[i].name,
                name,
            ) by {
                if i < t.len() {
                    assert(t[i].name == s[i].name);
                }
            }
        }
    }
}

/// A category that is there stands at its slot, and nowhere else.
proof fn lemma_found_at_slot(s: Seq<Entry>, name: Seq<char>)
    requires
        in_order(s),
    ensures
        holds(s, name) <==> slot(s, name) < s.len() && s[slot(s, name)].name == name,
        holds(s, name) ==> tally(s, name) == (s[slot(s, name)].nanos, s[slot(s, name)].calls),
        forall|i: int| 0 <= i < s.len() && #[trigger] s[i].name == name ==> i == slot(s, name),
{
    lemma_slot(s, name);
    let p = slot(s, name);
    assert forall|i: int| 0 <= i < s.len() && #[trigger] s[i].name == name implies i == p by {
        lemma_order_is_strict(name, name);
        if i > p {
            assert(precedes(s[p].name, s[i].name));
        }
    }
}

/// Two different texts stand in one order or the other.
proof fn lemma_order_is_total(a: Seq<char>, b: Seq<char>)
    ensures
        a == b || precedes(a, b) || precedes(b, a),
{
    lemma_first_difference(a, b, 0);
}

proof fn lemma_first_difference(a: Seq<char>, b: Seq<char>, k: int)
    requires
        0 <= k <= a.len(),
        k <= b.len(),
        forall|j: int| 0 <= j < k ==> a[j] == b[j],
    ensures
        a == b || precedes(a, b) || precedes(b, a),
    decreases a.len() - k,
{
    if k == a.len() && k == b.len() {
        assert(a =~= b);
    } else if k == a.len() {
        assert(splits(a, b, k));
    } else if k == b.len() {
        assert(splits(b, a, k));
    } else if a[k] == b[k] {
        lemma_first_difference(a, b, k + 1);
    } else if (a[k] as int) < (b[k] as int) {
        assert(splits(a, b, k));
    } else {
        assert(splits(b, a, k));
    }
}

/// Adding to a category keeps the order, adds to that category and to no other.
pub proof fn law_bump_adds_to_one_category(
    s: Seq<Entry>,
    name: Seq<char>,
    nanos: nat,
    calls: nat,
    other: Seq<char>,
)
    requires
        in_order(s),
    ensures
        in_order(bumped(s, name, nanos, calls)),
        holds(bumped(s, name, nanos, calls), name),
        tally(bumped(s, name, nanos, calls), name) == (
            tally(s, name).0 + nanos,
            tally(s, name).1 + calls,
        ),
        other != name ==> {
            &&& holds(bumped(s, name, nanos, calls), other) == holds(s, other)
            &&& tally(bumped(s, name, nanos, calls), other) == tally(s, other)
        },
{
    let p = slot(s, name);
    let r = bumped(s, name, nanos, calls);
    lemma_slot(s, name);
    lemma_found_at_slot(s, name);
    if holds(s, name) {
        assert forall|i: int, j: int| 0 <= i < j < r.len() implies #[trigger] precedes(
            r[i].name,
            r[j].name,
        ) by {
            assert(precedes(s[i].name, s[j].name));
        }
        assert(r[p].name == name);
    } else {
        assert forall|i: int, j: int| 0 <= i < j < r.len() implies #[trigger] precedes(
            r[i].name,
            r[j].name,
        ) by {
            if i < p && j < p {
                assert(precedes(s[i].name, s[j].name));
            } else if i < p && j > p {
                assert(precedes(s[i].name, s[j - 1].name));
            } else if i == p {
                assert(s[j - 1].name != name);
                lemma_order_is_total(name, s[j - 1].name);
            } else if i > p {
                assert(precedes(s[i - 1].name, s[j - 1].name));
            }
        }
        assert(r[p].name == name);
    }
    lemma_found_at_slot(r, name);
    if other != name {
        lemma_found_at_slot(s, other);
        lemma_found_at_slot(r, other);
        if holds(s, other) {
            let q = slot(s, other);
            if holds(s, name) || q < p {
                assert(r[q].name == other);
            } else {
                assert(r[q + 1].name == other);
            }
        }
        if holds(r, other) {
            let q = slot(r, other);
            if holds(s, name) || q < p {
                assert(s[q].name == other);
            } else {
                assert(s[q - 1].name == other);
            }
        }
    }
}

proof fn lemma_totals_split(a: Seq<Entry>, b: Seq<Entry>)
    ensures
        total_nanos(a + b) == total_nanos(a) + total_nanos(b),
        total_calls(a + b) == total_calls(a) + total_calls(b),
    decreases b.len(),
{
    if b.len() == 0 {
        assert(a + b =~= a);
    } else {
        assert((a + b).drop_last() =~= a + b.drop_last());
        lemma_totals_split(a, b.drop_last());
    }
}

proof fn lemma_totals_of_bump(s: Seq<Entry>, name: Seq<char>, nanos: nat, calls: nat)
    requires
        in_order(s),
    ensures
        total_nanos(bumped(s, name, nanos, calls)) == total_nanos(s) + nanos,
        total_calls(bumped(s, name, nanos, calls)) == total_calls(s) + calls,
{
    let p = slot(s, name);
    let r = bumped(s, name, nanos, calls);
    lemma_slot(s, name);
    let front = s.take(p);
    if p < s.len() && s[p].name == name {
        let back = s.skip(p + 1);
        assert(s =~= front + seq![s[p]] + back);
        assert(r =~= front + seq![r[p]] + back);
        lemma_totals_split(front + seq![s[p]], back);
        lemma_totals_split(front + seq![r[p]], back);
        lemma_totals_split(front, seq![s[p]]);
        lemma_totals_split(front, seq![r[p]]);
        reveal_with_fuel(total_nanos, 2);
        reveal_with_fuel(total_calls, 2);
        assert(seq![s[p]].drop_last() =~= Seq::<Entry>::empty());
        assert(seq![r[p]].drop_last() =~= Seq::<Entry>::empty());
    } else {
        let back = s.skip(p);
        assert(s =~= front + back);
        assert(r =~= front + seq![r[p]] + back);
        lemma_totals_split(front, back);
        lemma_totals_split(front + seq![r[p]], back);
        lemma_totals_split(front, seq![r[p]]);
        reveal_with_fuel(total_nanos, 2);
        reveal_with_fuel(total_calls, 2);
        assert(seq![r[p]].drop_last() =~= Seq::<Entry>::empty());
    }
}

/// Merging is additive: each category of the result holds the time and the calls of both
/// profiles, and so do the totals.
pub proof fn law_merge_is_additive(s: Seq<Entry>, other: Seq<Entry>, name: Seq<char>)
    requires
        in_order(s),
        in_order(other),
    ensures
        in_order(merged(s, other)),
        holds(merged(s, other), name) == (holds(s, name) || holds(other, name)),
        tally(merged(s, other), name) == (
            tally(s, name).0 + tally(other, name).0,
            tally(s, name).1 + tally(other, name).1,
        ),
        total_nanos(merged(s, other)) == total_nanos(s) + total_nanos(other),
        total_calls(merged(s, other)) == total_calls(s) + total_calls(other),
    decreases other.len(),
{
    if other.len() > 0 {
        let front = other.drop_last();
        let e = other.last();
        assert forall|i: int, j: int| 0 <= i < j < front.len() implies #[trigger] precedes(
            front[i].name,
            front[j].name,
        ) by {
            assert(precedes(other[i].name, other[j].name));
        }
        law_merge_is_additive(s, front, name);
        law_merge_is_additive(s, front, e.name);
        law_bump_adds_to_one_category(merged(s, front), e.name, e.nanos, e.calls, name);
        lemma_totals_of_bump(merged(s, front), e.name, e.nanos, e.calls);
        lemma_found_at_slot(front, name);
        lemma_found_at_slot(other, name);
        lemma_found_at_slot(front, e.name);
        lemma_found_at_slot(other, e.name);
        assert(other[other.len() - 1].name == e.name);
        assert(!holds(front, e.name)) by {
            if holds(front, e.name) {
                let i = slot(front, e.name);
                assert(other[i].name == e.name);
            }
        }
        if name != e.name {
            if holds(front, name) {
                assert(other[slot(front, name)].name == name);
            }
            if holds(other, name) {
                assert(front[slot(other, name)].name == name);
            }
        }
    }
}

/// Merging profiles in either order gives the same.
pub proof fn law_merge_commutes(a: Seq<Entry>, b: Seq<Entry>)
    requires
        in_order(a),
        in_order(b),
    ensures
        merged(a, b) == merged(b, a),
{
    let x = merged(a, b);
    let y = merged(b, a);
    law_merge_is_additive(a, b, Seq::<char>::empty());
    law_merge_is_additive(b, a, Seq::<char>::empty());
    assert forall|name: Seq<char>| #[trigger] holds(x, name) == holds(y, name) && tally(x, name)
        == tally(y, name) by {
        law_merge_is_additive(a, b, name);
        law_merge_is_additive(b, a, name);
    }
    lemma_same_tallies(x, y);
}

/// Profiles with the same categories and tallies are the same.
proof fn lemma_same_tallies(x: Seq<Entry>, y: Seq<Entry>)
    requires
        in_order(x),
        in_order(y),
        forall|name: Seq<char>| #[trigger] holds(x, name) == holds(y, name),
        forall|name: Seq<char>| #[trigger] tally(x, name) == tally(y, name),
    ensures
        x == y,
    decreases x.len() + y.len(),
{
    if x.len() == 0 {
        if y.len() > 0 {
            assert(holds(y, y[0].name));
            assert(holds(x, y[0].name));
        }
        assert(x =~= y);
    } else if y.len() == 0 {
        assert(holds(x, x[0].name));
        assert(holds(y, x[0].name));
    } else {
        let n = x.last().name;
        let m = y.last().name;
        assert(x[x.len() - 1].name == n && y[y.len() - 1].name == m);
        assert(holds(x, n) && holds(y, m));
        assert(holds(y, n) && holds(x, m));
        lemma_found_at_slot(x, n);
        lemma_found_at_slot(y, n);
        lemma_found_at_slot(x, m);
        lemma_found_at_slot(y, m);
        if n != m {
            assert(precedes(y[slot(y, n)].name, y[y.len() - 1].name));
            assert(precedes(x[slot(x, m)].name, x[x.len() - 1].name));
            lemma_order_is_strict(n, m);
            assert(false);
        }
        assert(tally(x, n) == tally(y, n));
        assert(x.last() == y.last());
        let fx = x.drop_last();
        let fy = y.drop_last();
        assert forall|i: int, j: int| 0 <= i < j < fx.len() implies #[trigger] precedes(
            fx[i].name,
            fx[j].name,
        ) by {
            assert(precedes(x[i].name, x[j].name));
        }
        assert forall|i: int, j: int| 0 <= i < j < fy.len() implies #[trigger] precedes(
            fy[i].name,
            fy[j].name,
        ) by {
            assert(precedes(y[i].name, y[j].name));
        }
        assert forall|name: Seq<char>| #[trigger] holds(fx, name) == holds(fy, name) && tally(fx, name)
            == tally(fy, name) by {
            lemma_without_last(x, name);
            lemma_without_last(y, name);
            assert(holds(x, name) == holds(y, name));
            assert(tally(x, name) == tally(y, name));
        }
        lemma_same_tallies(fx, fy);
        assert(x =~= fx.push(x.last()));
        assert(y =~= fy.push(y.last()));
    }
}

proof fn lemma_without_last(x: Seq<Entry>, name: Seq<char>)
    requires
        in_order(x),
        x.len() > 0,
    ensures
        holds(x.drop_last(), name) == (holds(x, name) && name != x.last().name),
        name != x.last().name ==> tally(x.drop_last(), name) == tally(x, name),
        name == x.last().name ==> tally(x.drop_last(), name) == (0nat, 0nat),
{
    let f = x.drop_last();
    assert forall|i: int, j: int| 0 <= i < j < f.len() implies #[trigger] precedes(
        f[i].name,
        f[j].name,
    ) by {
        assert(precedes(x[i].name, x[j].name));
    }
    lemma_found_at_slot(x, name);
    lemma_found_at_slot(f, name);
    assert(x[x.len() - 1].name == x.last().name);
    if holds(f, name) {
        assert(x[slot(f, name)].name == name);
    }
    if holds(x, name) && name != x.last().name {
        assert(f[slot(x, name)].name == name);
    }
    if name == x.last().name && holds(f, name) {
        lemma_found_at_slot(x, name);
        assert(x[slot(f, name)].name == name && x[x.len() - 1].name == name);
        assert(false);
    }
}

/// `s` with a category's time and calls replaced.
pub open spec fn replaced(s: Seq<Entry>, name: Seq<char>, nanos: nat, calls: nat) -> Seq<Entry> {
    let p = slot(s, name);
    if p < s.len() && s[p].name == name {
        s.update(p, Entry { name, nanos, calls })
    } else {
        s.insert(p, Entry { name, nanos, calls })
    }
}

proof fn lemma_replaced_in_order(s: Seq<Entry>, name: Seq<char>, nanos: nat, calls: nat)
    requires
        in_order(s),
    ensures
        in_order(replaced(s, name, nanos, calls)),
{
    law_bump_adds_to_one_category(s, name, nanos, calls, name);
    let r = replaced(s, name, nanos, calls);
    let b = bumped(s, name, nanos, calls);
    lemma_slot(s, name);
    assert forall|i: int, j: int| 0 <= i < j < r.len() implies #[trigger] precedes(
        r[i].name,
        r[j].name,
    ) by {
        assert(precedes(b[i].name, b[j].name));
    }
}

/// Setting a category forgets what it held, and touches no other.
pub proof fn law_insert_replaces_one_category(
    s: Seq<Entry>,
    name: Seq<char>,
    nanos: nat,
    calls: nat,
    other: Seq<char>,
)
    requires
        in_order(s),
    ensures
        in_order(replaced(s, name, nanos, calls)),
        holds(replaced(s, name, nanos, calls), name),
        tally(replaced(s, name, nanos, calls), name) == (nanos, calls),
        other != name ==> {
            &&& holds(replaced(s, name, nanos, calls), other) == holds(s, other)
            &&& tally(replaced(s, name, nanos, calls), other) == tally(s, other)
        },
{
    let p = slot(s, name);
    let r = replaced(s, name, nanos, calls);
    lemma_replaced_in_order(s, name, nanos, calls);
    lemma_slot(s, name);
    lemma_found_at_slot(s, name);
    assert(r[p].name == name);
    lemma_found_at_slot(r, name);
    if other != name {
        lemma_found_at_slot(s, other);
        lemma_found_at_slot(r, other);
        if holds(s, other) {
            let q = slot(s, other);
            if holds(s, name) || q < p {
                assert(r[q].name == other);
            } else {
                assert(r[q + 1].name == other);
            }
        }
        if holds(r, other) {
            let q = slot(r, other);
            if holds(s, name) || q < p {
                assert(s[q].name == other);
            } else {
                assert(s[q - 1].name == other);
            }
        }
    }
}

/// The totals grow by what is added to a category, from nothing.
pub proof fn law_totals_count_every_category(
    s: Seq<Entry>,
    name: Seq<char>,
    nanos: nat,
    calls: nat,
)
    requires
        in_order(s),
    ensures
        total_nanos(Seq::<Entry>::empty()) == 0,
        total_nanos(bumped(s, name, nanos, calls)) == total_nanos(s) + nanos,
        total_calls(bumped(s, name, nanos, calls)) == total_calls(s) + calls,
{
    lemma_totals_of_bump(s, name, nanos, calls);
}

#[derive(Debug, Clone, Copy)]
struct Bucket {
    name: &'static str,
    nanos: u128,
    calls: u64,
}

/// Cumulative time and number of calls by category, in order of the categories' names.
#[derive(Debug)]
pub struct Profile {
    buckets: Vec<Bucket>,
}

spec fn entries(b: Seq<Bucket>) -> Seq<Entry> {
    Seq::new(
        b.len(),
        |i: int| Entry { name: b[i].name@, nanos: b[i].nanos as nat, calls: b[i].calls as nat },
    )
}

impl View for Profile {
    type V = Seq<Entry>;

    closed spec fn view(&self) -> Seq<Entry> {
        entries(self.buckets@)
    }
}

/// Where a name belongs among the buckets.
fn find_slot(buckets: &Vec<Bucket>, name: &'static str) -> (r: (usize, bool))
    requires
        in_order(entries(buckets@)),
    ensures
        r.0 == slot(entries(buckets@), name@),
        r.0 <= buckets@.len(),
        r.1 == (r.0 < buckets@.len() && entries(buckets@)[r.0 as int].name == name@),
{
    let ghost s = entries(buckets@);
    proof {
        lemma_slot(s, name@);
    }
    let mut i: usize = 0;
    while i < buckets.len()
        invariant
            s == entries(buckets@),
            i <= buckets@.len(),
            i <= slot(s, name@) <= s.len(),
            forall|j: int| 0 <= j < slot(s, name@) ==> precedes(#[trigger] s[j].name, name@),
            forall|j: int|
                slot(s, name@) <= j < s.len() ==> !precedes(#[trigger] s[j].name, name@),
        decreases buckets@.len() - i,
    {
        let here: Place = place(buckets[i].name, name);
        assert(s[i as int].name == buckets@[i as int].name@);
        match here {
            Place::Before => {
                i = i + 1;
            },
            Place::Same => {
                proof {
                    lemma_order_is_strict(name@, name@);
                }
                return (i, true);
            },
            Place::After => {
                return (i, false);
            },
        }
    }
    (i, false)
}

impl Profile {
    #[verifier::type_invariant]
    spec fn sorted(self) -> bool {
        in_order(entries(self.buckets@))
    }

    /// An empty profile.
    pub fn new() -> (r: Profile)
        ensures
            r@ == Seq::<Entry>::empty(),
    {
        let r = Profile { buckets: Vec::new() };
        assert(r@ =~= Seq::<Entry>::empty());
        r
    }

    /// Whether no category is there.
    pub fn is_empty(&self) -> (r: bool)
        ensures
            r == (self@.len() == 0),
            in_order(self@),
    {
        proof {
            use_type_invariant(self);
        }
        self.buckets.len() == 0
    }

    /// Time and calls of a category, where it is there.
    pub fn get(&self, name: &'static str) -> (r: Option<(u128, u64)>)
        ensures
            r is Some <==> holds(self@, name@),
            r matches Some(t) ==> (t.0 as nat, t.1 as nat) == tally(self@, name@),
            in_order(self@),
    {
        proof {
            use_type_invariant(self);
            lemma_found_at_slot(self@, name@);
        }
        let (i, found) = find_slot(&self.buckets, name);
        if found {
            Some((self.buckets[i].nanos, self.buckets[i].calls))
        } else {
            None
        }
    }

    /// Sets time and calls of a category.
    pub fn insert(&mut self, name: &'static str, value: (u128, u64))
        ensures
            final(self)@ == replaced(old(self)@, name@, value.0 as nat, value.1 as nat),
    {
        proof {
            use_type_invariant(&*self);
            lemma_slot(self@, name@);
            lemma_replaced_in_order(self@, name@, value.0 as nat, value.1 as nat);
        }
        let ghost before = self@;
        let mut buckets: Vec<Bucket> = Vec::new();
        std::mem::swap(&mut buckets, &mut self.buckets);
        let (i, found) = find_slot(&buckets, name);
        let bucket = Bucket { name, nanos: value.0, calls: value.1 };
        if found {
            buckets[i] = bucket;
        } else {
            buckets.insert(i, bucket);
        }
        assert(entries(buckets@) =~= replaced(before, name@, value.0 as nat, value.1 as nat));
        self.buckets = buckets;
    }

    /// Adds time and calls to a category.
    fn bump(&mut self, name: &'static str, nanos: u128, calls: u64)
        requires
            has_room(old(self)@, name@, nanos as nat, calls as nat),
        ensures
            final(self)@ == bumped(old(self)@, name@, nanos as nat, calls as nat),
            in_order(final(self)@),
    {
        proof {
            use_type_invariant(&*self);
            lemma_slot(self@, name@);
            lemma_found_at_slot(self@, name@);
            law_bump_adds_to_one_category(self@, name@, nanos as nat, calls as nat, name@);
        }
        let ghost before = self@;
        let mut buckets: Vec<Bucket> = Vec::new();
        std::mem::swap(&mut buckets, &mut self.buckets);
        let (i, found) = find_slot(&buckets, name);
        if found {
            let b: Bucket = buckets[i];
            assert(before[i as int].nanos == b.nanos && before[i as int].calls == b.calls);
            buckets[i] = Bucket { name: b.name, nanos: b.nanos + nanos, calls: b.calls + calls };
        } else {
            buckets.insert(i, Bucket { name, nanos, calls });
        }
        assert(entries(buckets@) =~= bumped(before, name@, nanos as nat, calls as nat));
        self.buckets = buckets;
    }

    /// Time over all categories, in nanoseconds.
    pub fn total(&self) -> (r: u128)
        requires
            total_nanos(self@) <= u128::MAX,
        ensures
            r == total_nanos(self@),
    {
        let mut acc: u128 = 0;
        let n: usize = self.buckets.len();
        for i in 0..n
            invariant
                n == self.buckets@.len(),
                acc == total_nanos(self@.take(i as int)),
                total_nanos(self@) <= u128::MAX,
        {
            proof {
                lemma_totals_split(self@.take(i + 1), self@.skip(i + 1));
                assert(self@.take(i + 1) + self@.skip(i + 1) =~= self@);
                assert(self@.take(i + 1).drop_last() =~= self@.take(i as int));
            }
            acc = acc + self.buckets[i].nanos;
        }
        assert(self@.take(n as int) =~= self@);
        acc
    }

    /// Adds every category of another profile to this one.
    pub fn merge(&mut self, other: &Profile)
        requires
            has_room_for(old(self)@, other@),
        ensures
            final(self)@ == merged(old(self)@, other@),
    {
        let ghost start = self@;
        proof {
            use_type_invariant(&*self);
            use_type_invariant(other);
        }
        let n: usize = other.buckets.len();
        for i in 0..n
            invariant
                n == other.buckets@.len(),
                in_order(start),
                in_order(other@),
                has_room_for(start, other@),
                self@ == merged(start, other@.take(i as int)),
        {
            let b: Bucket = other.buckets[i];
            let ghost front = other@.take(i as int);
            proof {
                let e = other@[i as int];
                assert(other@.take(i + 1).drop_last() =~= front);
                assert(other@.take(i + 1).last() == e);
                lemma_prefix_in_order(other@, i as int);
                law_merge_is_additive(start, front, e.name);
                lemma_found_at_slot(front, e.name);
                lemma_found_at_slot(other@, e.name);
                if holds(front, e.name) {
                    assert(other@[slot(front, e.name)].name == e.name);
                    assert(false);
                }
                assert(has_room(start, other@[i as int].name, e.nanos, e.calls));
            }
            self.bump(b.name, b.nanos, b.calls);
        }
        assert(other@.take(n as int) =~= other@);
    }

    /// An independent copy.
    pub fn copied(&self) -> (r: Profile)
        ensures
            r@ == self@,
    {
        proof {
            use_type_invariant(self);
        }
        let mut buckets: Vec<Bucket> = Vec::new();
        for i in 0..self.buckets.len()
            invariant
                buckets@ == self.buckets@.take(i as int),
        {
            buckets.push(self.buckets[i]);
            assert(self.buckets@.take(i + 1) =~= self.buckets@.take(i as int).push(
                self.buckets@[i as int],
            ));
        }
        assert(buckets@ =~= self.buckets@);
        Profile { buckets }
    }

    /// The categories by falling time; categories of equal time stand in order of names.
    pub fn rows_by_time(&self) -> (r: Vec<(&'static str, u128, u64)>)
        ensures
            rows_of(r@).to_multiset() == self@.to_multiset(),
            forall|i: int, j: int|
                0 <= i < j < r@.len() ==> stands_above(#[trigger] rows_of(r@)[i], #[trigger] rows_of(r@)[j]),
    {
        proof {
            use_type_invariant(self);
        }
        let mut rows: Vec<(&'static str, u128, u64)> = Vec::new();
        assert(rows_of(rows@) =~= self@.take(0));
        for k in 0..self.buckets.len()
            invariant
                in_order(self@),
                rows_of(rows@).to_multiset() == self@.take(k as int).to_multiset(),
                rows@.len() == k,
                forall|i: int, j: int|
                    0 <= i < j < rows@.len() ==> stands_above(
                        #[trigger] rows_of(rows@)[i],
                        #[trigger] rows_of(rows@)[j],
                    ),
        {
            let b: Bucket = self.buckets[k];
            let ghost s = rows_of(rows@);
            let ghost e = self@[k as int];
            let mut p: usize = rows.len();
            while p > 0 && rows[p - 1].1 < b.nanos
                invariant
                    s == rows_of(rows@),
                    p <= rows@.len(),
                    forall|i: int| p <= i < s.len() ==> #[trigger] s[i].nanos < b.nanos,
                decreases p,
            {
                p = p - 1;
                assert(s[p as int].nanos == rows@[p as int].1);
            }
            rows.insert(p, (b.name, b.nanos, b.calls));
            proof {
                let t = rows_of(rows@);
                assert(t =~= s.insert(p as int, e));
                vstd::seq_lib::to_multiset_insert(s, p as int, e);
                assert(self@.take(k + 1) =~= self@.take(k as int).push(e));
                vstd::seq_lib::to_multiset_build(self@.take(k as int), e);
                assert forall|i: int, j: int| 0 <= i < j < t.len() implies stands_above(
                    #[trigger] t[i],
                    #[trigger] t[j],
                ) by {
                    if i < p && j == p {
                        assert(stands_above(s[i], s[p - 1]) || i == p - 1);
                        assert(s[p - 1].nanos == rows@[p - 1].1);
                        lemma_member_precedes(self@, k as int, s, i);
                    } else if i == p {
                        assert(t[j] == s[j - 1]);
                    } else if i < p && j > p {
                        assert(t[j] == s[j - 1]);
                    } else if i > p {
                        assert(t[i] == s[i - 1] && t[j] == s[j - 1]);
                    }
                }
            }
        }
        assert(self@.take(self.buckets@.len() as int) =~= self@);
        rows
    }
}

/// The categories that rows stand for.
pub open spec fn rows_of(r: Seq<(&'static str, u128, u64)>) -> Seq<Entry> {
    Seq::new(
        r.len(),
        |i: int| Entry { name: r[i].0@, nanos: r[i].1 as nat, calls: r[i].2 as nat },
    )
}

/// More time, or as much and the earlier name.
pub open spec fn stands_above(a: Entry, b: Entry) -> bool {
    a.nanos > b.nanos || (a.nanos == b.nanos && precedes(a.name, b.name))
}

/// Rows taken from the first `k` categories stand before category `k` by name.
proof fn lemma_member_precedes(all: Seq<Entry>, k: int, s: Seq<Entry>, i: int)
    requires
        in_order(all),
        0 <= k < all.len(),
        s.to_multiset() == all.take(k).to_multiset(),
        0 <= i < s.len(),
    ensures
        precedes(s[i].name, all[k].name),
{
    vstd::seq_lib::to_multiset_contains(s, s[i]);
    vstd::seq_lib::to_multiset_contains(all.take(k), s[i]);
    assert(s.contains(s[i]));
    let q = choose|q: int| 0 <= q < all.take(k).len() && all.take(k)[q] == s[i];
    assert(precedes(all[q].name, all[k].name));
}

proof fn lemma_prefix_in_order(s: Seq<Entry>, k: int)
    requires
        in_order(s),
        0 <= k <= s.len(),
    ensures
        in_order(s.take(k)),
{
    let t = s.take(k);
    assert forall|i: int, j: int| 0 <= i < j < t.len() implies #[trigger] precedes(
        t[i].name,
        t[j].name,
    ) by {
        assert(precedes(s[i].name, s[j].name));
    }
}

impl Default for Profile {
    fn default() -> (r: Profile)
        ensures
            r@ == Seq::<Entry>::empty(),
    {
        Profile::new()
    }
}

/// What the profiles of a staging area hold.
pub open spec fn staged(g: Seq<Profile>) -> Seq<Seq<Entry>> {
    Seq::new(g.len(), |i: int| g[i]@)
}

/// The profile with all staged ones merged in, in order.
pub open spec fn merged_all(s: Seq<Entry>, g: Seq<Seq<Entry>>) -> Seq<Entry>
    decreases g.len(),
{
    if g.len() == 0 {
        s
    } else {
        merged(merged_all(s, g.drop_last()), g.last())
    }
}

/// Every category can take what the staged profiles hold.
pub open spec fn has_room_for_all(s: Seq<Entry>, g: Seq<Seq<Entry>>) -> bool
    decreases g.len(),
{
    g.len() == 0 || {
        &&& has_room_for_all(s, g.drop_last())
        &&& has_room_for(merged_all(s, g.drop_last()), g.last())
    }
}

/// Time over all staged profiles.
pub open spec fn staged_nanos(g: Seq<Seq<Entry>>) -> nat
    decreases g.len(),
{
    if g.len() == 0 {
        0
    } else {
        staged_nanos(g.drop_last()) + total_nanos(g.last())
    }
}

/// Calls over all staged profiles.
pub open spec fn staged_calls(g: Seq<Seq<Entry>>) -> nat
    decreases g.len(),
{
    if g.len() == 0 {
        0
    } else {
        staged_calls(g.drop_last()) + total_calls(g.last())
    }
}

/// Nothing is lost by staging: gathered totals are the main thread's and the workers'.
pub proof fn law_gathering_keeps_totals(s: Seq<Entry>, g: Seq<Seq<Entry>>)
    requires
        in_order(s),
        forall|i: int| 0 <= i < g.len() ==> in_order(#[trigger] g[i]),
    ensures
        in_order(merged_all(s, g)),
        total_nanos(merged_all(s, g)) == total_nanos(s) + staged_nanos(g),
        total_calls(merged_all(s, g)) == total_calls(s) + staged_calls(g),
    decreases g.len(),
{
    if g.len() > 0 {
        assert forall|i: int| 0 <= i < g.drop_last().len() implies in_order(
            #[trigger] g.drop_last()[i],
        ) by {
            assert(in_order(g[i]));
        }
        law_gathering_keeps_totals(s, g.drop_last());
        assert(in_order(g[g.len() - 1]));
        law_merge_is_additive(merged_all(s, g.drop_last()), g.last(), Seq::<char>::empty());
    }
}

/// What a worker recorded and flushed is what gathering adds to the main thread's profile.
pub proof fn law_flush_then_gather(main: Seq<Entry>, worker: Seq<Entry>)
    ensures
        merged_all(main, seq![worker]) == merged(main, worker),
        merged_all(main, Seq::<Seq<Entry>>::empty()) == main,
{
    let g = seq![worker];
    assert(g.drop_last() =~= Seq::<Seq<Entry>>::empty());
    reveal_with_fuel(merged_all, 2);
}

/// A point in time of `std::time::Instant`.
#[verifier::external_type_specification]
#[verifier::external_body]
pub struct ExInstant(std::time::Instant);

/// The present, from `Instant::now`. Nothing is promised of it.
#[verifier::external_body]
fn now() -> (r: std::time::Instant) {
    std::time::Instant::now()
}

/// Time passed since `start`, from `Instant::elapsed`, as whole seconds and nanoseconds:
/// the latter are fewer than a second's. How much time has passed is not promised.
#[verifier::external_body]
fn elapsed(start: &std::time::Instant) -> (r: (u64, u32))
    ensures
        r.1 < 1_000_000_000,
{
    let d = start.elapsed();
    (d.as_secs(), d.subsec_nanos())
}

/// Adds a sample to a thread's profile.
pub fn record(local: &mut Profile, name: &'static str, nanos: u128)
    requires
        has_room(old(local)@, name@, nanos as nat, 1),
    ensures
        final(local)@ == bumped(old(local)@, name@, nanos as nat, 1),
{
    local.bump(name, nanos, 1);
}

/// The profile with one more sample in a category, where the category can still count one.
pub open spec fn noted(s: Seq<Entry>, name: Seq<char>, nanos: nat) -> Seq<Entry> {
    if has_room(s, name, MAX_DURATION_NANOS as nat, 1) {
        bumped(s, name, nanos, 1)
    } else {
        s
    }
}

/// The profile with one more sample under each name, in order.
pub open spec fn noted_all(s: Seq<Entry>, names: Seq<Seq<char>>, nanos: Seq<nat>) -> Seq<Entry>
    decreases names.len(),
{
    if names.len() == 0 {
        s
    } else {
        noted(
            noted_all(s, names.drop_last(), nanos.drop_last()),
            names.last(),
            nanos.last(),
        )
    }
}

/// `after` is `before` with one more sample under each name, in order. How long each took is
/// left to the clock.
pub open spec fn timed(before: Seq<Entry>, names: Seq<Seq<char>>, after: Seq<Entry>) -> bool {
    exists|nanos: Seq<nat>|
        {
            &&& nanos.len() == names.len()
            &&& forall|i: int| 0 <= i < nanos.len() ==> #[trigger] nanos[i] <= MAX_DURATION_NANOS
            &&& after == #[trigger] noted_all(before, names, nanos)
        }
}

/// Nothing was timed.
pub proof fn lemma_timed_nothing(s: Seq<Entry>)
    ensures
        timed(s, seq![], s),
{
    assert(noted_all(s, seq![], seq![]) == s);
}

/// Measurements that follow one another.
pub proof fn lemma_timed_then(
    before: Seq<Entry>,
    names: Seq<Seq<char>>,
    mid: Seq<Entry>,
    more: Seq<Seq<char>>,
    after: Seq<Entry>,
)
    requires
        timed(before, names, mid),
        timed(mid, more, after),
    ensures
        timed(before, names + more, after),
{
    let a = choose|nanos: Seq<nat>|
        {
            &&& nanos.len() == names.len()
            &&& forall|i: int| 0 <= i < nanos.len() ==> #[trigger] nanos[i] <= MAX_DURATION_NANOS
            &&& mid == #[trigger] noted_all(before, names, nanos)
        };
    let b = choose|nanos: Seq<nat>|
        {
            &&& nanos.len() == more.len()
            &&& forall|i: int| 0 <= i < nanos.len() ==> #[trigger] nanos[i] <= MAX_DURATION_NANOS
            &&& after == #[trigger] noted_all(mid, more, nanos)
        };
    lemma_noted_then(before, names, a, more, b);
    assert(noted_all(before, names + more, a + b) == after);
}

proof fn lemma_noted_then(
    s: Seq<Entry>,
    names: Seq<Seq<char>>,
    a: Seq<nat>,
    more: Seq<Seq<char>>,
    b: Seq<nat>,
)
    requires
        a.len() == names.len(),
        b.len() == more.len(),
    ensures
        noted_all(s, names + more, a + b) == noted_all(noted_all(s, names, a), more, b),
    decreases more.len(),
{
    if more.len() == 0 {
        assert(names + more =~= names);
        assert(a + b =~= a);
    } else {
        lemma_noted_then(s, names, a, more.drop_last(), b.drop_last());
        assert((names + more).drop_last() =~= names + more.drop_last());
        assert((a + b).drop_last() =~= a + b.drop_last());
    }
}

/// A sample touches its own category alone, and counts one more call there.
pub proof fn law_noted_sample_counts_once(
    s: Seq<Entry>,
    name: Seq<char>,
    nanos: nat,
    other: Seq<char>,
)
    requires
        in_order(s),
        has_room(s, name, MAX_DURATION_NANOS as nat, 1),
    ensures
        tally(noted(s, name, nanos), name) == (tally(s, name).0 + nanos, tally(s, name).1 + 1),
        other != name ==> tally(noted(s, name, nanos), other) == tally(s, other),
{
    law_bump_adds_to_one_category(s, name, nanos, 1, name);
    law_bump_adds_to_one_category(s, name, nanos, 1, other);
}

/// How often a name stands in a list.
pub open spec fn occurrences(names: Seq<Seq<char>>, name: Seq<char>) -> nat
    decreases names.len(),
{
    if names.len() == 0 {
        0
    } else if names.last() == name {
        occurrences(names.drop_last(), name) + 1
    } else {
        occurrences(names.drop_last(), name)
    }
}

/// A name stands in two lists together as often as in each.
pub proof fn lemma_occurrences_add(a: Seq<Seq<char>>, b: Seq<Seq<char>>, name: Seq<char>)
    ensures
        occurrences(a + b, name) == occurrences(a, name) + occurrences(b, name),
    decreases b.len(),
{
    if b.len() == 0 {
        assert(a + b =~= a);
    } else {
        assert((a + b).drop_last() =~= a + b.drop_last());
        lemma_occurrences_add(a, b.drop_last(), name);
    }
}

/// A category that can take them counts one more call for every measurement under its name, and
/// none for the others; its time grows by at most the longest that a measurement can last for
/// each.
pub proof fn law_measurements_are_counted(
    before: Seq<Entry>,
    names: Seq<Seq<char>>,
    after: Seq<Entry>,
    name: Seq<char>,
)
    requires
        in_order(before),
        timed(before, names, after),
        tally(before, name).0 + occurrences(names, name) * MAX_DURATION_NANOS <= u128::MAX,
        tally(before, name).1 + occurrences(names, name) <= u64::MAX,
    ensures
        tally(after, name).1 == tally(before, name).1 + occurrences(names, name),
        tally(before, name).0 <= tally(after, name).0 <= tally(before, name).0 + occurrences(
            names,
            name,
        ) * MAX_DURATION_NANOS,
{
    let nanos = choose|nanos: Seq<nat>|
        {
            &&& nanos.len() == names.len()
            &&& forall|i: int| 0 <= i < nanos.len() ==> #[trigger] nanos[i] <= MAX_DURATION_NANOS
            &&& after == #[trigger] noted_all(before, names, nanos)
        };
    lemma_all_counted(before, names, nanos, name);
}

proof fn lemma_all_counted(
    before: Seq<Entry>,
    names: Seq<Seq<char>>,
    nanos: Seq<nat>,
    name: Seq<char>,
)
    requires
        in_order(before),
        nanos.len() == names.len(),
        forall|i: int| 0 <= i < nanos.len() ==> #[trigger] nanos[i] <= MAX_DURATION_NANOS,
        tally(before, name).0 + occurrences(names, name) * MAX_DURATION_NANOS <= u128::MAX,
        tally(before, name).1 + occurrences(names, name) <= u64::MAX,
    ensures
        ({
            let after = noted_all(before, names, nanos);
            &&& in_order(after)
            &&& tally(after, name).1 == tally(before, name).1 + occurrences(names, name)
            &&& tally(before, name).0 <= tally(after, name).0 <= tally(before, name).0
                + occurrences(names, name) * MAX_DURATION_NANOS
        }),
    decreases names.len(),
{
    if names.len() > 0 {
        let shorter = names.drop_last();
        let times = nanos.drop_last();
        let k = occurrences(shorter, name);
        let last = names.last();
        let t = nanos.last();
        assert(nanos[names.len() - 1] <= MAX_DURATION_NANOS);
        assert forall|i: int| 0 <= i < times.len() implies #[trigger] times[i]
            <= MAX_DURATION_NANOS by {
            assert(nanos[i] <= MAX_DURATION_NANOS);
        }
        assert((k + 1) * MAX_DURATION_NANOS == k * MAX_DURATION_NANOS + MAX_DURATION_NANOS);
        lemma_all_counted(before, shorter, times, name);
        let mid = noted_all(before, shorter, times);
        law_bump_adds_to_one_category(mid, last, t, 1, name);
    }
}

/// Rows by falling time never show less time above more; of equal times the earlier name stands
/// above.
pub proof fn law_rows_fall(a: Entry, b: Entry)
    requires
        stands_above(a, b),
    ensures
        a.nanos >= b.nanos,
        a.nanos == b.nanos ==> a.name != b.name,
        !stands_above(b, a),
{
    if a.nanos == b.nanos {
        lemma_order_is_strict(a.name, b.name);
        lemma_order_is_strict(b.name, a.name);
    }
}

/// A running measurement. The profile is free while it runs, so that measurements may nest.
pub struct Stopwatch {
    started: std::time::Instant,
}

impl Stopwatch {
    /// The measurement began when the clock was read.
    pub closed spec fn running(self) -> bool {
        call_ensures(now, (), self.started)
    }

    /// The clock may say that this many nanoseconds have passed since the measurement began.
    pub closed spec fn measures(self, nanos: nat) -> bool {
        exists|secs: u64, subsec: u32|
            {
                &&& #[trigger] call_ensures(elapsed, (&self.started,), (secs, subsec))
                &&& nanos == secs * 1_000_000_000 + subsec
            }
    }

    /// Starts measuring.
    pub fn start() -> (r: Stopwatch)
        ensures
            r.running(),
    {
        Stopwatch { started: now() }
    }

    /// Ends the measurement and adds it, as one more sample under `name`, to the profile as it
    /// then is. How long it took is left to the clock.
    pub fn stop(self, local: &mut Profile, name: &'static str)
        requires
            has_room(old(local)@, name@, MAX_DURATION_NANOS as nat, 1),
        ensures
            exists|nanos: nat|
                {
                    &&& self.measures(nanos)
                    &&& nanos <= MAX_DURATION_NANOS
                    &&& final(local)@ == #[trigger] bumped(old(local)@, name@, nanos, 1)
                },
    {
        let (secs, subsec) = elapsed(&self.started);
        let nanos: u128 = secs as u128 * 1_000_000_000 + subsec as u128;
        assert(self.measures(nanos as nat));
        record(local, name, nanos);
    }

    /// Ends the measurement and adds it to the profile, where the category can still count it.
    pub fn note(self, local: &mut Profile, name: &'static str)
        ensures
            timed(old(local)@, seq![name@], final(local)@),
            final(local)@ != old(local)@ ==> exists|nanos: nat|
                self.measures(nanos) && final(local)@ == #[trigger] bumped(
                    old(local)@,
                    name@,
                    nanos,
                    1,
                ),
    {
        let (nanos, calls): (u128, u64) = match local.get(name) {
            Some(t) => t,
            None => (0, 0),
        };
        let ghost mut took: nat = 0;
        if nanos <= u128::MAX - MAX_DURATION_NANOS && calls < u64::MAX {
            self.stop(local, name);
            proof {
                took = choose|nanos: nat|
                    nanos <= MAX_DURATION_NANOS && local@ == #[trigger] bumped(
                        old(local)@,
                        name@,
                        nanos,
                        1,
                    );
            }
        }
        proof {
            let names = seq![name@];
            let samples = seq![took];
            assert(names.drop_last() =~= Seq::<Seq<char>>::empty());
            assert(noted_all(old(local)@, names.drop_last(), samples.drop_last()) == old(local)@);
            assert(noted_all(old(local)@, names, samples) == local@);
        }
    }
}

/// Runs `f`, which cannot record itself, and records under `name` how long that took.
pub fn time<R, F: FnOnce() -> R>(local: &mut Profile, name: &'static str, f: F) -> (r: R)
    requires
        f.requires(()),
        has_room(old(local)@, name@, MAX_DURATION_NANOS as nat, 1),
    ensures
        f.ensures((), r),
        exists|watch: Stopwatch, nanos: nat|
            {
                &&& watch.running()
                &&& #[trigger] watch.measures(nanos)
                &&& nanos <= MAX_DURATION_NANOS
                &&& final(local)@ == #[trigger] bumped(old(local)@, name@, nanos, 1)
            },
{
    let watch: Stopwatch = Stopwatch::start();
    let r = f();
    watch.stop(local, name);
    r
}

/// Clears a thread's profile.
pub fn reset(local: &mut Profile)
    ensures
        final(local)@ == Seq::<Entry>::empty(),
{
    *local = Profile::new();
}

/// Clears a thread's profile and the staging area.
pub fn reset_all(local: &mut Profile, global: &mut Vec<Profile>)
    ensures
        final(local)@ == Seq::<Entry>::empty(),
        final(global)@.len() == 0,
{
    reset(local);
    global.clear();
}

/// A copy of a thread's profile.
pub fn snapshot(local: &Profile) -> (r: Profile)
    ensures
        r@ == local@,
{
    local.copied()
}

/// Moves a thread's profile to the end of the staging area; an empty one is not staged.
pub fn flush_to_global(local: &mut Profile, global: &mut Vec<Profile>)
    ensures
        final(local)@ == Seq::<Entry>::empty(),
        staged(final(global)@) == (if old(local)@.len() == 0 {
            staged(old(global)@)
        } else {
            staged(old(global)@).push(old(local)@)
        }),
{
    let snap: Profile = local.copied();
    reset(local);
    if !snap.is_empty() {
        global.push(snap);
        assert(staged(global@) =~= staged(old(global)@).push(old(local)@));
    }
}

/// Merges all staged profiles into a thread's profile, in order, and empties the staging
/// area.
pub fn aggregate_threads(local: &mut Profile, global: &mut Vec<Profile>)
    requires
        has_room_for_all(old(local)@, staged(old(global)@)),
    ensures
        final(local)@ == merged_all(old(local)@, staged(old(global)@)),
        final(global)@.len() == 0,
{
    let ghost start = local@;
    let ghost g = staged(global@);
    let n: usize = global.len();
    for i in 0..n
        invariant
            n == global@.len(),
            g == staged(global@),
            has_room_for_all(start, g),
            local@ == merged_all(start, g.take(i as int)),
    {
        proof {
            lemma_room_of_prefix(start, g, i + 1);
            assert(g.take(i + 1).drop_last() =~= g.take(i as int));
            assert(g.take(i + 1).last() == g[i as int]);
        }
        local.merge(&global[i]);
    }
    assert(g.take(n as int) =~= g);
    global.clear();
}

proof fn lemma_room_of_prefix(s: Seq<Entry>, g: Seq<Seq<Entry>>, k: int)
    requires
        has_room_for_all(s, g),
        0 <= k <= g.len(),
    ensures
        has_room_for_all(s, g.take(k)),
    decreases g.len(),
{
    if k == g.len() {
        assert(g.take(k) =~= g);
    } else {
        lemma_room_of_prefix(s, g.drop_last(), k);
        assert(g.drop_last().take(k) =~= g.take(k));
    }
}

/// Held by a worker thread while it records; released at the end of its work.
#[derive(Debug)]
pub struct WorkerProfileGuard;

impl WorkerProfileGuard {
    pub fn new() -> (r: WorkerProfileGuard)
        ensures
            r == WorkerProfileGuard,
    {
        WorkerProfileGuard
    }

    /// Flushes the worker's profile into the staging area.
    pub fn release(self, local: &mut Profile, global: &mut Vec<Profile>)
        ensures
            final(local)@ == Seq::<Entry>::empty(),
            staged(final(global)@) == (if old(local)@.len() == 0 {
                staged(old(global)@)
            } else {
                staged(old(global)@).push(old(local)@)
            }),
    {
        flush_to_global(local, global);
    }
}

impl Default for WorkerProfileGuard {
    fn default() -> (r: WorkerProfileGuard) {
        WorkerProfileGuard::new()
    }
}

} // verus!

//! Sums over the entries of a finite map.
use vstd::prelude::*;

verus! {

/// The sum of `g` over a finite set.
pub open spec fn set_total<K>(keys: Set<K>, g: spec_fn(K) -> nat) -> nat
    decreases keys.len(),
{
    if keys.finite() && keys.len() > 0 {
        let k = keys.choose();
        g(k) + set_total(keys.remove(k), g)
    } else {
        0
    }
}

/// A weight of map entries as a weight of their keys.
pub open spec fn entry_weight<K, V>(entries: Map<K, V>, g: spec_fn(K, V) -> nat) -> spec_fn(
    K,
) -> nat {
    |k: K| g(k, entries[k])
}

/// The sum of `g` over the entries of a map with finitely many keys.
pub open spec fn map_total<K, V>(entries: Map<K, V>, g: spec_fn(K, V) -> nat) -> nat {
    set_total(entries.dom(), entry_weight(entries, g))
}

/// Any element can be split off a sum.
proof fn lemma_set_total_split<K>(keys: Set<K>, g: spec_fn(K) -> nat, k: K)
    requires
        keys.finite(),
        keys.contains(k),
    ensures
        set_total(keys, g) == g(k) + set_total(keys.remove(k), g),
    decreases keys.len(),
{
    let c = keys.choose();
    if c != k {
        lemma_set_total_split(keys.remove(c), g, k);
        lemma_set_total_split(keys.remove(k), g, c);
        assert(keys.remove(c).remove(k) =~= keys.remove(k).remove(c));
    }
}

/// Weights that agree on a set have the same sum over it.
proof fn lemma_set_total_same<K>(keys: Set<K>, g: spec_fn(K) -> nat, h: spec_fn(K) -> nat)
    requires
        keys.finite(),
        forall|k: K| keys.contains(k) ==> #[trigger] g(k) == h(k),
    ensures
        set_total(keys, g) == set_total(keys, h),
    decreases keys.len(),
{
    if keys.len() > 0 {
        let c = keys.choose();
        assert(g(c) == h(c));
        lemma_set_total_same(keys.remove(c), g, h);
    }
}

/// How a sum over a map changes when an entry is inserted or replaced.
pub proof fn lemma_map_total_insert<K, V>(entries: Map<K, V>, g: spec_fn(K, V) -> nat, k: K, v: V)
    requires
        entries.dom().finite(),
    ensures
        entries.insert(k, v).dom().finite(),
        entries.contains_key(k) ==> map_total(entries.insert(k, v), g) + g(k, entries[k])
            == map_total(entries, g) + g(k, v),
        !entries.contains_key(k) ==> map_total(entries.insert(k, v), g) == map_total(entries, g)
            + g(k, v),
{
    let after = entries.insert(k, v);
    let old_weight = entry_weight(entries, g);
    let new_weight = entry_weight(after, g);
    let rest = entries.dom().remove(k);
    assert(after.dom() =~= entries.dom().insert(k));
    lemma_set_total_split(after.dom(), new_weight, k);
    assert(after.dom().remove(k) =~= rest);
    assert forall|j: K| rest.contains(j) implies #[trigger] new_weight(j) == old_weight(j) by {
        assert(after[j] == entries[j]);
    }
    lemma_set_total_same(rest, new_weight, old_weight);
    if entries.contains_key(k) {
        lemma_set_total_split(entries.dom(), old_weight, k);
    } else {
        assert(rest =~= entries.dom());
    }
}

/// No entry weighs more than the sum.
pub proof fn lemma_map_total_bounds<K, V>(entries: Map<K, V>, g: spec_fn(K, V) -> nat, k: K)
    requires
        entries.dom().finite(),
        entries.contains_key(k),
    ensures
        g(k, entries[k]) <= map_total(entries, g),
{
    lemma_set_total_split(entries.dom(), entry_weight(entries, g), k);
}

/// A sum in which all entries but one weigh nothing is the weight of that entry, or
/// nothing where it is missing.
pub proof fn lemma_map_total_single<K, V>(entries: Map<K, V>, g: spec_fn(K, V) -> nat, k: K)
    requires
        entries.dom().finite(),
        forall|j: K| #[trigger] entries.contains_key(j) && j != k ==> g(j, entries[j]) == 0,
    ensures
        map_total(entries, g) == if entries.contains_key(k) {
            g(k, entries[k])
        } else {
            0
        },
{
    let weight = entry_weight(entries, g);
    if entries.contains_key(k) {
        lemma_set_total_split(entries.dom(), weight, k);
        lemma_set_total_zero(entries.dom().remove(k), weight);
    } else {
        lemma_set_total_zero(entries.dom(), weight);
    }
}

/// A sum over a map of nothing but zeros is zero.
pub proof fn lemma_map_total_zero<K, V>(entries: Map<K, V>, g: spec_fn(K, V) -> nat)
    requires
        entries.dom().finite(),
        forall|k: K| #[trigger] entries.contains_key(k) ==> g(k, entries[k]) == 0,
    ensures
        map_total(entries, g) == 0,
{
    assert forall|k: K| #[trigger] entries.dom().contains(k) implies entry_weight(entries, g)(k)
        == 0 by {
        assert(entries.contains_key(k));
    }
    lemma_set_total_zero(entries.dom(), entry_weight(entries, g));
}

/// A sum of nothing but zeros is zero.
proof fn lemma_set_total_zero<K>(keys: Set<K>, g: spec_fn(K) -> nat)
    requires
        keys.finite(),
        forall|k: K| #[trigger] keys.contains(k) ==> g(k) == 0,
    ensures
        set_total(keys, g) == 0,
    decreases keys.len(),
{
    if keys.len() > 0 {
        lemma_set_total_zero(keys.remove(keys.choose()), g);
    }
}

/// Weights that agree on every entry have the same sum over a map.
pub proof fn lemma_map_total_same<K, V>(
    entries: Map<K, V>,
    g: spec_fn(K, V) -> nat,
    h: spec_fn(K, V) -> nat,
)
    requires
        entries.dom().finite(),
        forall|k: K| #[trigger] entries.contains_key(k) ==> g(k, entries[k]) == h(k, entries[k]),
    ensures
        map_total(entries, g) == map_total(entries, h),
{
    let (a, b) = (entry_weight(entries, g), entry_weight(entries, h));
    assert forall|k: K| entries.dom().contains(k) implies #[trigger] a(k) == b(k) by {
        assert(entries.contains_key(k));
    }
    lemma_set_total_same(entries.dom(), a, b);
}

/// A weight that is the sum of two others has the sum of their sums over a map.
pub proof fn lemma_map_total_sum<K, V>(
    entries: Map<K, V>,
    f: spec_fn(K, V) -> nat,
    g: spec_fn(K, V) -> nat,
    h: spec_fn(K, V) -> nat,
)
    requires
        entries.dom().finite(),
        forall|k: K| #[trigger]
            entries.contains_key(k) ==> f(k, entries[k]) == g(k, entries[k]) + h(k, entries[k]),
    ensures
        map_total(entries, f) == map_total(entries, g) + map_total(entries, h),
{
    let (a, b, c) = (
        entry_weight(entries, f),
        entry_weight(entries, g),
        entry_weight(entries, h),
    );
    assert forall|k: K| entries.dom().contains(k) implies #[trigger] a(k) == b(k) + c(k) by {
        assert(entries.contains_key(k));
    }
    lemma_set_total_sum(entries.dom(), a, b, c);
}

/// A weight that is the sum of two others has the sum of their sums over a set.
proof fn lemma_set_total_sum<K>(
    keys: Set<K>,
    f: spec_fn(K) -> nat,
    g: spec_fn(K) -> nat,
    h: spec_fn(K) -> nat,
)
    requires
        keys.finite(),
        forall|k: K| keys.contains(k) ==> #[trigger] f(k) == g(k) + h(k),
    ensures
        set_total(keys, f) == set_total(keys, g) + set_total(keys, h),
    decreases keys.len(),
{
    if keys.len() > 0 {
        let c = keys.choose();
        assert(f(c) == g(c) + h(c));
        lemma_set_total_sum(keys.remove(c), f, g, h);
    }
}

/// Weights that are nowhere larger have no larger sum over a map.
pub proof fn lemma_map_total_le<K, V>(
    entries: Map<K, V>,
    g: spec_fn(K, V) -> nat,
    h: spec_fn(K, V) -> nat,
)
    requires
        entries.dom().finite(),
        forall|k: K| #[trigger] entries.contains_key(k) ==> g(k, entries[k]) <= h(k, entries[k]),
    ensures
        map_total(entries, g) <= map_total(entries, h),
{
    let (a, b) = (entry_weight(entries, g), entry_weight(entries, h));
    assert forall|k: K| entries.dom().contains(k) implies #[trigger] a(k) <= b(k) by {
        assert(entries.contains_key(k));
    }
    lemma_set_total_le(entries.dom(), a, b);
}

/// Weights that are nowhere larger have no larger sum over a set.
proof fn lemma_set_total_le<K>(keys: Set<K>, g: spec_fn(K) -> nat, h: spec_fn(K) -> nat)
    requires
        keys.finite(),
        forall|k: K| keys.contains(k) ==> #[trigger] g(k) <= h(k),
    ensures
        set_total(keys, g) <= set_total(keys, h),
    decreases keys.len(),
{
    if keys.len() > 0 {
        let c = keys.choose();
        assert(g(c) <= h(c));
        lemma_set_total_le(keys.remove(c), g, h);
    }
}

/// A sum over a set is the sum over a part of it outside of which nothing weighs anything.
pub proof fn lemma_set_total_part<K>(keys: Set<K>, part: Set<K>, g: spec_fn(K) -> nat)
    requires
        keys.finite(),
        part.subset_of(keys),
        forall|k: K| #[trigger] keys.contains(k) && !part.contains(k) ==> g(k) == 0,
    ensures
        part.finite(),
        set_total(part, g) == set_total(keys, g),
    decreases keys.len(),
{
    vstd::set_lib::lemma_len_subset(part, keys);
    if keys.len() > 0 {
        let c = keys.choose();
        let rest = part.remove(c);
        assert forall|k: K| #[trigger]
            keys.remove(c).contains(k) && !rest.contains(k) implies g(k) == 0 by {
            assert(keys.contains(k));
        }
        lemma_set_total_part(keys.remove(c), rest, g);
        if part.contains(c) {
            lemma_set_total_split(part, g, c);
        } else {
            assert(rest =~= part);
            assert(keys.contains(c));
        }
    } else {
        assert(part =~= keys);
    }
}

/// A sum over the images of different elements is the sum over the elements.
pub proof fn lemma_set_total_image<K, J>(
    keys: Set<K>,
    m: spec_fn(K) -> J,
    g: spec_fn(J) -> nat,
    h: spec_fn(K) -> nat,
)
    requires
        keys.finite(),
        forall|a: K, b: K|
            keys.contains(a) && keys.contains(b) && a != b ==> #[trigger] m(a) != #[trigger] m(b),
        forall|k: K| #[trigger] keys.contains(k) ==> h(k) == g(m(k)),
    ensures
        keys.map(m).finite(),
        set_total(keys.map(m), g) == set_total(keys, h),
    decreases keys.len(),
{
    if keys.len() > 0 {
        let c = keys.choose();
        let rest = keys.remove(c);
        lemma_set_total_image(rest, m, g, h);
        assert(keys.contains(c));
        assert(keys.map(m) =~= rest.map(m).insert(m(c))) by {
            assert forall|j: J| keys.map(m).contains(j) == rest.map(m).insert(m(c)).contains(j) by {
                if keys.map(m).contains(j) {
                    let k = choose|k: K| keys.contains(k) && j == m(k);
                    if k != c {
                        assert(rest.contains(k));
                    }
                }
                if rest.map(m).contains(j) {
                    let k = choose|k: K| rest.contains(k) && j == m(k);
                    assert(keys.contains(k));
                }
            }
        }
        assert(!rest.map(m).contains(m(c)));
        lemma_set_total_split(keys.map(m), g, m(c));
        assert(keys.map(m).remove(m(c)) =~= rest.map(m));
    } else {
        assert(keys.map(m) =~= Set::empty());
    }
}

/// The empty map sums to nothing.
pub proof fn lemma_map_total_empty<K, V>(g: spec_fn(K, V) -> nat)
    ensures
        map_total(Map::<K, V>::empty(), g) == 0,
{
    assert(Map::<K, V>::empty().dom() =~= Set::empty());
}

} // verus!

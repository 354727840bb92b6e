//! Cultural identity metrics: the behaviour-tree pattern fingerprint of a tribe.
//!
//! The fingerprint aggregates per-member counts of behaviour-tree node types,
//! orders the node types by the bytes of their names, and folds names and
//! counts into a 64-bit FNV-1a hash.
use std::collections::HashMap;
use vstd::prelude::*;
use vstd::slice::slice_to_vec;
use vstd::utf8::encode_utf8;

verus! {

broadcast use vstd::utf8::encode_utf8_decode_utf8;

/// FNV-1a offset basis.
pub const FNV_OFFSET_BASIS: u64 = 0xcbf29ce484222325;

/// FNV-1a prime.
pub const FNV_PRIME: u64 = 0x100000001b3;

// ---------------------------------------------------------------------------
// Hash specification
// ---------------------------------------------------------------------------

/// One FNV-1a round: xor the value in, then multiply by the prime modulo 2^64.
pub open spec fn fnv_mix(h: u64, x: u64) -> u64 {
    (((h ^ x) as nat * FNV_PRIME as nat) % 0x1_0000_0000_0000_0000nat) as u64
}

/// FNV-1a over a byte string, starting from `h`.
pub open spec fn fnv_bytes(h: u64, bytes: Seq<u8>) -> u64
    decreases bytes.len(),
{
    if bytes.len() == 0 {
        h
    } else {
        fnv_mix(fnv_bytes(h, bytes.drop_last()), bytes.last() as u64)
    }
}

/// FNV-1a over a list of (name bytes, count) entries: each entry hashes its
/// name bytes and then its count.
pub open spec fn fnv_entries(h: u64, entries: Seq<(Seq<u8>, u64)>) -> u64
    decreases entries.len(),
{
    if entries.len() == 0 {
        h
    } else {
        let prev = fnv_entries(h, entries.drop_last());
        fnv_mix(fnv_bytes(prev, entries.last().0), entries.last().1)
    }
}

// ---------------------------------------------------------------------------
// Byte-wise lexicographic order (the order of `String`)
// ---------------------------------------------------------------------------

/// Strict lexicographic order on byte strings; a proper prefix comes first.
pub open spec fn bytes_lt(a: Seq<u8>, b: Seq<u8>) -> bool
    decreases a.len(),
{
    if a.len() == 0 {
        b.len() > 0
    } else if b.len() == 0 {
        false
    } else if a[0] < b[0] {
        true
    } else if a[0] > b[0] {
        false
    } else {
        bytes_lt(a.drop_first(), b.drop_first())
    }
}

proof fn lemma_bytes_lt_irreflexive(a: Seq<u8>)
    ensures
        !bytes_lt(a, a),
    decreases a.len(),
{
    if a.len() > 0 {
        lemma_bytes_lt_irreflexive(a.drop_first());
    }
}

proof fn lemma_bytes_lt_transitive(a: Seq<u8>, b: Seq<u8>, c: Seq<u8>)
    requires
        bytes_lt(a, b),
        bytes_lt(b, c),
    ensures
        bytes_lt(a, c),
    decreases a.len(),
{
    if a.len() > 0 && b.len() > 0 && c.len() > 0 {
        if a[0] == b[0] && b[0] == c[0] {
            lemma_bytes_lt_transitive(a.drop_first(), b.drop_first(), c.drop_first());
        }
    }
}

proof fn lemma_bytes_lt_total(a: Seq<u8>, b: Seq<u8>)
    requires
        a != b,
    ensures
        bytes_lt(a, b) || bytes_lt(b, a),
    decreases a.len(),
{
    if a.len() > 0 && b.len() > 0 && a[0] == b[0] {
        if a.drop_first() == b.drop_first() {
            assert(a =~= seq![a[0]] + a.drop_first());
            assert(b =~= seq![b[0]] + b.drop_first());
        }
        lemma_bytes_lt_total(a.drop_first(), b.drop_first());
    } else if a.len() == 0 && b.len() == 0 {
        assert(a =~= b);
    }
}

proof fn lemma_bytes_lt_asymmetric(a: Seq<u8>, b: Seq<u8>)
    requires
        bytes_lt(a, b),
    ensures
        !bytes_lt(b, a),
{
    if bytes_lt(b, a) {
        lemma_bytes_lt_transitive(a, b, a);
        lemma_bytes_lt_irreflexive(a);
    }
}

// ---------------------------------------------------------------------------
// Aggregated node-type counts
// ---------------------------------------------------------------------------

/// The UTF-8 bytes of a node-type name.
pub open spec fn key_bytes(k: String) -> Seq<u8> {
    encode_utf8(k@)
}

/// The count that one member's table holds for the node type named by `b`.
pub open spec fn count_in(m: Map<String, u64>, b: Seq<u8>) -> nat {
    if exists|k: String| m.contains_key(k) && key_bytes(k) == b {
        m[choose|k: String| m.contains_key(k) && key_bytes(k) == b] as nat
    } else {
        0
    }
}

/// The count of the node type named by `b`, summed over all members' tables.
pub open spec fn total_count(maps: Seq<Map<String, u64>>, b: Seq<u8>) -> nat
    decreases maps.len(),
{
    if maps.len() == 0 {
        0
    } else {
        total_count(maps.drop_last(), b) + count_in(maps.last(), b)
    }
}

/// Whether some member's table names the node type whose bytes are `b`.
pub open spec fn names_key(maps: Seq<Map<String, u64>>, b: Seq<u8>) -> bool {
    exists|i: int, k: String|
        0 <= i < maps.len() && #[trigger] maps[i].contains_key(k) && key_bytes(k) == b
}

/// `s` lists every node type named by some table exactly once, in byte order,
/// each with its summed count.
pub open spec fn is_sorted_tally(maps: Seq<Map<String, u64>>, s: Seq<(Seq<u8>, u64)>) -> bool {
    &&& forall|i: int, j: int| 0 <= i < j < s.len() ==> bytes_lt(#[trigger] s[i].0, #[trigger] s[j].0)
    &&& forall|i: int|
        0 <= i < s.len() ==> names_key(maps, #[trigger] s[i].0) && s[i].1 == total_count(maps, s[i].0)
    &&& forall|b: Seq<u8>|
        #![trigger names_key(maps, b)]
        names_key(maps, b) ==> exists|i: int| 0 <= i < s.len() && #[trigger] s[i].0 == b
}

/// The sorted tally of a list of tables.
pub open spec fn sorted_tally(maps: Seq<Map<String, u64>>) -> Seq<(Seq<u8>, u64)> {
    choose|s: Seq<(Seq<u8>, u64)>| is_sorted_tally(maps, s)
}

/// The pattern hash of a list of per-member node-type tables: 0 for no members,
/// else FNV-1a over the sorted tally.
pub open spec fn bt_pattern_hash(maps: Seq<Map<String, u64>>) -> u64 {
    if maps.len() == 0 {
        0
    } else {
        fnv_entries(FNV_OFFSET_BASIS, sorted_tally(maps))
    }
}

/// The tables of a slice of hash maps, as maps.
pub open spec fn tables(counts: Seq<HashMap<String, u64>>) -> Seq<Map<String, u64>> {
    counts.map_values(|m: HashMap<String, u64>| m@)
}

/// No summed count exceeds `u64::MAX`.
pub open spec fn totals_fit(maps: Seq<Map<String, u64>>) -> bool {
    forall|b: Seq<u8>| #[trigger] total_count(maps, b) <= u64::MAX
}

// ---------------------------------------------------------------------------
// Lemmas on tallies
// ---------------------------------------------------------------------------

/// Two sorted tallies of the same tables are equal.
pub proof fn lemma_sorted_tally_unique(
    maps: Seq<Map<String, u64>>,
    s: Seq<(Seq<u8>, u64)>,
    t: Seq<(Seq<u8>, u64)>,
)
    requires
        is_sorted_tally(maps, s),
        is_sorted_tally(maps, t),
    ensures
        s == t,
{
    assert forall|b: Seq<u8>| #[trigger] tally_has(s, b) implies tally_has(t, b) by {
        let i = choose|i: int| 0 <= i < s.len() && s[i].0 == b;
        assert(names_key(maps, s[i].0));
    }
    assert forall|b: Seq<u8>| #[trigger] tally_has(t, b) implies tally_has(s, b) by {
        let i = choose|i: int| 0 <= i < t.len() && t[i].0 == b;
        assert(names_key(maps, t[i].0));
    }
    lemma_sorted_same_keys(s, t);
}

/// The byte names of the node types that some table names.
pub open spec fn named_keys(maps: Seq<Map<String, u64>>) -> Set<Seq<u8>>
    decreases maps.len(),
{
    if maps.len() == 0 {
        Set::empty()
    } else {
        named_keys(maps.drop_last()).union(maps.last().dom().map(|k: String| key_bytes(k)))
    }
}

/// Every table has finitely many entries.
pub open spec fn tables_finite(maps: Seq<Map<String, u64>>) -> bool {
    forall|i: int| 0 <= i < maps.len() ==> #[trigger] maps[i].dom().finite()
}

/// The named keys are finitely many, and exactly those some table names.
proof fn lemma_named_keys(maps: Seq<Map<String, u64>>)
    requires
        tables_finite(maps),
    ensures
        named_keys(maps).finite(),
        forall|b: Seq<u8>| #[trigger] named_keys(maps).contains(b) <==> names_key(maps, b),
    decreases maps.len(),
{
    if maps.len() > 0 {
        let init = maps.drop_last();
        let last = maps.last();
        assert(tables_finite(init)) by {
            assert forall|i: int| 0 <= i < init.len() implies #[trigger] init[i].dom().finite() by {
                assert(init[i] == maps[i]);
            }
        }
        lemma_named_keys(init);
        assert(last.dom().finite()) by {
            assert(maps[maps.len() - 1].dom().finite());
        }
        last.dom().lemma_map_finite(|k: String| key_bytes(k));
        assert forall|b: Seq<u8>| #[trigger] named_keys(maps).contains(b) <==> names_key(maps, b) by {
            if names_key(maps, b) {
                let (i, k) = choose|i: int, k: String|
                    0 <= i < maps.len() && #[trigger] maps[i].contains_key(k) && key_bytes(k) == b;
                if i < maps.len() - 1 {
                    assert(init[i] == maps[i]);
                    assert(names_key(init, b));
                } else {
                    assert(last.dom().contains(k));
                    assert(last.dom().map(|k: String| key_bytes(k)).contains(b));
                }
            }
            if named_keys(maps).contains(b) {
                if named_keys(init).contains(b) {
                    let (i, k) = choose|i: int, k: String|
                        0 <= i < init.len() && #[trigger] init[i].contains_key(k) && key_bytes(k) == b;
                    assert(maps[i] == init[i]);
                    assert(maps[i].contains_key(k));
                } else {
                    let k = choose|k: String| last.dom().contains(k) && key_bytes(k) == b;
                    assert(maps[maps.len() - 1].contains_key(k));
                }
            }
        }
    }
}

/// Byte-wise order, equality included.
pub open spec fn bytes_le(a: Seq<u8>, b: Seq<u8>) -> bool {
    a == b || bytes_lt(a, b)
}

proof fn lemma_bytes_le_total_ordering()
    ensures
        vstd::relations::total_ordering(|a: Seq<u8>, b: Seq<u8>| bytes_le(a, b)),
{
    let leq = |a: Seq<u8>, b: Seq<u8>| bytes_le(a, b);
    assert forall|a: Seq<u8>, b: Seq<u8>| #[trigger] leq(a, b) && #[trigger] leq(b, a) implies a == b by {
        if a != b {
            lemma_bytes_lt_asymmetric(a, b);
        }
    }
    assert forall|a: Seq<u8>, b: Seq<u8>, c: Seq<u8>| #[trigger] leq(a, b) && #[trigger] leq(b, c) implies leq(
        a,
        c,
    ) by {
        if a != b && b != c {
            lemma_bytes_lt_transitive(a, b, c);
        }
    }
    assert forall|a: Seq<u8>, b: Seq<u8>| #[trigger] leq(a, b) || #[trigger] leq(b, a) by {
        if a != b {
            lemma_bytes_lt_total(a, b);
        }
    }
}

/// A finite set's listing holds each element once.
proof fn lemma_to_seq_no_duplicates<A>(s: Set<A>)
    requires
        s.finite(),
    ensures
        s.to_seq().no_duplicates(),
        forall|x: A| #[trigger] s.to_seq().contains(x) <==> s.contains(x),
    decreases s.len(),
{
    if s.len() > 0 {
        let x = s.choose();
        assert(s.contains(x));
        let rest = s.remove(x);
        lemma_to_seq_no_duplicates(rest);
        let t = s.to_seq();
        assert(t == Seq::<A>::empty().push(x) + rest.to_seq());
        assert forall|y: A| #[trigger] t.contains(y) <==> s.contains(y) by {
            if t.contains(y) {
                let i = choose|i: int| 0 <= i < t.len() && t[i] == y;
                if i > 0 {
                    assert(rest.to_seq()[i - 1] == y);
                    assert(rest.to_seq().contains(y));
                    assert(rest.contains(y));
                } else {
                    assert(y == x);
                }
                assert(s.contains(y));
            }
            if s.contains(y) {
                if y == x {
                    assert(t[0] == y);
                } else {
                    assert(rest.to_seq().contains(y));
                    let i = choose|i: int| 0 <= i < rest.to_seq().len() && rest.to_seq()[i] == y;
                    assert(t[i + 1] == y);
                }
            }
        }
        assert forall|i: int, j: int| 0 <= i < t.len() && 0 <= j < t.len() && i != j implies t[i] != t[j] by {
            if i > 0 && j > 0 {
                assert(t[i] == rest.to_seq()[i - 1]);
                assert(t[j] == rest.to_seq()[j - 1]);
            } else if i == 0 {
                assert(rest.to_seq().contains(t[j]));
            } else {
                assert(rest.to_seq().contains(t[i]));
            }
        }
    } else {
        assert(s =~= Set::<A>::empty());
    }
}

/// The named keys in byte order, each with its summed count.
pub open spec fn tally_of(maps: Seq<Map<String, u64>>) -> Seq<(Seq<u8>, u64)> {
    named_keys(maps).to_seq().sort_by(|a: Seq<u8>, b: Seq<u8>| bytes_le(a, b)).map_values(
        |b: Seq<u8>| (b, total_count(maps, b) as u64),
    )
}

/// Every list of finite tables whose sums fit in a `u64` has a sorted
/// tally: its node types in byte order, each with its summed count.
pub proof fn lemma_sorted_tally_exists(maps: Seq<Map<String, u64>>)
    requires
        tables_finite(maps),
        totals_fit(maps),
    ensures
        is_sorted_tally(maps, tally_of(maps)),
        sorted_tally(maps) == tally_of(maps),
{
    broadcast use vstd::seq_lib::group_to_multiset_ensures;

    let leq = |a: Seq<u8>, b: Seq<u8>| bytes_le(a, b);
    lemma_named_keys(maps);
    let keys = named_keys(maps);
    lemma_to_seq_no_duplicates(keys);
    let listed = keys.to_seq();
    lemma_bytes_le_total_ordering();
    listed.lemma_sort_by_ensures(leq);
    let sorted = listed.sort_by(leq);
    listed.lemma_multiset_has_no_duplicates();
    assert forall|x: Seq<u8>| sorted.to_multiset().contains(x) implies sorted.to_multiset().count(x) == 1 by {
        assert(listed.to_multiset().contains(x));
    }
    sorted.lemma_multiset_has_no_duplicates_conv();
    assert forall|b: Seq<u8>| #[trigger] sorted.contains(b) <==> keys.contains(b) by {
        assert(sorted.to_multiset().contains(b) <==> listed.to_multiset().contains(b));
    }
    let t = tally_of(maps);
    assert(t.len() == sorted.len());
    assert forall|i: int, j: int| 0 <= i < j < t.len() implies bytes_lt(#[trigger] t[i].0, #[trigger] t[j].0) by {
        assert(t[i].0 == sorted[i] && t[j].0 == sorted[j]);
        assert(leq(sorted[i], sorted[j]));
    }
    assert forall|i: int| 0 <= i < t.len() implies names_key(maps, #[trigger] t[i].0) && t[i].1 == total_count(
        maps,
        t[i].0,
    ) by {
        assert(sorted.contains(sorted[i]));
        assert(total_count(maps, sorted[i]) <= u64::MAX);
    }
    assert forall|b: Seq<u8>| #![trigger names_key(maps, b)] names_key(maps, b) implies exists|i: int|
        0 <= i < t.len() && #[trigger] t[i].0 == b by {
        assert(keys.contains(b));
        assert(sorted.contains(b));
        let i = choose|i: int| 0 <= i < sorted.len() && sorted[i] == b;
        assert(t[i].0 == b);
    }
    assert(is_sorted_tally(maps, t));
    assert(is_sorted_tally(maps, sorted_tally(maps)));
    lemma_sorted_tally_unique(maps, t, sorted_tally(maps));
}

/// Law: the pattern hash depends only on the aggregate pattern: two lists of
/// finite tables (with some member each) that name the same node types with
/// the same summed counts, all fitting in a `u64`, hash alike, whatever the
/// members, how the counts are split among them, and their order.
pub proof fn law_hash_depends_on_aggregate(m1: Seq<Map<String, u64>>, m2: Seq<Map<String, u64>>)
    requires
        m1.len() > 0,
        m2.len() > 0,
        tables_finite(m1),
        tables_finite(m2),
        totals_fit(m1),
        forall|b: Seq<u8>| names_key(m1, b) == names_key(m2, b),
        forall|b: Seq<u8>| total_count(m1, b) == total_count(m2, b),
    ensures
        bt_pattern_hash(m1) == bt_pattern_hash(m2),
{
    lemma_sorted_tally_exists(m1);
    let s = tally_of(m1);
    assert(is_sorted_tally(m2, s)) by {
        assert forall|i: int| 0 <= i < s.len() implies names_key(m2, #[trigger] s[i].0) && s[i].1
            == total_count(m2, s[i].0) by {
            assert(names_key(m1, s[i].0));
        }
        assert forall|b: Seq<u8>| #![trigger names_key(m2, b)] names_key(m2, b) implies exists|i: int|
            0 <= i < s.len() && #[trigger] s[i].0 == b by {
            assert(names_key(m1, b));
        }
    }
    let s2 = sorted_tally(m2);
    assert(is_sorted_tally(m2, s2));
    lemma_sorted_tally_unique(m2, s, s2);
}

/// Law, for the hash maps that `compute_bt_pattern_hash` takes: two
/// non-empty slices of tables with the same node types and the same summed
/// counts (fitting in a `u64`) get the same pattern hash.
pub proof fn law_hash_of_tables_depends_on_aggregate(a: Seq<HashMap<String, u64>>, b: Seq<HashMap<String, u64>>)
    requires
        a.len() > 0,
        b.len() > 0,
        totals_fit(tables(a)),
        forall|k: Seq<u8>| names_key(tables(a), k) == names_key(tables(b), k),
        forall|k: Seq<u8>| total_count(tables(a), k) == total_count(tables(b), k),
    ensures
        bt_pattern_hash(tables(a)) == bt_pattern_hash(tables(b)),
{
    lemma_tables_finite(a);
    lemma_tables_finite(b);
    law_hash_depends_on_aggregate(tables(a), tables(b));
}

/// The tables of hash maps are finite.
pub proof fn lemma_tables_finite(counts: Seq<HashMap<String, u64>>)
    ensures
        tables_finite(tables(counts)),
{
    broadcast use vstd::std_specs::hash::axiom_hashmap_view_finite_dom;

    assert forall|i: int| 0 <= i < tables(counts).len() implies #[trigger] tables(counts)[i].dom().finite() by {
        assert(tables(counts)[i] == counts[i]@);
    }
}

/// Two strictly sorted lists over the same keys, whose counts agree at equal
/// keys, are equal.
proof fn lemma_sorted_same_keys(s: Seq<(Seq<u8>, u64)>, t: Seq<(Seq<u8>, u64)>)
    requires
        strictly_sorted(s),
        strictly_sorted(t),
        forall|b: Seq<u8>| #[trigger] tally_has(s, b) <==> #[trigger] tally_has(t, b),
        forall|i: int, j: int|
            0 <= i < s.len() && 0 <= j < t.len() && #[trigger] s[i].0 == #[trigger] t[j].0 ==> s[i].1 == t[j].1,
    ensures
        s == t,
    decreases s.len(),
{
    if s.len() == 0 {
        if t.len() > 0 {
            assert(tally_has(t, t[0].0));
            assert(tally_has(s, t[0].0));
        }
        assert(s =~= t);
    } else {
        assert(tally_has(s, s[0].0));
        assert(tally_has(t, s[0].0));
        assert(t.len() > 0);
        assert(tally_has(t, t[0].0));
        assert(tally_has(s, t[0].0));
        let j0 = choose|j: int| 0 <= j < t.len() && t[j].0 == s[0].0;
        let i0 = choose|i: int| 0 <= i < s.len() && s[i].0 == t[0].0;
        if j0 != 0 {
            assert(bytes_lt(t[0].0, t[j0].0));
            if i0 != 0 {
                assert(bytes_lt(s[0].0, s[i0].0));
                lemma_bytes_lt_transitive(t[0].0, s[0].0, s[i0].0);
            }
            lemma_bytes_lt_irreflexive(t[0].0);
        }
        assert(t[0].0 == s[0].0);
        let s1 = s.drop_first();
        let t1 = t.drop_first();
        assert forall|b: Seq<u8>| #[trigger] tally_has(s1, b) implies tally_has(t1, b) by {
            let i = choose|i: int| 0 <= i < s1.len() && s1[i].0 == b;
            assert(s[i + 1] == s1[i]);
            assert(bytes_lt(s[0].0, s[i + 1].0));
            assert(tally_has(s, b));
            assert(tally_has(t, b));
            let j = choose|j: int| 0 <= j < t.len() && t[j].0 == b;
            if j == 0 {
                lemma_bytes_lt_irreflexive(s[0].0);
            }
            assert(t1[j - 1] == t[j]);
        }
        assert forall|b: Seq<u8>| #[trigger] tally_has(t1, b) implies tally_has(s1, b) by {
            let j = choose|j: int| 0 <= j < t1.len() && t1[j].0 == b;
            assert(t[j + 1] == t1[j]);
            assert(bytes_lt(t[0].0, t[j + 1].0));
            assert(tally_has(t, b));
            assert(tally_has(s, b));
            let i = choose|i: int| 0 <= i < s.len() && s[i].0 == b;
            if i == 0 {
                lemma_bytes_lt_irreflexive(t[0].0);
            }
            assert(s1[i - 1] == s[i]);
        }
        assert forall|i: int, j: int|
            0 <= i < s1.len() && 0 <= j < t1.len() && #[trigger] s1[i].0 == #[trigger] t1[j].0 implies s1[i].1
                == t1[j].1 by {
            assert(s[i + 1] == s1[i]);
            assert(t[j + 1] == t1[j]);
        }
        assert(strictly_sorted(s1)) by {
            assert forall|i: int, j: int| 0 <= i < j < s1.len() implies bytes_lt(
                #[trigger] s1[i].0,
                #[trigger] s1[j].0,
            ) by {
                assert(s[i + 1] == s1[i] && s[j + 1] == s1[j]);
            }
        }
        assert(strictly_sorted(t1)) by {
            assert forall|i: int, j: int| 0 <= i < j < t1.len() implies bytes_lt(
                #[trigger] t1[i].0,
                #[trigger] t1[j].0,
            ) by {
                assert(t[i + 1] == t1[i] && t[j + 1] == t1[j]);
            }
        }
        lemma_sorted_same_keys(s1, t1);
        assert(s =~= seq![s[0]] + s1);
        assert(t =~= seq![t[0]] + t1);
    }
}

/// The keys of a table have pairwise distinct byte encodings.
proof fn lemma_key_bytes_injective(k1: String, k2: String)
    requires
        key_bytes(k1) == key_bytes(k2),
    ensures
        k1@ == k2@,
{
    assert(vstd::utf8::decode_utf8(encode_utf8(k1@)) == k1@);
    assert(vstd::utf8::decode_utf8(encode_utf8(k2@)) == k2@);
}

/// Summed counts over a prefix never exceed the sum over a longer prefix.
proof fn lemma_total_count_prefix(maps: Seq<Map<String, u64>>, i: int, b: Seq<u8>)
    requires
        0 <= i <= maps.len(),
    ensures
        total_count(maps.take(i), b) <= total_count(maps, b),
    decreases maps.len(),
{
    if i < maps.len() {
        assert(maps.drop_last().take(i) =~= maps.take(i));
        lemma_total_count_prefix(maps.drop_last(), i, b);
    } else {
        assert(maps.take(i) =~= maps);
    }
}

// ---------------------------------------------------------------------------
// Executable code
// ---------------------------------------------------------------------------

/// The (name, count) entries of one member's node-type table.
///
/// Trusted: calls `HashMap::iter` of std and copies each entry. The contract
/// claims what std documents of the iterator: it visits every entry of the map
/// exactly once, and a map holds no two keys that compare equal (for `String`,
/// equal text). It says nothing of the order, which std leaves unspecified.
#[verifier::external_body]
fn table_entries(m: &HashMap<String, u64>) -> (entries: Vec<(String, u64)>)
    ensures
        forall|i: int|
            0 <= i < entries@.len() ==> m@.contains_key(#[trigger] entries@[i].0) && m@[entries@[i].0]
                == entries@[i].1,
        forall|k: String| m@.contains_key(k) ==> exists|i: int| 0 <= i < entries@.len() && #[trigger] entries@[i].0 == k,
        forall|i: int, j: int|
            0 <= i < j < entries@.len() ==> (#[trigger] entries@[i].0)@ != (#[trigger] entries@[j].0)@,
{
    m.iter().map(|(k, v)| (k.clone(), *v)).collect()
}

/// Byte-wise comparison of two byte strings.
fn bytes_less(a: &Vec<u8>, b: &Vec<u8>) -> (r: bool)
    ensures
        r == bytes_lt(a@, b@),
{
    let mut i: usize = 0;
    assert(a@.skip(0) =~= a@);
    assert(b@.skip(0) =~= b@);
    while i < a.len() && i < b.len()
        invariant
            i <= a@.len(),
            i <= b@.len(),
            bytes_lt(a@, b@) == bytes_lt(a@.skip(i as int), b@.skip(i as int)),
        decreases a@.len() - i,
    {
        if a[i] < b[i] {
            return true;
        }
        if a[i] > b[i] {
            return false;
        }
        assert(a@.skip(i as int).drop_first() =~= a@.skip(i + 1));
        assert(b@.skip(i as int).drop_first() =~= b@.skip(i + 1));
        i = i + 1;
    }
    i < b.len()
}

/// Equality of two byte strings.
fn bytes_equal(a: &Vec<u8>, b: &Vec<u8>) -> (r: bool)
    ensures
        r == (a@ == b@),
{
    if a.len() != b.len() {
        return false;
    }
    let mut i: usize = 0;
    while i < a.len()
        invariant
            a@.len() == b@.len(),
            i <= a@.len(),
            forall|j: int| 0 <= j < i ==> a@[j] == b@[j],
        decreases a@.len() - i,
    {
        if a[i] != b[i] {
            return false;
        }
        i = i + 1;
    }
    assert(a@ =~= b@);
    true
}

/// The spec view of an accumulator of (bytes, count) entries.
pub open spec fn tally_view(acc: Seq<(Vec<u8>, u64)>) -> Seq<(Seq<u8>, u64)> {
    acc.map_values(|e: (Vec<u8>, u64)| (e.0@, e.1))
}

/// Strictly increasing keys.
pub open spec fn strictly_sorted(s: Seq<(Seq<u8>, u64)>) -> bool {
    forall|i: int, j: int| 0 <= i < j < s.len() ==> bytes_lt(#[trigger] s[i].0, #[trigger] s[j].0)
}

/// The count that a sorted accumulator holds for `b` (0 if absent).
pub open spec fn tally_get(s: Seq<(Seq<u8>, u64)>, b: Seq<u8>) -> nat {
    if exists|i: int| 0 <= i < s.len() && s[i].0 == b {
        s[choose|i: int| 0 <= i < s.len() && s[i].0 == b].1 as nat
    } else {
        0
    }
}

/// Whether the accumulator has an entry for `b`.
pub open spec fn tally_has(s: Seq<(Seq<u8>, u64)>, b: Seq<u8>) -> bool {
    exists|i: int| 0 <= i < s.len() && s[i].0 == b
}

/// Whether one of the first `j` entries names `b`.
pub open spec fn prefix_names(entries: Seq<(String, u64)>, j: int, b: Seq<u8>) -> bool {
    exists|x: int| 0 <= x < j && key_bytes(entries[x].0) == b
}

/// The count that the first `j` entries give to `b`.
pub open spec fn prefix_count(entries: Seq<(String, u64)>, j: int, b: Seq<u8>) -> nat {
    if prefix_names(entries, j, b) {
        entries[choose|x: int| 0 <= x < j && key_bytes(entries[x].0) == b].1 as nat
    } else {
        0
    }
}

proof fn lemma_tally_get_at(s: Seq<(Seq<u8>, u64)>, i: int)
    requires
        strictly_sorted(s),
        0 <= i < s.len(),
    ensures
        tally_get(s, s[i].0) == s[i].1,
{
    let c = choose|c: int| 0 <= c < s.len() && s[c].0 == s[i].0;
    if c != i {
        if c < i {
            assert(bytes_lt(s[c].0, s[i].0));
        } else {
            assert(bytes_lt(s[i].0, s[c].0));
        }
        lemma_bytes_lt_irreflexive(s[i].0);
    }
}

/// Add `count` to the entry for `key`, inserting it in order if absent.
fn tally_add(acc: &mut Vec<(Vec<u8>, u64)>, key: Vec<u8>, count: u64)
    requires
        strictly_sorted(tally_view(old(acc)@)),
        tally_get(tally_view(old(acc)@), key@) + count <= u64::MAX,
    ensures
        strictly_sorted(tally_view(final(acc)@)),
        forall|b: Seq<u8>|
            #[trigger] tally_get(tally_view(final(acc)@), b) == tally_get(tally_view(old(acc)@), b) + (if b
                == key@ {
                count as nat
            } else {
                0
            }),
        forall|b: Seq<u8>|
            #[trigger] tally_has(tally_view(final(acc)@), b) <==> (b == key@ || tally_has(tally_view(old(acc)@), b)),
{
    let ghost old_s = tally_view(acc@);
    let mut p: usize = 0;
    while p < acc.len() && bytes_less(&acc[p].0, &key)
        invariant
            p <= acc@.len(),
            acc@ == old(acc)@,
            old_s == tally_view(acc@),
            forall|j: int| 0 <= j < p ==> bytes_lt(#[trigger] old_s[j].0, key@),
        decreases acc@.len() - p,
    {
        p = p + 1;
    }
    if p < acc.len() && bytes_equal(&acc[p].0, &key) {
        let c = acc[p].1;
        proof {
            lemma_tally_get_at(old_s, p as int);
        }
        acc.set(p, (key, c + count));
        let ghost new_s = tally_view(acc@);
        assert(new_s =~= old_s.update(p as int, (old_s[p as int].0, (c + count) as u64)));
        assert forall|b: Seq<u8>| #[trigger]
            tally_get(new_s, b) == tally_get(old_s, b) + (if b == key@ {
                count as nat
            } else {
                0
            }) by {
            if b == key@ {
                lemma_tally_get_at(new_s, p as int);
            } else {
                if exists|i: int| 0 <= i < old_s.len() && old_s[i].0 == b {
                    let i = choose|i: int| 0 <= i < old_s.len() && old_s[i].0 == b;
                    lemma_tally_get_at(old_s, i);
                    lemma_tally_get_at(new_s, i);
                } else {
                    assert(!exists|i: int| 0 <= i < new_s.len() && new_s[i].0 == b);
                }
            }
        }
        assert forall|b: Seq<u8>| #[trigger] tally_has(tally_view(acc@), b) implies (b == key@
                || tally_has(tally_view(old(acc)@), b)) by {
            let i = choose|i: int| 0 <= i < acc@.len() && tally_view(acc@)[i].0 == b;
            assert(old_s[i].0 == b);
        }
        assert forall|b: Seq<u8>| (b == key@ || tally_has(tally_view(old(acc)@), b)) implies
            #[trigger] tally_has(tally_view(acc@), b) by {
            if b == key@ {
                assert(new_s[p as int].0 == b);
            } else {
                let i = choose|i: int| 0 <= i < old(acc)@.len() && tally_view(old(acc)@)[i].0 == b;
                assert(new_s[i].0 == b);
            }
        }
    } else {
        proof {
            if p < acc@.len() {
                lemma_bytes_lt_total(key@, old_s[p as int].0);
            }
        }
        acc.insert(p, (key, count));
        let ghost new_s = tally_view(acc@);
        assert(new_s =~= old_s.insert(p as int, (key@, count)));
        assert forall|i: int, j: int| 0 <= i < j < new_s.len() implies bytes_lt(
            #[trigger] new_s[i].0,
            #[trigger] new_s[j].0,
        ) by {
            if j < p {
            } else if j == p {
            } else if i == p {
                if j > p + 1 {
                    assert(bytes_lt(old_s[p as int].0, old_s[j - 1].0));
                    lemma_bytes_lt_transitive(key@, old_s[p as int].0, old_s[j - 1].0);
                }
            } else if i < p {
                assert(bytes_lt(old_s[i].0, key@));
                if j - 1 > p {
                    assert(bytes_lt(old_s[p as int].0, old_s[j - 1].0));
                    lemma_bytes_lt_transitive(key@, old_s[p as int].0, old_s[j - 1].0);
                }
                lemma_bytes_lt_transitive(old_s[i].0, key@, old_s[j - 1].0);
            } else {
                assert(old_s[i - 1] == new_s[i]);
                assert(old_s[j - 1] == new_s[j]);
            }
        }
        // The key was absent before.
        assert forall|i: int| 0 <= i < old_s.len() implies #[trigger] old_s[i].0 != key@ by {
            if i < p {
                lemma_bytes_lt_irreflexive(key@);
            } else {
                if i > p {
                    assert(bytes_lt(old_s[p as int].0, old_s[i].0));
                    lemma_bytes_lt_asymmetric(key@, old_s[p as int].0);
                    if old_s[i].0 == key@ {
                        lemma_bytes_lt_asymmetric(old_s[p as int].0, key@);
                    }
                }
            }
        }
        assert forall|b: Seq<u8>| #[trigger]
            tally_get(new_s, b) == tally_get(old_s, b) + (if b == key@ {
                count as nat
            } else {
                0
            }) by {
            if b == key@ {
                lemma_tally_get_at(new_s, p as int);
            } else {
                if exists|i: int| 0 <= i < old_s.len() && old_s[i].0 == b {
                    let i = choose|i: int| 0 <= i < old_s.len() && old_s[i].0 == b;
                    lemma_tally_get_at(old_s, i);
                    if i < p {
                        assert(new_s[i] == old_s[i]);
                        lemma_tally_get_at(new_s, i);
                    } else {
                        assert(new_s[i + 1] == old_s[i]);
                        lemma_tally_get_at(new_s, i + 1);
                    }
                } else {
                    if exists|i: int| 0 <= i < new_s.len() && new_s[i].0 == b {
                        let i = choose|i: int| 0 <= i < new_s.len() && new_s[i].0 == b;
                        if i < p {
                            assert(old_s[i].0 == b);
                        } else if i > p {
                            assert(old_s[i - 1].0 == b);
                        }
                    }
                }
            }
        }
        assert forall|b: Seq<u8>| #[trigger] tally_has(tally_view(acc@), b) implies (b == key@
                || tally_has(tally_view(old(acc)@), b)) by {
            let i = choose|i: int| 0 <= i < acc@.len() && tally_view(acc@)[i].0 == b;
            if i < p {
                assert(old_s[i].0 == b);
            } else if i > p {
                assert(old_s[i - 1].0 == b);
            }
        }
        assert forall|b: Seq<u8>| (b == key@ || tally_has(tally_view(old(acc)@), b)) implies
            #[trigger] tally_has(tally_view(acc@), b) by {
            if b == key@ {
                assert(new_s[p as int].0 == b);
            } else {
                let i = choose|i: int| 0 <= i < old(acc)@.len() && tally_view(old(acc)@)[i].0 == b;
                if i < p {
                    assert(new_s[i].0 == b);
                } else {
                    assert(new_s[i + 1].0 == b);
                }
            }
        }
    }
}

/// FNV-1a over the bytes of `bytes`, continuing from `h`.
fn hash_bytes(h: u64, bytes: &Vec<u8>) -> (r: u64)
    ensures
        r == fnv_bytes(h, bytes@),
{
    let mut hash = h;
    let mut i: usize = 0;
    while i < bytes.len()
        invariant
            i <= bytes@.len(),
            hash == fnv_bytes(h, bytes@.take(i as int)),
        decreases bytes@.len() - i,
    {
        assert(bytes@.take(i + 1).drop_last() =~= bytes@.take(i as int));
        hash = (hash ^ (bytes[i] as u64)).wrapping_mul(FNV_PRIME);
        i = i + 1;
    }
    assert(bytes@.take(i as int) =~= bytes@);
    hash
}

/// Compute a hash of the behaviour-tree node-type pattern of a group.
///
/// Sums each node type's count over all members, orders the node types by
/// the bytes of their names, and hashes names and counts with FNV-1a. An
/// empty slice hashes to 0. The sums must fit in a `u64`.
pub fn compute_bt_pattern_hash(node_type_counts: &[HashMap<String, u64>]) -> (hash: u64)
    requires
        totals_fit(tables(node_type_counts@)),
    ensures
        hash == bt_pattern_hash(tables(node_type_counts@)),
{
    let ghost maps = tables(node_type_counts@);
    if node_type_counts.len() == 0 {
        return 0;
    }
    let mut acc: Vec<(Vec<u8>, u64)> = Vec::new();
    let n = node_type_counts.len();
    for i in 0..n
        invariant
            n == node_type_counts@.len(),
            maps == tables(node_type_counts@),
            totals_fit(maps),
            is_sorted_tally(maps.take(i as int), tally_view(acc@)),
    {
        let entries = table_entries(&node_type_counts[i]);
        let ghost m = maps[i as int];
        let ghost base = tally_view(acc@);
        assert(m == node_type_counts@[i as int]@);
        // Keys of this table have pairwise distinct bytes.
        assert forall|x: int, y: int|
            0 <= x < y < entries@.len() implies key_bytes(#[trigger] entries@[x].0) != key_bytes(
            #[trigger] entries@[y].0,
        ) by {
            if key_bytes(entries@[x].0) == key_bytes(entries@[y].0) {
                lemma_key_bytes_injective(entries@[x].0, entries@[y].0);
            }
        }
        assert forall|k1: String, k2: String|
            m.contains_key(k1) && m.contains_key(k2) && k1@ == k2@ implies k1 == k2 by {
            let x = choose|x: int| 0 <= x < entries@.len() && entries@[x].0 == k1;
            let y = choose|y: int| 0 <= y < entries@.len() && entries@[y].0 == k2;
            if x != y {
                if x < y {
                    assert(key_bytes(entries@[x].0) != key_bytes(entries@[y].0));
                } else {
                    assert(key_bytes(entries@[y].0) != key_bytes(entries@[x].0));
                }
            }
        }
        let ne = entries.len();
        let mut j: usize = 0;
        while j < ne
            invariant
                j <= ne,
                ne == entries@.len(),
                forall|k1: String, k2: String|
                    m.contains_key(k1) && m.contains_key(k2) && k1@ == k2@ ==> k1 == k2,
                n == node_type_counts@.len(),
                i < n,
                maps == tables(node_type_counts@),
                m == maps[i as int],
                totals_fit(maps),
                is_sorted_tally(maps.take(i as int), base),
                forall|x: int|
                    0 <= x < entries@.len() ==> m.contains_key(#[trigger] entries@[x].0) && m[entries@[x].0]
                        == entries@[x].1,
                forall|k: String| m.contains_key(k) ==> exists|x: int| 0 <= x < entries@.len() && #[trigger] entries@[x].0 == k,
                forall|x: int, y: int|
                    0 <= x < y < entries@.len() ==> key_bytes(#[trigger] entries@[x].0) != key_bytes(#[trigger] entries@[y].0),
                strictly_sorted(tally_view(acc@)),
                forall|b: Seq<u8>|
                    #[trigger] tally_get(tally_view(acc@), b) == tally_get(base, b) + prefix_count(entries@, j as int, b),
                forall|b: Seq<u8>|
                    #[trigger] tally_has(tally_view(acc@), b) <==> (tally_has(base, b) || prefix_names(entries@, j as int, b)),
            decreases ne - j,
        {
            let key = slice_to_vec(entries[j].0.as_str().as_bytes());
            let cnt = entries[j].1;
            let ghost kb = key_bytes(entries@[j as int].0);
            assert(key@ == kb);
            proof {
                // The running count for this key is a partial sum of its total.
                assert(!exists|x: int| 0 <= x < j && key_bytes(entries@[x].0) == kb) by {
                    if exists|x: int| 0 <= x < j && key_bytes(entries@[x].0) == kb {
                        let x = choose|x: int| 0 <= x < j && key_bytes(entries@[x].0) == kb;
                        assert(key_bytes(entries@[x].0) != key_bytes(entries@[j as int].0));
                    }
                }
                assert(tally_get(tally_view(acc@), kb) == tally_get(base, kb));
                lemma_tally_base_get(maps, i as int, base, kb);
                lemma_count_in_entry(m, entries@[j as int].0, cnt);
                assert(total_count(maps.take(i + 1), kb) == total_count(maps.take(i as int), kb)
                    + count_in(m, kb)) by {
                    assert(maps.take(i + 1).drop_last() =~= maps.take(i as int));
                }
                lemma_total_count_prefix(maps, i + 1, kb);
                assert(total_count(maps, kb) <= u64::MAX);
            }
            tally_add(&mut acc, key, cnt);
            proof {
                assert forall|b: Seq<u8>|
                    #[trigger] tally_get(tally_view(acc@), b) == tally_get(base, b) + prefix_count(entries@, j + 1, b) by {
                    if b == kb {
                        let x = choose|x: int| 0 <= x < j + 1 && key_bytes(entries@[x].0) == b;
                        if x != j {
                            assert(key_bytes(entries@[x].0) != key_bytes(entries@[j as int].0));
                        }
                        if exists|y: int| 0 <= y < j && key_bytes(entries@[y].0) == b {
                            let y = choose|y: int| 0 <= y < j && key_bytes(entries@[y].0) == b;
                            assert(key_bytes(entries@[y].0) != key_bytes(entries@[j as int].0));
                        }
                    } else {
                        if exists|x: int| 0 <= x < j + 1 && key_bytes(entries@[x].0) == b {
                            let x = choose|x: int| 0 <= x < j + 1 && key_bytes(entries@[x].0) == b;
                            assert(exists|y: int| 0 <= y < j && key_bytes(entries@[y].0) == b);
                            let y = choose|y: int| 0 <= y < j && key_bytes(entries@[y].0) == b;
                            if x != y {
                                if x < y {
                                    assert(key_bytes(entries@[x].0) != key_bytes(entries@[y].0));
                                } else {
                                    assert(key_bytes(entries@[y].0) != key_bytes(entries@[x].0));
                                }
                            }
                        } else {
                            assert(!exists|y: int| 0 <= y < j && key_bytes(entries@[y].0) == b);
                        }
                    }
                }
                assert forall|b: Seq<u8>|
                    #[trigger] tally_has(tally_view(acc@), b) <==> (tally_has(base, b) || prefix_names(entries@, j + 1, b)) by {
                    if exists|x: int| 0 <= x < j + 1 && #[trigger] key_bytes(entries@[x].0) == b {
                        let x = choose|x: int| 0 <= x < j + 1 && key_bytes(entries@[x].0) == b;
                        if x < j {
                            assert(exists|y: int| 0 <= y < j && #[trigger] key_bytes(entries@[y].0) == b);
                        }
                    }
                    if b == kb {
                        assert(key_bytes(entries@[j as int].0) == b);
                    }
                }
            }
            j = j + 1;
        }
        proof {
            lemma_tally_step(maps, i as int, base, tally_view(acc@), entries@);
        }
    }
    proof {
        assert(maps.take(n as int) =~= maps);
        lemma_sorted_tally_unique(maps, tally_view(acc@), sorted_tally(maps));
    }
    let mut hash: u64 = FNV_OFFSET_BASIS;
    let len = acc.len();
    for t in 0..len
        invariant
            len == acc@.len(),
            hash == fnv_entries(FNV_OFFSET_BASIS, tally_view(acc@).take(t as int)),
    {
        proof {
            assert(tally_view(acc@).take(t + 1).drop_last() =~= tally_view(acc@).take(t as int));
        }
        hash = hash_bytes(hash, &acc[t].0);
        hash = (hash ^ acc[t].1).wrapping_mul(FNV_PRIME);
    }
    proof {
        assert(tally_view(acc@).take(len as int) =~= tally_view(acc@));
    }
    hash
}

/// What a sorted tally of a prefix says of one key.
proof fn lemma_tally_base_get(maps: Seq<Map<String, u64>>, i: int, base: Seq<(Seq<u8>, u64)>, b: Seq<u8>)
    requires
        0 <= i < maps.len(),
        is_sorted_tally(maps.take(i), base),
    ensures
        tally_get(base, b) == total_count(maps.take(i), b),
{
    if exists|x: int| 0 <= x < base.len() && base[x].0 == b {
        let x = choose|x: int| 0 <= x < base.len() && base[x].0 == b;
        lemma_tally_get_at(base, x);
    } else {
        lemma_total_count_absent(maps.take(i), b);
    }
}

/// A key named by no table has total count zero.
proof fn lemma_total_count_absent(maps: Seq<Map<String, u64>>, b: Seq<u8>)
    requires
        !names_key(maps, b),
    ensures
        total_count(maps, b) == 0,
    decreases maps.len(),
{
    if maps.len() > 0 {
        assert(!names_key(maps.drop_last(), b)) by {
            if names_key(maps.drop_last(), b) {
                let (x, k) = choose|x: int, k: String|
                    0 <= x < maps.drop_last().len() && #[trigger] maps.drop_last()[x].contains_key(k)
                        && key_bytes(k) == b;
                assert(maps[x] == maps.drop_last()[x]);
            }
        }
        lemma_total_count_absent(maps.drop_last(), b);
        if exists|k: String| maps.last().contains_key(k) && key_bytes(k) == b {
            let k = choose|k: String| maps.last().contains_key(k) && key_bytes(k) == b;
            assert(maps[maps.len() - 1].contains_key(k));
        }
    }
}

/// The count of an entry's key in its table.
proof fn lemma_count_in_entry(m: Map<String, u64>, k: String, v: u64)
    requires
        m.contains_key(k),
        m[k] == v,
        forall|k1: String, k2: String|
            m.contains_key(k1) && m.contains_key(k2) && k1@ == k2@ ==> k1 == k2,
    ensures
        count_in(m, key_bytes(k)) == v,
{
    let k2 = choose|k2: String| m.contains_key(k2) && key_bytes(k2) == key_bytes(k);
    lemma_key_bytes_injective(k2, k);
}

/// After all entries of table `i` are added, the accumulator is a sorted tally
/// of the first `i + 1` tables.
proof fn lemma_tally_step(
    maps: Seq<Map<String, u64>>,
    i: int,
    base: Seq<(Seq<u8>, u64)>,
    s: Seq<(Seq<u8>, u64)>,
    entries: Seq<(String, u64)>,
)
    requires
        0 <= i < maps.len(),
        is_sorted_tally(maps.take(i), base),
        strictly_sorted(s),
        forall|x: int|
            0 <= x < entries.len() ==> maps[i].contains_key(#[trigger] entries[x].0) && maps[i][entries[x].0]
                == entries[x].1,
        forall|k: String| maps[i].contains_key(k) ==> exists|x: int| 0 <= x < entries.len() && #[trigger] entries[x].0 == k,
        forall|x: int, y: int|
            0 <= x < y < entries.len() ==> key_bytes(#[trigger] entries[x].0) != key_bytes(#[trigger] entries[y].0),
        forall|b: Seq<u8>|
            #[trigger] tally_get(s, b) == tally_get(base, b) + prefix_count(entries, entries.len() as int, b),
        forall|b: Seq<u8>|
            #[trigger] tally_has(s, b) <==> (tally_has(base, b) || prefix_names(entries, entries.len() as int, b)),
    ensures
        is_sorted_tally(maps.take(i + 1), s),
{
    let m = maps[i];
    let pre = maps.take(i);
    let post = maps.take(i + 1);
    assert(post.drop_last() =~= pre);
    assert(post.last() == m);
    // Keys of m are unique up to view.
    assert forall|k1: String, k2: String|
        m.contains_key(k1) && m.contains_key(k2) && k1@ == k2@ implies k1 == k2 by {
        let x = choose|x: int| 0 <= x < entries.len() && entries[x].0 == k1;
        let y = choose|y: int| 0 <= y < entries.len() && entries[y].0 == k2;
        if x != y {
            if x < y {
                assert(key_bytes(entries[x].0) != key_bytes(entries[y].0));
            } else {
                assert(key_bytes(entries[y].0) != key_bytes(entries[x].0));
            }
        }
    }
    // The per-table count equals the entry count.
    assert forall|b: Seq<u8>| prefix_count(entries, entries.len() as int, b) == #[trigger] count_in(m, b) by {
        if exists|x: int| 0 <= x < entries.len() && key_bytes(entries[x].0) == b {
            let x = choose|x: int| 0 <= x < entries.len() && key_bytes(entries[x].0) == b;
            lemma_count_in_entry(m, entries[x].0, entries[x].1);
        } else {
            if exists|k: String| m.contains_key(k) && key_bytes(k) == b {
                let k = choose|k: String| m.contains_key(k) && key_bytes(k) == b;
                let x = choose|x: int| 0 <= x < entries.len() && entries[x].0 == k;
                assert(key_bytes(entries[x].0) == b);
            }
        }
    }
    // Names of the extended prefix.
    assert forall|b: Seq<u8>| #[trigger] names_key(post, b) <==> (names_key(pre, b) || prefix_names(entries, entries.len() as int, b)) by {
        if names_key(post, b) {
            let (x, k) = choose|x: int, k: String|
                0 <= x < post.len() && #[trigger] post[x].contains_key(k) && key_bytes(k) == b;
            if x < i {
                assert(pre[x] == post[x]);
                assert(names_key(pre, b));
            } else {
                let y = choose|y: int| 0 <= y < entries.len() && entries[y].0 == k;
                assert(key_bytes(entries[y].0) == b);
            }
        }
        if names_key(pre, b) {
            let (x, k) = choose|x: int, k: String|
                0 <= x < pre.len() && #[trigger] pre[x].contains_key(k) && key_bytes(k) == b;
            assert(post[x] == pre[x]);
            assert(post[x].contains_key(k));
        }
        if prefix_names(entries, entries.len() as int, b) {
            let x = choose|x: int| 0 <= x < entries.len() && key_bytes(entries[x].0) == b;
            assert(post[i].contains_key(entries[x].0));
        }
    }
    assert forall|x: int| 0 <= x < s.len() implies names_key(post, #[trigger] s[x].0) && s[x].1
        == total_count(post, s[x].0) by {
        let b = s[x].0;
        assert(tally_has(s, b));
        lemma_tally_get_at(s, x);
        lemma_tally_base_get(maps, i, base, b);
        assert(prefix_count(entries, entries.len() as int, b) == count_in(m, b));
        assert(total_count(post, b) == total_count(pre, b) + count_in(m, b));
        if tally_has(base, b) {
            let y = choose|y: int| 0 <= y < base.len() && base[y].0 == b;
            assert(names_key(pre, base[y].0));
        }
        assert(names_key(post, b));
    }
    assert forall|b: Seq<u8>| names_key(post, b) implies exists|x: int| 0 <= x < s.len() && #[trigger] s[x].0 == b by {
        if names_key(pre, b) {
            let y = choose|y: int| 0 <= y < base.len() && #[trigger] base[y].0 == b;
            assert(tally_has(base, b));
        }
        assert(tally_has(s, b));
    }
}

} // verus!

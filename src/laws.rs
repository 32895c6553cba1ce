//! Laws that relate encoding and decoding of the two containers.
use vstd::prelude::*;
use crate::error::CodecError;
use crate::field::{Field, OrdField};
use crate::guard::zero_sized;
use crate::map::{
    canonical_entries, contents, has_key, key_position, keys_of, map_build, map_canonical_encoding,
    map_decode, map_encoding, map_insert, unique_keys, value_of,
};
use crate::records::{Entry, lemma_stream_round_trip, stream_bytes};
use crate::order::{canonical, lemma_canonical_exists};
use crate::set::{set_build, set_canonical_encoding, set_decode, set_encoding, set_insert};

verus! {

/// Inserting entries with distinct keys into an empty map, one after
/// another, keeps them all in the order given.
pub proof fn lemma_map_build_distinct<K, V>(es: Seq<Entry<K, V>>)
    requires
        unique_keys(es),
    ensures
        map_build(es) == es,
    decreases es.len(),
{
    if es.len() > 0 {
        let init = es.drop_last();
        assert(unique_keys(init)) by {
            assert forall|i: int, j: int|
                0 <= i < init.len() && 0 <= j < init.len() && i != j implies init[i].key
                != init[j].key by {
                assert(init[i] == es[i] && init[j] == es[j]);
            }
        }
        lemma_map_build_distinct(init);
        assert(!has_key(init, es.last().key)) by {
            if has_key(init, es.last().key) {
                let i = choose|i: int| 0 <= i < init.len() && init[i].key == es.last().key;
                assert(es[i].key == es[es.len() - 1].key);
            }
        }
        assert(init.push(Entry { key: es.last().key, value: es.last().value }) =~= es);
    }
}

/// Inserting distinct elements into an empty set, one after another, keeps
/// them all in the order given.
pub proof fn lemma_set_build_distinct<T>(es: Seq<T>)
    requires
        es.no_duplicates(),
    ensures
        set_build(es) == es,
    decreases es.len(),
{
    if es.len() > 0 {
        let init = es.drop_last();
        lemma_set_build_distinct(init);
        assert(!init.contains(es.last())) by {
            if init.contains(es.last()) {
                let i = choose|i: int| 0 <= i < init.len() && init[i] == es.last();
                assert(es[i] == es[es.len() - 1]);
            }
        }
        assert(init.push(es.last()) =~= es);
    }
}

/// Decoding what a map encodes to, in iteration order, gives back the same
/// entries in the same order, and reads exactly the encoded bytes.
pub proof fn lemma_map_round_trip<K: Field, V: Field>(s: Seq<Entry<K, V>>)
    requires
        unique_keys(s),
        s.len() <= u32::MAX,
        !zero_sized::<K>(),
    ensures
        map_encoding(s) matches Ok(b) && map_decode::<K, V>(b) == Ok::<
            (Seq<Entry<K, V>>, nat),
            CodecError,
        >((s, b.len())),
{
    let b = stream_bytes(s);
    lemma_stream_round_trip(s, Seq::empty());
    assert(b + Seq::<u8>::empty() =~= b);
    lemma_map_build_distinct(s);
}

/// Decoding what a set encodes to, in iteration order, gives back the same
/// elements in the same order, and reads exactly the encoded bytes.
pub proof fn lemma_set_round_trip<T: Field>(s: Seq<T>)
    requires
        s.no_duplicates(),
        s.len() <= u32::MAX,
        !zero_sized::<T>(),
    ensures
        set_encoding(s) matches Ok(b) && set_decode::<T>(b) == Ok::<(Seq<T>, nat), CodecError>(
            (s, b.len()),
        ),
{
    let b = stream_bytes(s);
    lemma_stream_round_trip(s, Seq::empty());
    assert(b + Seq::<u8>::empty() =~= b);
    lemma_set_build_distinct(s);
}

/// A decoded map has as many entries as the map that was encoded; the
/// empty map encodes to four zero bytes, which decode to the empty map.
pub proof fn lemma_map_count_fidelity<K: Field, V: Field>(s: Seq<Entry<K, V>>)
    requires
        unique_keys(s),
        s.len() <= u32::MAX,
        !zero_sized::<K>(),
    ensures
        map_encoding(s) matches Ok(b) && map_decode::<K, V>(b) matches Ok((d, _)) && d.len()
            == s.len(),
        map_encoding(Seq::<Entry<K, V>>::empty()) == Ok::<Seq<u8>, CodecError>(seq![0u8, 0, 0, 0]),
        map_decode::<K, V>(seq![0u8, 0, 0, 0]) == Ok::<(Seq<Entry<K, V>>, nat), CodecError>(
            (Seq::empty(), 4),
        ),
{
    lemma_map_round_trip(s);
    lemma_map_round_trip(Seq::<Entry<K, V>>::empty());
    lemma_empty_stream::<Entry<K, V>>();
}

/// A decoded set has as many elements as the set that was encoded; the
/// empty set encodes to four zero bytes, which decode to the empty set.
pub proof fn lemma_set_count_fidelity<T: Field>(s: Seq<T>)
    requires
        s.no_duplicates(),
        s.len() <= u32::MAX,
        !zero_sized::<T>(),
    ensures
        set_encoding(s) matches Ok(b) && set_decode::<T>(b) matches Ok((d, _)) && d.len()
            == s.len(),
        set_encoding(Seq::<T>::empty()) == Ok::<Seq<u8>, CodecError>(seq![0u8, 0, 0, 0]),
        set_decode::<T>(seq![0u8, 0, 0, 0]) == Ok::<(Seq<T>, nat), CodecError>(
            (Seq::empty(), 4),
        ),
{
    lemma_set_round_trip(s);
    lemma_set_round_trip(Seq::<T>::empty());
    lemma_empty_stream::<T>();
}

/// The stream of no records is a zero count.
proof fn lemma_empty_stream<T: Field>()
    ensures
        stream_bytes(Seq::<T>::empty()) == seq![0u8, 0, 0, 0],
{
    reveal_with_fuel(crate::le::le_bytes, 5);
    assert(stream_bytes(Seq::<T>::empty()) =~= seq![0u8, 0, 0, 0]);
}

/// Two entries under one key decode to a single entry holding the later value.
pub proof fn lemma_map_decode_duplicate<K: Field, V: Field>(k: K, v1: V, v2: V)
    requires
        !zero_sized::<K>(),
    ensures
        map_decode::<K, V>(
            stream_bytes(seq![Entry { key: k, value: v1 }, Entry { key: k, value: v2 }]),
        ) matches Ok((d, _)) && d == seq![Entry { key: k, value: v2 }],
{
    let e1 = Entry { key: k, value: v1 };
    let e2 = Entry { key: k, value: v2 };
    let es = seq![e1, e2];
    let b = stream_bytes(es);
    lemma_stream_round_trip(es, Seq::empty());
    assert(b + Seq::<u8>::empty() =~= b);
    assert(es.drop_last() =~= seq![e1]);
    assert(seq![e1].drop_last() =~= Seq::<Entry<K, V>>::empty());
    let one = map_build(seq![e1]);
    lemma_map_build_distinct(seq![e1]);
    assert(has_key(one, k));
    assert(key_position(one, k) == 0);
    assert(map_insert(one, k, v2) =~= seq![e2]);
}

/// Sets with the same elements, in whatever order they were inserted,
/// encode to the same bytes in ascending order.
pub proof fn lemma_set_canonical_same_elements<T: OrdField>(a: Seq<T>, b: Seq<T>)
    requires
        a.no_duplicates(),
        b.no_duplicates(),
        a.to_set() == b.to_set(),
    ensures
        set_canonical_encoding(a) == set_canonical_encoding(b),
{
    a.unique_seq_to_set();
    b.unique_seq_to_set();
}

/// Sets built by inserting any two arrangements of the same elements, each
/// repeated any number of times, encode to the same bytes in ascending order.
pub proof fn lemma_set_canonical_permutation<T: OrdField>(es1: Seq<T>, es2: Seq<T>)
    requires
        es1.to_multiset() == es2.to_multiset(),
    ensures
        set_canonical_encoding(set_build(es1)) == set_canonical_encoding(set_build(es2)),
{
    broadcast use vstd::seq_lib::to_multiset_contains;

    lemma_set_build_props(es1);
    lemma_set_build_props(es2);
    assert forall|x: T| es1.to_set().contains(x) <==> es2.to_set().contains(x) by {
        assert(es1.contains(x) <==> es1.to_multiset().count(x) > 0);
        assert(es2.contains(x) <==> es2.to_multiset().count(x) > 0);
    }
    assert(es1.to_set() =~= es2.to_set());
    lemma_set_canonical_same_elements(set_build(es1), set_build(es2));
}

/// A set built by insertions holds each inserted element exactly once.
pub proof fn lemma_set_build_props<T>(es: Seq<T>)
    ensures
        set_build(es).no_duplicates(),
        set_build(es).to_set() == es.to_set(),
    decreases es.len(),
{
    if es.len() > 0 {
        let init = es.drop_last();
        let x = es.last();
        lemma_set_build_props(init);
        let s = set_build(init);
        assert forall|y: T| set_build(es).to_set().contains(y) <==> es.to_set().contains(y) by {
            if es.contains(y) && y != x {
                let i = choose|i: int| 0 <= i < es.len() && es[i] == y;
                assert(init[i] == y);
                assert(init.to_set().contains(y));
                assert(s.contains(y));
                let j = choose|j: int| 0 <= j < s.len() && s[j] == y;
                if !s.contains(x) {
                    assert(s.push(x)[j] == y);
                }
            }
            if y == x {
                assert(es[es.len() - 1] == x);
                if !s.contains(x) {
                    assert(s.push(x)[s.len() as int] == x);
                }
            }
            if set_build(es).contains(y) && y != x {
                let j = choose|j: int| 0 <= j < set_build(es).len() && set_build(es)[j] == y;
                if !s.contains(x) {
                    assert(s[j] == y);
                }
                assert(s.to_set().contains(y));
                assert(init.contains(y));
                let i = choose|i: int| 0 <= i < init.len() && init[i] == y;
                assert(es[i] == y);
            }
        }
        assert(set_build(es).to_set() =~= es.to_set());
        assert(set_build(es) == set_insert(s, x));
    }
}

proof fn lemma_keys_of<K, V>(s: Seq<Entry<K, V>>)
    requires
        unique_keys(s),
    ensures
        keys_of(s).no_duplicates(),
        keys_of(s).len() == s.len(),
        keys_of(s).to_set().len() == s.len(),
        forall|k: K| #[trigger] keys_of(s).to_set().contains(k) <==> has_key(s, k),
{
    let ks = keys_of(s);
    assert forall|k: K| #[trigger] ks.to_set().contains(k) <==> has_key(s, k) by {
        if ks.contains(k) {
            let i = choose|i: int| 0 <= i < ks.len() && ks[i] == k;
            assert(s[i].key == k);
        }
        if has_key(s, k) {
            let i = choose|i: int| 0 <= i < s.len() && s[i].key == k;
            assert(ks[i] == k);
        }
    }
    assert(ks.no_duplicates()) by {
        assert forall|i: int, j: int| 0 <= i < ks.len() && 0 <= j < ks.len() && i != j implies ks[i]
            != ks[j] by {
            assert(ks[i] == s[i].key && ks[j] == s[j].key);
        }
    }
    ks.unique_seq_to_set();
}

/// Maps with the same contents, whatever order their keys were inserted in,
/// encode to the same bytes in ascending order of key.
pub proof fn lemma_map_canonical_same_contents<K: OrdField, V: Field>(
    a: Seq<Entry<K, V>>,
    b: Seq<Entry<K, V>>,
)
    requires
        unique_keys(a),
        unique_keys(b),
        contents(a) == contents(b),
    ensures
        map_canonical_encoding(a) == map_canonical_encoding(b),
{
    lemma_keys_of(a);
    lemma_keys_of(b);
    let ka = keys_of(a).to_set();
    let kb = keys_of(b).to_set();
    assert forall|k: K| ka.contains(k) <==> kb.contains(k) by {
        assert(contents(a).dom().contains(k) == has_key(a, k));
        assert(contents(b).dom().contains(k) == has_key(b, k));
    }
    assert(ka =~= kb);
    lemma_canonical_exists(keys_of(a));
    let c = canonical(ka);
    assert forall|i: int| 0 <= i < c.len() implies value_of(a, #[trigger] c[i]) == value_of(b, c[i]) by {
        assert(c.to_set().contains(c[i]));
        assert(has_key(a, c[i]));
        assert(contents(a)[c[i]] == value_of(a, c[i]));
        assert(contents(b)[c[i]] == value_of(b, c[i]));
    }
    assert(canonical_entries(a) =~= canonical_entries(b));
}

} // verus!

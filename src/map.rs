//! A map that keeps its entries in the order their keys were first inserted.
use vstd::prelude::*;
use crate::error::CodecError;
use crate::field::{Field, OrdField};
use crate::guard::{check_zst, zero_sized};
use crate::order::{canonical, sorted_copy};
use crate::records::{
    Entry, read_records, read_stream, shifted, stream_bytes, write_stream, lemma_read_records_step,
};

verus! {

/// No key occurs twice in `s`.
pub open spec fn unique_keys<K, V>(s: Seq<Entry<K, V>>) -> bool {
    forall|i: int, j: int| 0 <= i < s.len() && 0 <= j < s.len() && i != j ==> s[i].key != s[j].key
}

pub open spec fn has_key<K, V>(s: Seq<Entry<K, V>>, k: K) -> bool {
    exists|i: int| 0 <= i < s.len() && s[i].key == k
}

/// The position of key `k` in `s`, where `has_key(s, k)`.
pub open spec fn key_position<K, V>(s: Seq<Entry<K, V>>, k: K) -> int {
    choose|i: int| 0 <= i < s.len() && s[i].key == k
}

/// The value stored under `k` in `s`, where `has_key(s, k)`.
pub open spec fn value_of<K, V>(s: Seq<Entry<K, V>>, k: K) -> V {
    s[key_position(s, k)].value
}

/// The keys of `s`, in order.
pub open spec fn keys_of<K, V>(s: Seq<Entry<K, V>>) -> Seq<K> {
    s.map_values(|e: Entry<K, V>| e.key)
}

/// What `s` holds, as a mapping from keys to values, forgetting the order.
pub open spec fn contents<K, V>(s: Seq<Entry<K, V>>) -> Map<K, V> {
    Map::new(|k: K| has_key(s, k), |k: K| value_of(s, k))
}

/// `s` after inserting `v` under `k`: a present key keeps its place and takes
/// the new value; a new key goes at the end.
pub open spec fn map_insert<K, V>(s: Seq<Entry<K, V>>, k: K, v: V) -> Seq<Entry<K, V>> {
    if has_key(s, k) {
        s.update(key_position(s, k), Entry { key: k, value: v })
    } else {
        s.push(Entry { key: k, value: v })
    }
}

/// The map built by inserting the entries of `es` one after another into an
/// empty map.
pub open spec fn map_build<K, V>(es: Seq<Entry<K, V>>) -> Seq<Entry<K, V>>
    decreases es.len(),
{
    if es.len() == 0 {
        Seq::empty()
    } else {
        map_insert(map_build(es.drop_last()), es.last().key, es.last().value)
    }
}

/// The entries of `s` in ascending order of key.
pub open spec fn canonical_entries<K: OrdField, V>(s: Seq<Entry<K, V>>) -> Seq<Entry<K, V>> {
    canonical(keys_of(s).to_set()).map_values(|k: K| Entry { key: k, value: value_of(s, k) })
}

/// The bytes a map with entries `s` encodes to, in their iteration order.
pub open spec fn map_encoding<K: Field, V: Field>(s: Seq<Entry<K, V>>) -> Result<
    Seq<u8>,
    CodecError,
> {
    if zero_sized::<K>() {
        Err(CodecError::ZeroSizedKeyRejected)
    } else if s.len() > u32::MAX {
        Err(CodecError::CardinalityOverflow)
    } else {
        Ok(stream_bytes(s))
    }
}

/// The bytes a map with entries `s` encodes to, in ascending order of key.
pub open spec fn map_canonical_encoding<K: OrdField, V: Field>(s: Seq<Entry<K, V>>) -> Result<
    Seq<u8>,
    CodecError,
> {
    if zero_sized::<K>() {
        Err(CodecError::ZeroSizedKeyRejected)
    } else if s.len() > u32::MAX {
        Err(CodecError::CardinalityOverflow)
    } else {
        Ok(stream_bytes(canonical_entries(s)))
    }
}

/// The entries decoded from the front of `bytes`, in the order that
/// inserting them gives, with the number of bytes read.
pub open spec fn map_decode<K: Field, V: Field>(bytes: Seq<u8>) -> Result<
    (Seq<Entry<K, V>>, nat),
    CodecError,
> {
    if zero_sized::<K>() {
        Err(CodecError::ZeroSizedKeyRejected)
    } else {
        match read_stream::<Entry<K, V>>(bytes) {
            Ok((es, n)) => Ok((map_build(es), n)),
            Err(e) => Err(e),
        }
    }
}

/// A map from field keys to field values, enumerated in order of first
/// insertion of each key.
pub struct OrderedMap<K, V> {
    entries: Vec<Entry<K, V>>,
}

impl<K, V> View for OrderedMap<K, V> {
    type V = Seq<Entry<K, V>>;

    closed spec fn view(&self) -> Seq<Entry<K, V>> {
        self.entries@
    }
}

impl<K, V> OrderedMap<K, V> {
    /// No key occurs twice.
    pub open spec fn wf(&self) -> bool {
        unique_keys(self@)
    }
}

impl<K: Field, V: Field> OrderedMap<K, V> {
    pub fn new() -> (m: Self)
        ensures
            m.wf(),
            m@ == Seq::<Entry<K, V>>::empty(),
    {
        OrderedMap { entries: Vec::new() }
    }

    /// An empty map with room reserved for `n` entries.
    pub fn with_capacity(n: usize) -> (m: Self)
        ensures
            m.wf(),
            m@ == Seq::<Entry<K, V>>::empty(),
    {
        OrderedMap { entries: Vec::with_capacity(n) }
    }

    pub fn len(&self) -> (n: usize)
        ensures
            n == self@.len(),
    {
        self.entries.len()
    }

    pub fn is_empty(&self) -> (b: bool)
        ensures
            b == (self@.len() == 0),
    {
        self.entries.len() == 0
    }

    /// The position of `k` in the enumeration order, if it is present.
    pub fn get_index_of(&self, k: &K) -> (r: Option<usize>)
        requires
            self.wf(),
        ensures
            has_key(self@, *k) ==> r is Some && r->0 as int == key_position(self@, *k),
            !has_key(self@, *k) ==> r is None,
            r matches Some(i) ==> i < self@.len() && self@[i as int].key == *k,
    {
        let mut i: usize = 0;
        while i < self.entries.len()
            invariant
                i <= self@.len(),
                self.wf(),
                forall|j: int| 0 <= j < i ==> (#[trigger] self@[j]).key != *k,
            decreases self@.len() - i,
        {
            if self.entries[i].key.same(k) {
                proof {
                    assert(self@[i as int].key == *k);
                    assert(has_key(self@, *k));
                    let j = key_position(self@, *k);
                    assert(self@[j].key == *k);
                    assert(j == i as int);
                }
                return Some(i);
            }
            i = i + 1;
        }
        None
    }

    pub fn contains_key(&self, k: &K) -> (b: bool)
        requires
            self.wf(),
        ensures
            b == has_key(self@, *k),
    {
        self.get_index_of(k).is_some()
    }

    /// The value stored under `k`, if any.
    pub fn get(&self, k: &K) -> (r: Option<V>)
        requires
            self.wf(),
        ensures
            has_key(self@, *k) ==> r == Some(value_of(self@, *k)),
            !has_key(self@, *k) ==> r is None,
    {
        match self.get_index_of(k) {
            Some(i) => Some(self.entries[i].value),
            None => None,
        }
    }

    /// The entry at position `i` of the enumeration order.
    pub fn get_index(&self, i: usize) -> (r: Option<(K, V)>)
        ensures
            i < self@.len() ==> r == Some((self@[i as int].key, self@[i as int].value)),
            i >= self@.len() ==> r is None,
    {
        if i < self.entries.len() {
            Some((self.entries[i].key, self.entries[i].value))
        } else {
            None
        }
    }

    /// Stores `v` under `k` and returns the value it replaced. A present key
    /// keeps its position; a new key goes at the end.
    pub fn insert(&mut self, k: K, v: V) -> (r: Option<V>)
        requires
            old(self).wf(),
        ensures
            final(self).wf(),
            final(self)@ == map_insert(old(self)@, k, v),
            has_key(old(self)@, k) ==> r == Some(value_of(old(self)@, k)),
            !has_key(old(self)@, k) ==> r is None,
    {
        let ghost s = self@;
        match self.get_index_of(&k) {
            Some(i) => {
                let prev = self.entries[i].value;
                self.entries.set(i, Entry { key: k, value: v });
                proof {
                    assert forall|a: int, b: int|
                        0 <= a < self@.len() && 0 <= b < self@.len() && a != b implies self@[a].key
                        != self@[b].key by {
                        assert(self@[a].key == s[a].key);
                        assert(self@[b].key == s[b].key);
                    }
                }
                Some(prev)
            },
            None => {
                self.entries.push(Entry { key: k, value: v });
                proof {
                    assert forall|a: int, b: int|
                        0 <= a < self@.len() && 0 <= b < self@.len() && a != b implies self@[a].key
                        != self@[b].key by {
                        if a < s.len() && b < s.len() {
                            assert(self@[a] == s[a]);
                            assert(self@[b] == s[b]);
                        } else if a < s.len() {
                            assert(self@[a] == s[a]);
                        } else {
                            assert(self@[b] == s[b]);
                        }
                    }
                    assert(self@ =~= map_insert(s, k, v));
                }
                None
            },
        }
    }

    /// The entries in enumeration order.
    pub fn to_vec(&self) -> (r: Vec<(K, V)>)
        ensures
            r@.len() == self@.len(),
            forall|i: int| 0 <= i < r@.len() ==> #[trigger] r@[i] == (self@[i].key, self@[i].value),
    {
        let mut r: Vec<(K, V)> = Vec::with_capacity(self.entries.len());
        let mut i: usize = 0;
        while i < self.entries.len()
            invariant
                i <= self@.len(),
                r@.len() == i,
                forall|j: int| 0 <= j < i ==> #[trigger] r@[j] == (self@[j].key, self@[j].value),
            decreases self@.len() - i,
        {
            r.push((self.entries[i].key, self.entries[i].value));
            i = i + 1;
        }
        r
    }

    /// Writes the count and then each key followed by its value, in
    /// enumeration order.
    pub fn serialize(&self, out: &mut Vec<u8>) -> (r: Result<(), CodecError>)
        ensures
            match map_encoding(self@) {
                Ok(b) => r is Ok && final(out)@ == old(out)@ + b,
                Err(e) => r == Err::<(), CodecError>(e) && final(out)@ == old(out)@,
            },
    {
        match check_zst::<K>() {
            Err(e) => Err(e),
            Ok(()) => write_stream(&self.entries, out),
        }
    }

    /// The encoding of the map in enumeration order.
    pub fn to_bytes(&self) -> (r: Result<Vec<u8>, CodecError>)
        ensures
            match map_encoding(self@) {
                Ok(b) => r matches Ok(v) && v@ == b,
                Err(e) => r matches Err(f) && f == e,
            },
    {
        let mut out: Vec<u8> = Vec::new();
        match self.serialize(&mut out) {
            Ok(()) => Ok(out),
            Err(e) => Err(e),
        }
    }

    /// Reads a map from `bytes[pos..]`, inserting each entry as it is read, so
    /// a repeated key keeps its first position and takes its last value;
    /// returns the map and the position after it.
    pub fn deserialize_reader(bytes: &[u8], pos: usize) -> (r: Result<(Self, usize), CodecError>)
        requires
            pos <= bytes@.len(),
        ensures
            match map_decode::<K, V>(bytes@.subrange(pos as int, bytes@.len() as int)) {
                Ok((s, n)) => r matches Ok((m, p)) && m.wf() && m@ == s && p == pos + n,
                Err(e) => r matches Err(f) && f == e,
            },
    {
        if let Err(e) = check_zst::<K>() {
            return Err(e);
        }
        let len: usize = bytes.len();
        let ghost whole = bytes@.subrange(pos as int, len as int);
        let (n, start) = match u32::read(bytes, pos) {
            Err(e) => return Err(e),
            Ok(x) => x,
        };
        proof {
            u32::lemma_read_len(whole);
            assert(whole.skip(start - pos) =~= bytes@.subrange(start as int, len as int));
        }
        let mut map = OrderedMap::with_capacity(n as usize);
        let mut p: usize = start;
        let mut i: u32 = 0;
        let ghost mut got: Seq<Entry<K, V>> = Seq::empty();
        while i < n
            invariant
                pos <= start <= p <= len == bytes@.len(),
                i <= n,
                !zero_sized::<K>(),
                u32::spec_read(whole) == Ok::<(u32, nat), CodecError>((n, (start - pos) as nat)),
                whole.skip(start - pos) == bytes@.subrange(start as int, len as int),
                whole == bytes@.subrange(pos as int, len as int),
                read_records::<Entry<K, V>>(bytes@.subrange(start as int, len as int), n as nat)
                    == shifted(
                    read_records::<Entry<K, V>>(
                        bytes@.subrange(p as int, len as int),
                        (n - i) as nat,
                    ),
                    got,
                    (p - start) as nat,
                ),
                map.wf(),
                map@ == map_build(got),
            decreases n - i,
        {
            let ghost tail = bytes@.subrange(p as int, len as int);
            match Entry::<K, V>::read(bytes, p) {
                Err(e) => {
                    assert(read_records::<Entry<K, V>>(tail, (n - i) as nat) == Err::<
                        (Seq<Entry<K, V>>, nat),
                        CodecError,
                    >(e));
                    return Err(e);
                },
                Ok((x, q)) => {
                    proof {
                        Entry::<K, V>::lemma_read_len(tail);
                        assert(tail.skip(q - p) =~= bytes@.subrange(q as int, len as int));
                        lemma_read_records_step(
                            tail,
                            (n - i) as nat,
                            got,
                            (p - start) as nat,
                            x,
                            (q - p) as nat,
                        );
                        assert(got.push(x).drop_last() =~= got);
                    }
                    map.insert(x.key, x.value);
                    proof {
                        got = got.push(x);
                    }
                    p = q;
                    i = i + 1;
                },
            }
        }
        assert(got + Seq::<Entry<K, V>>::empty() =~= got);
        Ok((map, p))
    }

    /// Reads a map that must take up the whole of `bytes`.
    pub fn try_from_slice(bytes: &[u8]) -> (r: Result<Self, CodecError>)
        ensures
            match map_decode::<K, V>(bytes@) {
                Ok((s, n)) => if n == bytes@.len() {
                    r matches Ok(m) && m.wf() && m@ == s
                } else {
                    r matches Err(f) && f == CodecError::TrailingBytes
                },
                Err(e) => r matches Err(f) && f == e,
            },
    {
        assert(bytes@.subrange(0, bytes@.len() as int) =~= bytes@);
        match Self::deserialize_reader(bytes, 0) {
            Err(e) => Err(e),
            Ok((m, p)) => if p == bytes.len() {
                Ok(m)
            } else {
                Err(CodecError::TrailingBytes)
            },
        }
    }
}

impl<K: OrdField, V: Field> OrderedMap<K, V> {
    /// Writes the count and then each entry in ascending order of key, so that
    /// maps with the same contents write the same bytes.
    pub fn serialize_canonical(&self, out: &mut Vec<u8>) -> (r: Result<(), CodecError>)
        requires
            self.wf(),
        ensures
            match map_canonical_encoding(self@) {
                Ok(b) => r is Ok && final(out)@ == old(out)@ + b,
                Err(e) => r == Err::<(), CodecError>(e) && final(out)@ == old(out)@,
            },
    {
        if let Err(e) = check_zst::<K>() {
            return Err(e);
        }
        if self.entries.len() > 0xffff_ffff {
            return Err(CodecError::CardinalityOverflow);
        }
        let ghost s = self@;
        let mut keys: Vec<K> = Vec::with_capacity(self.entries.len());
        let mut i: usize = 0;
        while i < self.entries.len()
            invariant
                i <= s.len(),
                s == self@,
                keys@ == keys_of(s).take(i as int),
            decreases s.len() - i,
        {
            keys.push(self.entries[i].key);
            i = i + 1;
            assert(keys@ =~= keys_of(s).take(i as int));
        }
        proof {
            assert(keys_of(s).take(i as int) =~= keys_of(s));
            assert(keys@.no_duplicates()) by {
                assert forall|a: int, b: int|
                    0 <= a < keys@.len() && 0 <= b < keys@.len() && a != b implies keys@[a]
                    != keys@[b] by {
                    assert(keys@[a] == s[a].key);
                    assert(keys@[b] == s[b].key);
                }
            }
        }
        let sorted = sorted_copy(&keys);
        let ghost c = canonical_entries(s);
        let mut ordered: Vec<Entry<K, V>> = Vec::with_capacity(sorted.len());
        let mut j: usize = 0;
        while j < sorted.len()
            invariant
                j <= sorted@.len() == s.len(),
                s == self@,
                self.wf(),
                sorted@ == canonical(keys@.to_set()),
                sorted@.to_set() == keys@.to_set(),
                keys@ == keys_of(s),
                c == canonical_entries(s),
                c.len() == sorted@.len(),
                ordered@ == c.take(j as int),
            decreases sorted@.len() - j,
        {
            let k = sorted[j];
            proof {
                assert(sorted@.to_set().contains(k));
                assert(keys@.contains(k));
                let a = choose|a: int| 0 <= a < keys@.len() && keys@[a] == k;
                assert(s[a].key == k);
                assert(has_key(s, k));
            }
            let idx = self.get_index_of(&k).unwrap();
            ordered.push(Entry { key: k, value: self.entries[idx].value });
            j = j + 1;
            assert(ordered@ =~= c.take(j as int));
        }
        assert(ordered@ =~= c);
        write_stream(&ordered, out)
    }

    /// The encoding of the map in ascending order of key.
    pub fn to_canonical_bytes(&self) -> (r: Result<Vec<u8>, CodecError>)
        requires
            self.wf(),
        ensures
            match map_canonical_encoding(self@) {
                Ok(b) => r matches Ok(v) && v@ == b,
                Err(e) => r matches Err(f) && f == e,
            },
    {
        let mut out: Vec<u8> = Vec::new();
        match self.serialize_canonical(&mut out) {
            Ok(()) => Ok(out),
            Err(e) => Err(e),
        }
    }
}

} // verus!

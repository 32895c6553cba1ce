//! A set that keeps its elements in the order they were first inserted.
use vstd::prelude::*;
use crate::error::CodecError;
use crate::field::{Field, OrdField};
use crate::guard::{check_zst, zero_sized};
use crate::order::{canonical, sorted_copy};
use crate::records::{
    read_records, read_stream, shifted, stream_bytes, write_stream, lemma_read_records_step,
};

verus! {

/// `s` after inserting `x`: unchanged if `x` is present, else `x` at the end.
pub open spec fn set_insert<T>(s: Seq<T>, x: T) -> Seq<T> {
    if s.contains(x) {
        s
    } else {
        s.push(x)
    }
}

/// The set built by inserting the elements of `es` one after another into
/// an empty set.
pub open spec fn set_build<T>(es: Seq<T>) -> Seq<T>
    decreases es.len(),
{
    if es.len() == 0 {
        Seq::empty()
    } else {
        set_insert(set_build(es.drop_last()), es.last())
    }
}

/// The bytes a set with elements `s` encodes to, in their iteration order.
pub open spec fn set_encoding<T: Field>(s: Seq<T>) -> Result<Seq<u8>, CodecError> {
    if zero_sized::<T>() {
        Err(CodecError::ZeroSizedKeyRejected)
    } else if s.len() > u32::MAX {
        Err(CodecError::CardinalityOverflow)
    } else {
        Ok(stream_bytes(s))
    }
}

/// The bytes a set with elements `s` encodes to, in ascending order.
pub open spec fn set_canonical_encoding<T: OrdField>(s: Seq<T>) -> Result<Seq<u8>, CodecError> {
    if zero_sized::<T>() {
        Err(CodecError::ZeroSizedKeyRejected)
    } else if s.len() > u32::MAX {
        Err(CodecError::CardinalityOverflow)
    } else {
        Ok(stream_bytes(canonical(s.to_set())))
    }
}

/// The elements decoded from the front of `bytes`, in the order that
/// inserting them gives, with the number of bytes read.
pub open spec fn set_decode<T: Field>(bytes: Seq<u8>) -> Result<(Seq<T>, nat), CodecError> {
    if zero_sized::<T>() {
        Err(CodecError::ZeroSizedKeyRejected)
    } else {
        match read_stream::<T>(bytes) {
            Ok((es, n)) => Ok((set_build(es), n)),
            Err(e) => Err(e),
        }
    }
}

/// A set of field values enumerated in order of first insertion.
pub struct OrderedSet<T> {
    items: Vec<T>,
}

impl<T> View for OrderedSet<T> {
    type V = Seq<T>;

    closed spec fn view(&self) -> Seq<T> {
        self.items@
    }
}

impl<T> OrderedSet<T> {
    /// No element occurs twice.
    pub open spec fn wf(&self) -> bool {
        self@.no_duplicates()
    }
}

impl<T: Field> OrderedSet<T> {
    pub fn new() -> (s: Self)
        ensures
            s.wf(),
            s@ == Seq::<T>::empty(),
    {
        OrderedSet { items: Vec::new() }
    }

    /// An empty set with room reserved for `n` elements.
    pub fn with_capacity(n: usize) -> (s: Self)
        ensures
            s.wf(),
            s@ == Seq::<T>::empty(),
    {
        OrderedSet { items: Vec::with_capacity(n) }
    }

    pub fn len(&self) -> (n: usize)
        ensures
            n == self@.len(),
    {
        self.items.len()
    }

    pub fn is_empty(&self) -> (b: bool)
        ensures
            b == (self@.len() == 0),
    {
        self.items.len() == 0
    }

    pub fn contains(&self, x: &T) -> (b: bool)
        ensures
            b == self@.contains(*x),
    {
        let mut i: usize = 0;
        while i < self.items.len()
            invariant
                i <= self@.len(),
                forall|k: int| 0 <= k < i ==> self@[k] != *x,
            decreases self@.len() - i,
        {
            if self.items[i].same(x) {
                return true;
            }
            i = i + 1;
        }
        false
    }

    /// Adds `x` at the end unless it is present; says whether it was added.
    pub fn insert(&mut self, x: T) -> (added: bool)
        requires
            old(self).wf(),
        ensures
            final(self).wf(),
            added == !old(self)@.contains(x),
            final(self)@ == set_insert(old(self)@, x),
    {
        if self.contains(&x) {
            false
        } else {
            self.items.push(x);
            true
        }
    }

    /// The element at position `i` of the enumeration order.
    pub fn get_index(&self, i: usize) -> (r: Option<T>)
        ensures
            i < self@.len() ==> r == Some(self@[i as int]),
            i >= self@.len() ==> r is None,
    {
        if i < self.items.len() {
            Some(self.items[i])
        } else {
            None
        }
    }

    /// The elements in enumeration order.
    pub fn to_vec(&self) -> (v: Vec<T>)
        ensures
            v@ == self@,
    {
        let mut v: Vec<T> = Vec::with_capacity(self.items.len());
        let mut i: usize = 0;
        while i < self.items.len()
            invariant
                i <= self@.len(),
                v@ == self@.take(i as int),
            decreases self@.len() - i,
        {
            v.push(self.items[i]);
            i = i + 1;
            assert(v@ =~= self@.take(i as int));
        }
        assert(self@.take(i as int) =~= self@);
        v
    }

    /// Writes the count and then each element, in enumeration order.
    pub fn serialize(&self, out: &mut Vec<u8>) -> (r: Result<(), CodecError>)
        ensures
            match set_encoding(self@) {
                Ok(b) => r is Ok && final(out)@ == old(out)@ + b,
                Err(e) => r == Err::<(), CodecError>(e) && final(out)@ == old(out)@,
            },
    {
        match check_zst::<T>() {
            Err(e) => Err(e),
            Ok(()) => write_stream(&self.items, out),
        }
    }

    /// The encoding of the set in enumeration order.
    pub fn to_bytes(&self) -> (r: Result<Vec<u8>, CodecError>)
        ensures
            match set_encoding(self@) {
                Ok(b) => r matches Ok(v) && v@ == b,
                Err(e) => r matches Err(f) && f == e,
            },
    {
        let mut out: Vec<u8> = Vec::new();
        match self.serialize(&mut out) {
            Ok(()) => Ok(out),
            Err(e) => Err(e),
        }
    }

    /// Reads a set from `bytes[pos..]`, inserting each element as it is read;
    /// returns the set and the position after it.
    pub fn deserialize_reader(bytes: &[u8], pos: usize) -> (r: Result<(Self, usize), CodecError>)
        requires
            pos <= bytes@.len(),
        ensures
            match set_decode::<T>(bytes@.subrange(pos as int, bytes@.len() as int)) {
                Ok((s, n)) => r matches Ok((m, p)) && m.wf() && m@ == s && p == pos + n,
                Err(e) => r matches Err(f) && f == e,
            },
    {
        if let Err(e) = check_zst::<T>() {
            return Err(e);
        }
        let len: usize = bytes.len();
        let ghost whole = bytes@.subrange(pos as int, len as int);
        let (n, start) = match u32::read(bytes, pos) {
            Err(e) => return Err(e),
            Ok(x) => x,
        };
        proof {
            u32::lemma_read_len(whole);
            assert(whole.skip(start - pos) =~= bytes@.subrange(start as int, len as int));
        }
        let mut set = OrderedSet::with_capacity(n as usize);
        let mut p: usize = start;
        let mut i: u32 = 0;
        let ghost mut got: Seq<T> = Seq::empty();
        while i < n
            invariant
                pos <= start <= p <= len == bytes@.len(),
                i <= n,
                !zero_sized::<T>(),
                u32::spec_read(whole) == Ok::<(u32, nat), CodecError>((n, (start - pos) as nat)),
                whole.skip(start - pos) == bytes@.subrange(start as int, len as int),
                whole == bytes@.subrange(pos as int, len as int),
                read_records::<T>(bytes@.subrange(start as int, len as int), n as nat) == shifted(
                    read_records::<T>(bytes@.subrange(p as int, len as int), (n - i) as nat),
                    got,
                    (p - start) as nat,
                ),
                set.wf(),
                set@ == set_build(got),
            decreases n - i,
        {
            let ghost tail = bytes@.subrange(p as int, len as int);
            match T::read(bytes, p) {
                Err(e) => {
                    assert(read_records::<T>(tail, (n - i) as nat) == Err::<(Seq<T>, nat), CodecError>(e));
                    return Err(e);
                },
                Ok((x, q)) => {
                    proof {
                        T::lemma_read_len(tail);
                        assert(tail.skip(q - p) =~= bytes@.subrange(q as int, len as int));
                        lemma_read_records_step(tail, (n - i) as nat, got, (p - start) as nat, x, (q - p) as nat);
                        assert(got.push(x).drop_last() =~= got);
                    }
                    set.insert(x);
                    proof {
                        got = got.push(x);
                    }
                    p = q;
                    i = i + 1;
                },
            }
        }
        assert(got + Seq::<T>::empty() =~= got);
        Ok((set, p))
    }

    /// Reads a set that must take up the whole of `bytes`.
    pub fn try_from_slice(bytes: &[u8]) -> (r: Result<Self, CodecError>)
        ensures
            match set_decode::<T>(bytes@) {
                Ok((s, n)) => if n == bytes@.len() {
                    r matches Ok(m) && m.wf() && m@ == s
                } else {
                    r matches Err(f) && f == CodecError::TrailingBytes
                },
                Err(e) => r matches Err(f) && f == e,
            },
    {
        assert(bytes@.subrange(0, bytes@.len() as int) =~= bytes@);
        match Self::deserialize_reader(bytes, 0) {
            Err(e) => Err(e),
            Ok((s, p)) => if p == bytes.len() {
                Ok(s)
            } else {
                Err(CodecError::TrailingBytes)
            },
        }
    }
}

impl<T: OrdField> OrderedSet<T> {
    /// Writes the count and then each element in ascending order, so that
    /// sets with the same elements write the same bytes.
    pub fn serialize_canonical(&self, out: &mut Vec<u8>) -> (r: Result<(), CodecError>)
        requires
            self.wf(),
        ensures
            match set_canonical_encoding(self@) {
                Ok(b) => r is Ok && final(out)@ == old(out)@ + b,
                Err(e) => r == Err::<(), CodecError>(e) && final(out)@ == old(out)@,
            },
    {
        if let Err(e) = check_zst::<T>() {
            return Err(e);
        }
        if self.items.len() > 0xffff_ffff {
            return Err(CodecError::CardinalityOverflow);
        }
        let sorted = sorted_copy(&self.items);
        write_stream(&sorted, out)
    }

    /// The encoding of the set in ascending order.
    pub fn to_canonical_bytes(&self) -> (r: Result<Vec<u8>, CodecError>)
        requires
            self.wf(),
        ensures
            match set_canonical_encoding(self@) {
                Ok(b) => r matches Ok(v) && v@ == b,
                Err(e) => r matches Err(f) && f == e,
            },
    {
        let mut out: Vec<u8> = Vec::new();
        match self.serialize_canonical(&mut out) {
            Ok(()) => Ok(out),
            Err(e) => Err(e),
        }
    }
}

} // verus!

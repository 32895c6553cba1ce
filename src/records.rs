//! The record stream shared by both containers: a `u32` count, then each
//! record written by its field codec.
use vstd::prelude::*;
use crate::error::CodecError;
use crate::field::Field;

verus! {

/// One key of a map with its value.
#[derive(Debug, Clone, Copy, PartialEq, Eq)]
pub struct Entry<K, V> {
    pub key: K,
    pub value: V,
}

/// A map entry is written as its key, then its value.
impl<K: Field, V: Field> Field for Entry<K, V> {
    open spec fn spec_bytes(self) -> Seq<u8> {
        self.key.spec_bytes() + self.value.spec_bytes()
    }

    open spec fn spec_read(bytes: Seq<u8>) -> Result<(Entry<K, V>, nat), CodecError> {
        match K::spec_read(bytes) {
            Err(e) => Err(e),
            Ok((k, a)) => match V::spec_read(bytes.skip(a as int)) {
                Err(e) => Err(e),
                Ok((v, b)) => Ok((Entry { key: k, value: v }, a + b)),
            },
        }
    }

    proof fn lemma_read_bytes(self, rest: Seq<u8>) {
        let kb = self.key.spec_bytes();
        let vb = self.value.spec_bytes();
        assert(kb + vb + rest =~= kb + (vb + rest));
        self.key.lemma_read_bytes(vb + rest);
        assert((kb + (vb + rest)).skip(kb.len() as int) =~= vb + rest);
        self.value.lemma_read_bytes(rest);
    }

    proof fn lemma_read_len(bytes: Seq<u8>) {
        K::lemma_read_len(bytes);
        if let Ok((k, a)) = K::spec_read(bytes) {
            V::lemma_read_len(bytes.skip(a as int));
        }
    }

    fn write(&self, out: &mut Vec<u8>) {
        self.key.write(out);
        self.value.write(out);
        assert(final(out)@ =~= old(out)@ + self.spec_bytes());
    }

    fn read(bytes: &[u8], pos: usize) -> (r: Result<(Entry<K, V>, usize), CodecError>) {
        let ghost tail = bytes@.subrange(pos as int, bytes@.len() as int);
        match K::read(bytes, pos) {
            Err(e) => Err(e),
            Ok((k, p)) => {
                proof {
                    K::lemma_read_len(tail);
                    assert(tail.skip((p - pos) as int) =~= bytes@.subrange(
                        p as int,
                        bytes@.len() as int,
                    ));
                }
                match V::read(bytes, p) {
                    Err(e) => Err(e),
                    Ok((v, q)) => Ok((Entry { key: k, value: v }, q)),
                }
            },
        }
    }

    fn same(&self, other: &Entry<K, V>) -> (r: bool) {
        self.key.same(&other.key) && self.value.same(&other.value)
    }
}

/// The concatenated encodings of the records of `t`, in order.
pub open spec fn records_bytes<T: Field>(t: Seq<T>) -> Seq<u8>
    decreases t.len(),
{
    if t.len() == 0 {
        Seq::empty()
    } else {
        t[0].spec_bytes() + records_bytes(t.drop_first())
    }
}

/// The count prefix followed by the records of `t`.
pub open spec fn stream_bytes<T: Field>(t: Seq<T>) -> Seq<u8> {
    (t.len() as u32).spec_bytes() + records_bytes(t)
}

/// Reads `count` records from the front of `bytes`, with the number of
/// bytes they took.
pub open spec fn read_records<T: Field>(bytes: Seq<u8>, count: nat) -> Result<
    (Seq<T>, nat),
    CodecError,
>
    decreases count,
{
    if count == 0 {
        Ok((Seq::empty(), 0))
    } else {
        match T::spec_read(bytes) {
            Err(e) => Err(e),
            Ok((x, k)) => match read_records::<T>(bytes.skip(k as int), (count - 1) as nat) {
                Err(e) => Err(e),
                Ok((rest, c)) => Ok((seq![x] + rest, k + c)),
            },
        }
    }
}

/// Reads a count, then that many records, from the front of `bytes`.
pub open spec fn read_stream<T: Field>(bytes: Seq<u8>) -> Result<(Seq<T>, nat), CodecError> {
    match u32::spec_read(bytes) {
        Err(e) => Err(e),
        Ok((n, a)) => match read_records::<T>(bytes.skip(a as int), n as nat) {
            Err(e) => Err(e),
            Ok((t, b)) => Ok((t, a + b)),
        },
    }
}

/// `r` with `got` put in front of its records and `used` added to its length.
pub open spec fn shifted<T>(r: Result<(Seq<T>, nat), CodecError>, got: Seq<T>, used: nat) -> Result<
    (Seq<T>, nat),
    CodecError,
> {
    match r {
        Ok((rest, c)) => Ok((got + rest, used + c)),
        Err(e) => Err(e),
    }
}

pub proof fn lemma_records_bytes_push<T: Field>(t: Seq<T>, x: T)
    ensures
        records_bytes(t.push(x)) == records_bytes(t) + x.spec_bytes(),
    decreases t.len(),
{
    if t.len() == 0 {
        assert(t.push(x).drop_first() =~= t);
        assert(records_bytes(t) == Seq::<u8>::empty());
        assert(records_bytes(t.push(x)) == x.spec_bytes() + records_bytes(t));
        assert(x.spec_bytes() + Seq::<u8>::empty() =~= x.spec_bytes());
        assert(records_bytes(t) + x.spec_bytes() =~= x.spec_bytes());
    } else {
        assert(t.push(x).drop_first() =~= t.drop_first().push(x));
        lemma_records_bytes_push(t.drop_first(), x);
        assert(records_bytes(t.push(x)) =~= records_bytes(t) + x.spec_bytes());
    }
}

/// Reading the records that `t` wrote gives `t` back, whatever follows them.
pub proof fn lemma_records_round_trip<T: Field>(t: Seq<T>, rest: Seq<u8>)
    ensures
        read_records::<T>(records_bytes(t) + rest, t.len()) == Ok::<(Seq<T>, nat), CodecError>(
            (t, records_bytes(t).len()),
        ),
    decreases t.len(),
{
    if t.len() == 0 {
        assert(t =~= Seq::<T>::empty());
    } else {
        let xb = t[0].spec_bytes();
        let tb = records_bytes(t.drop_first());
        assert(records_bytes(t) + rest =~= xb + (tb + rest));
        t[0].lemma_read_bytes(tb + rest);
        assert((xb + (tb + rest)).skip(xb.len() as int) =~= tb + rest);
        lemma_records_round_trip(t.drop_first(), rest);
        assert(seq![t[0]] + t.drop_first() =~= t);
    }
}

/// Reading a whole stream written from `t` gives `t` back.
pub proof fn lemma_stream_round_trip<T: Field>(t: Seq<T>, rest: Seq<u8>)
    requires
        t.len() <= u32::MAX,
    ensures
        read_stream::<T>(stream_bytes(t) + rest) == Ok::<(Seq<T>, nat), CodecError>(
            (t, stream_bytes(t).len()),
        ),
{
    let n = t.len() as u32;
    let cb = n.spec_bytes();
    let rb = records_bytes(t);
    assert(stream_bytes(t) + rest =~= cb + (rb + rest));
    n.lemma_read_bytes(rb + rest);
    assert((cb + (rb + rest)).skip(cb.len() as int) =~= rb + rest);
    lemma_records_round_trip(t, rest);
}

/// Appends the records of `items[0..]` to `out`.
pub fn write_records<T: Field>(items: &Vec<T>, out: &mut Vec<u8>)
    ensures
        final(out)@ == old(out)@ + records_bytes(items@),
{
    let ghost start = old(out)@;
    let mut i: usize = 0;
    while i < items.len()
        invariant
            i <= items@.len(),
            out@ == start + records_bytes(items@.take(i as int)),
        decreases items@.len() - i,
    {
        let x = items[i];
        x.write(out);
        proof {
            assert(items@.take(i + 1) =~= items@.take(i as int).push(x));
            lemma_records_bytes_push(items@.take(i as int), x);
            assert(out@ =~= start + records_bytes(items@.take(i + 1)));
        }
        i = i + 1;
    }
    assert(items@.take(i as int) =~= items@);
}

/// Writes the count of `items` and then its records; fails, writing
/// nothing, when the count does not fit in a `u32`.
pub fn write_stream<T: Field>(items: &Vec<T>, out: &mut Vec<u8>) -> (r: Result<(), CodecError>)
    ensures
        items@.len() > u32::MAX ==> r == Err::<(), CodecError>(CodecError::CardinalityOverflow)
            && final(out)@ == old(out)@,
        items@.len() <= u32::MAX ==> r is Ok && final(out)@ == old(out)@ + stream_bytes(items@),
{
    if items.len() > 0xffff_ffff {
        return Err(CodecError::CardinalityOverflow);
    }
    let n: u32 = items.len() as u32;
    n.write(out);
    write_records(items, out);
    assert(final(out)@ =~= old(out)@ + stream_bytes(items@));
    Ok(())
}

} // verus!

verus! {

/// One step of reading records: taking the first record `x`, of `k` bytes,
/// moves it to the end of what was read so far.
pub proof fn lemma_read_records_step<T: Field>(
    tail: Seq<u8>,
    count: nat,
    got: Seq<T>,
    used: nat,
    x: T,
    k: nat,
)
    requires
        count > 0,
        T::spec_read(tail) == Ok::<(T, nat), CodecError>((x, k)),
    ensures
        shifted(read_records::<T>(tail, count), got, used) == shifted(
            read_records::<T>(tail.skip(k as int), (count - 1) as nat),
            got.push(x),
            used + k,
        ),
{
    match read_records::<T>(tail.skip(k as int), (count - 1) as nat) {
        Ok((rest, c)) => {
            assert(got + (seq![x] + rest) =~= got.push(x) + rest);
        },
        Err(e) => {},
    }
}

} // verus!

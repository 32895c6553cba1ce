//! Field codecs: how a single key, value or element is written and read.
use vstd::prelude::*;
use crate::error::CodecError;
use crate::le::{
    le_bytes, le_value, pow256, lemma_le_bytes_len, lemma_le_round_trip, lemma_le_value_bound,
    lemma_pow256_widths, read_le, write_le,
};

verus! {

/// A reader's result `r`, started at `pos`, agrees with the abstract result
/// `s` read from the bytes that follow `pos`.
pub open spec fn read_agrees<T>(
    s: Result<(T, nat), CodecError>,
    pos: usize,
    r: Result<(T, usize), CodecError>,
) -> bool {
    match s {
        Ok((v, n)) => r matches Ok((w, p)) && w == v && p == pos + n,
        Err(e) => r == Err::<(T, usize), CodecError>(e),
    }
}

/// A type with its own binary codec.
///
/// `spec_bytes` is what a value writes; `spec_read` is what is read from the
/// front of a byte sequence, with the number of bytes taken.
pub trait Field: Sized + Copy {
    spec fn spec_bytes(self) -> Seq<u8>;

    spec fn spec_read(bytes: Seq<u8>) -> Result<(Self, nat), CodecError>;

    /// Reading what a value wrote gives the value back, whatever follows it.
    proof fn lemma_read_bytes(self, rest: Seq<u8>)
        ensures
            Self::spec_read(self.spec_bytes() + rest) == Ok::<(Self, nat), CodecError>(
                (self, self.spec_bytes().len()),
            ),
    ;

    /// A read never takes more bytes than it was given.
    proof fn lemma_read_len(bytes: Seq<u8>)
        ensures
            Self::spec_read(bytes) matches Ok((_, n)) ==> n <= bytes.len(),
    ;

    fn write(&self, out: &mut Vec<u8>)
        ensures
            final(out)@ == old(out)@ + self.spec_bytes(),
    ;

    fn read(bytes: &[u8], pos: usize) -> (r: Result<(Self, usize), CodecError>)
        requires
            pos <= bytes@.len(),
        ensures
            read_agrees(Self::spec_read(bytes@.subrange(pos as int, bytes@.len() as int)), pos, r),
    ;

    fn same(&self, other: &Self) -> (r: bool)
        ensures
            r == (*self == *other),
    ;
}

/// A field type with a strict total order.
pub trait OrdField: Field {
    spec fn precedes(self, other: Self) -> bool;

    proof fn lemma_strict_total_order(a: Self, b: Self, c: Self)
        ensures
            !a.precedes(a),
            a.precedes(b) && b.precedes(c) ==> a.precedes(c),
            a != b ==> a.precedes(b) || b.precedes(a),
    ;

    fn lt(&self, other: &Self) -> (r: bool)
        ensures
            r == self.precedes(*other),
    ;
}

/// The abstract read of an `n`-byte little-endian integer.
pub open spec fn read_fixed(bytes: Seq<u8>, n: nat) -> Result<(nat, nat), CodecError> {
    if bytes.len() < n {
        Err(CodecError::UnexpectedEnd)
    } else {
        Ok((le_value(bytes.subrange(0, n as int)), n))
    }
}

proof fn lemma_read_fixed_bytes(x: nat, n: nat, rest: Seq<u8>)
    requires
        x < pow256(n),
    ensures
        read_fixed(le_bytes(x, n) + rest, n) == Ok::<(nat, nat), CodecError>((x, n)),
{
    lemma_le_bytes_len(x, n);
    lemma_le_round_trip(x, n);
    assert((le_bytes(x, n) + rest).subrange(0, n as int) =~= le_bytes(x, n));
}

fn read_fixed_exec(bytes: &[u8], pos: usize, n: usize) -> (r: Result<(u64, usize), CodecError>)
    requires
        pos <= bytes@.len(),
        n <= 8,
    ensures
        match read_fixed(bytes@.subrange(pos as int, bytes@.len() as int), n as nat) {
            Ok((v, k)) => r matches Ok((w, p)) && w as nat == v && p == pos + k,
            Err(e) => r == Err::<(u64, usize), CodecError>(e),
        },
{
    let len: usize = bytes.len();
    if len - pos < n {
        Err(CodecError::UnexpectedEnd)
    } else {
        let v = read_le(bytes, pos, n);
        assert(bytes@.subrange(pos as int, pos + n) =~= bytes@.subrange(
            pos as int,
            bytes@.len() as int,
        ).subrange(0, n as int));
        Ok((v, pos + n))
    }
}

impl Field for u8 {
    open spec fn spec_bytes(self) -> Seq<u8> {
        le_bytes(self as nat, 1)
    }

    open spec fn spec_read(bytes: Seq<u8>) -> Result<(u8, nat), CodecError> {
        match read_fixed(bytes, 1) {
            Ok((v, n)) => Ok((v as u8, n)),
            Err(e) => Err(e),
        }
    }

    proof fn lemma_read_bytes(self, rest: Seq<u8>) {
        lemma_pow256_widths();
        lemma_read_fixed_bytes(self as nat, 1, rest);
        lemma_le_bytes_len(self as nat, 1);
    }

    proof fn lemma_read_len(bytes: Seq<u8>) {
    }

    fn write(&self, out: &mut Vec<u8>) {
        write_le(out, *self as u64, 1);
    }

    fn read(bytes: &[u8], pos: usize) -> (r: Result<(u8, usize), CodecError>) {
        match read_fixed_exec(bytes, pos, 1) {
            Ok((v, p)) => {
                proof {
                    lemma_le_value_bound(bytes@.subrange(pos as int, pos + 1));
                    lemma_pow256_widths();
                }
                Ok((v as u8, p))
            },
            Err(e) => Err(e),
        }
    }

    fn same(&self, other: &u8) -> (r: bool) {
        *self == *other
    }
}

impl OrdField for u8 {
    open spec fn precedes(self, other: u8) -> bool {
        self < other
    }

    proof fn lemma_strict_total_order(a: u8, b: u8, c: u8) {
    }

    fn lt(&self, other: &u8) -> (r: bool) {
        *self < *other
    }
}

impl Field for u32 {
    open spec fn spec_bytes(self) -> Seq<u8> {
        le_bytes(self as nat, 4)
    }

    open spec fn spec_read(bytes: Seq<u8>) -> Result<(u32, nat), CodecError> {
        match read_fixed(bytes, 4) {
            Ok((v, n)) => Ok((v as u32, n)),
            Err(e) => Err(e),
        }
    }

    proof fn lemma_read_bytes(self, rest: Seq<u8>) {
        lemma_pow256_widths();
        lemma_read_fixed_bytes(self as nat, 4, rest);
        lemma_le_bytes_len(self as nat, 4);
    }

    proof fn lemma_read_len(bytes: Seq<u8>) {
    }

    fn write(&self, out: &mut Vec<u8>) {
        write_le(out, *self as u64, 4);
    }

    fn read(bytes: &[u8], pos: usize) -> (r: Result<(u32, usize), CodecError>) {
        match read_fixed_exec(bytes, pos, 4) {
            Ok((v, p)) => {
                proof {
                    lemma_le_value_bound(bytes@.subrange(pos as int, pos + 4));
                    lemma_pow256_widths();
                }
                Ok((v as u32, p))
            },
            Err(e) => Err(e),
        }
    }

    fn same(&self, other: &u32) -> (r: bool) {
        *self == *other
    }
}

impl OrdField for u32 {
    open spec fn precedes(self, other: u32) -> bool {
        self < other
    }

    proof fn lemma_strict_total_order(a: u32, b: u32, c: u32) {
    }

    fn lt(&self, other: &u32) -> (r: bool) {
        *self < *other
    }
}

impl Field for u64 {
    open spec fn spec_bytes(self) -> Seq<u8> {
        le_bytes(self as nat, 8)
    }

    open spec fn spec_read(bytes: Seq<u8>) -> Result<(u64, nat), CodecError> {
        match read_fixed(bytes, 8) {
            Ok((v, n)) => Ok((v as u64, n)),
            Err(e) => Err(e),
        }
    }

    proof fn lemma_read_bytes(self, rest: Seq<u8>) {
        lemma_pow256_widths();
        lemma_read_fixed_bytes(self as nat, 8, rest);
        lemma_le_bytes_len(self as nat, 8);
    }

    proof fn lemma_read_len(bytes: Seq<u8>) {
    }

    fn write(&self, out: &mut Vec<u8>) {
        write_le(out, *self, 8);
    }

    fn read(bytes: &[u8], pos: usize) -> (r: Result<(u64, usize), CodecError>) {
        read_fixed_exec(bytes, pos, 8)
    }

    fn same(&self, other: &u64) -> (r: bool) {
        *self == *other
    }
}

impl OrdField for u64 {
    open spec fn precedes(self, other: u64) -> bool {
        self < other
    }

    proof fn lemma_strict_total_order(a: u64, b: u64, c: u64) {
    }

    fn lt(&self, other: &u64) -> (r: bool) {
        *self < *other
    }
}

/// An `i32` is written as the four little-endian bytes of its two's complement.
impl Field for i32 {
    open spec fn spec_bytes(self) -> Seq<u8> {
        le_bytes((self as u32) as nat, 4)
    }

    open spec fn spec_read(bytes: Seq<u8>) -> Result<(i32, nat), CodecError> {
        match read_fixed(bytes, 4) {
            Ok((v, n)) => Ok(((v as u32) as i32, n)),
            Err(e) => Err(e),
        }
    }

    proof fn lemma_read_bytes(self, rest: Seq<u8>) {
        lemma_pow256_widths();
        lemma_read_fixed_bytes((self as u32) as nat, 4, rest);
        lemma_le_bytes_len((self as u32) as nat, 4);
        let x = self;
        assert(((x as u32) as i32) == x) by (bit_vector);
    }

    proof fn lemma_read_len(bytes: Seq<u8>) {
    }

    fn write(&self, out: &mut Vec<u8>) {
        write_le(out, (*self as u32) as u64, 4);
    }

    fn read(bytes: &[u8], pos: usize) -> (r: Result<(i32, usize), CodecError>) {
        match read_fixed_exec(bytes, pos, 4) {
            Ok((v, p)) => {
                proof {
                    lemma_le_value_bound(bytes@.subrange(pos as int, pos + 4));
                    lemma_pow256_widths();
                }
                Ok(((v as u32) as i32, p))
            },
            Err(e) => Err(e),
        }
    }

    fn same(&self, other: &i32) -> (r: bool) {
        *self == *other
    }
}

impl OrdField for i32 {
    open spec fn precedes(self, other: i32) -> bool {
        self < other
    }

    proof fn lemma_strict_total_order(a: i32, b: i32, c: i32) {
    }

    fn lt(&self, other: &i32) -> (r: bool) {
        *self < *other
    }
}

/// A value that carries no information and occupies no memory.
#[derive(Debug, Clone, Copy, PartialEq, Eq, Structural)]
pub struct Nothing;

/// `Nothing` writes no bytes and reads without consuming input.
impl Field for Nothing {
    open spec fn spec_bytes(self) -> Seq<u8> {
        Seq::empty()
    }

    open spec fn spec_read(bytes: Seq<u8>) -> Result<(Nothing, nat), CodecError> {
        Ok((Nothing, 0))
    }

    proof fn lemma_read_bytes(self, rest: Seq<u8>) {
    }

    proof fn lemma_read_len(bytes: Seq<u8>) {
    }

    fn write(&self, out: &mut Vec<u8>) {
        assert(old(out)@ + Seq::<u8>::empty() =~= old(out)@);
    }

    fn read(bytes: &[u8], pos: usize) -> (r: Result<(Nothing, usize), CodecError>) {
        Ok((Nothing, pos))
    }

    fn same(&self, other: &Nothing) -> (r: bool) {
        true
    }
}

impl OrdField for Nothing {
    open spec fn precedes(self, other: Nothing) -> bool {
        false
    }

    proof fn lemma_strict_total_order(a: Nothing, b: Nothing, c: Nothing) {
    }

    fn lt(&self, other: &Nothing) -> (r: bool) {
        false
    }
}

} // verus!

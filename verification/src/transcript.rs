//! A Fiat-Shamir transcript: a log of absorbed bytes from which challenges
//! are derived by hashing.

use vstd::prelude::*;
use vstd::arithmetic::div_mod::*;
use core::marker::PhantomData;
use crate::field::{fadd, fmul, values, zero, Field};
use crate::hash::{sha256, sha256_digest};

verus! {

/// The `k` low-order bytes of `x`, least significant first.
pub open spec fn le_bytes(x: int, k: nat) -> Seq<u8>
    decreases k,
{
    if k == 0 {
        Seq::empty()
    } else {
        seq![(x % 256) as u8] + le_bytes(x / 256, (k - 1) as nat)
    }
}

/// The residues of `vals`, eight bytes each, in order.
pub open spec fn encode_values(vals: Seq<int>) -> Seq<u8>
    decreases vals.len(),
{
    if vals.len() == 0 {
        Seq::empty()
    } else {
        encode_values(vals.drop_last()) + le_bytes(vals.last(), 8)
    }
}

/// The log after a labelled message: the label, the length of the data,
/// then the data.
pub open spec fn absorb(log: Seq<u8>, label: Seq<u8>, data: Seq<u8>) -> Seq<u8> {
    log + label + le_bytes(data.len() as int, 8) + data
}

/// The field element that `bytes` stand for, read as a base-256 number with
/// the most significant digit first and reduced modulo `p`.
pub open spec fn bytes_to_field(p: int, bytes: Seq<u8>) -> int
    decreases bytes.len(),
{
    if bytes.len() == 0 {
        0
    } else {
        fadd(p, fmul(p, bytes_to_field(p, bytes.drop_last()), 256int % p), (bytes.last() as int) % p)
    }
}

/// The challenge that a transcript with this log yields.
pub open spec fn challenge(p: int, log: Seq<u8>) -> int {
    bytes_to_field(p, sha256(log))
}

/// The log after a challenge was drawn from it: the digest is fed back.
pub open spec fn squeezed(log: Seq<u8>) -> Seq<u8> {
    log + sha256(log)
}

/// Appends the eight little-endian bytes of `x`.
pub fn push_u64(out: &mut Vec<u8>, x: u64)
    ensures
        final(out)@ == old(out)@ + le_bytes(x as int, 8),
{
    let mut rest: u64 = x;
    let ghost start = out@;
    assert(le_bytes(rest as int, 0) =~= Seq::<u8>::empty());
    assert(start + le_bytes(x as int, 8) =~= out@ + le_bytes(rest as int, 8));
    for i in 0..8usize
        invariant
            start + le_bytes(x as int, 8) == out@ + le_bytes(rest as int, (8 - i) as nat),
    {
        let b: u8 = (rest % 256) as u8;
        proof {
            let k = (8 - i) as nat;
            assert(le_bytes(rest as int, k) == seq![((rest as int) % 256) as u8] + le_bytes(
                (rest as int) / 256,
                (k - 1) as nat,
            ));
            assert(out@ + (seq![b] + le_bytes((rest as int) / 256, (k - 1) as nat)) =~= out@.push(
                b,
            ) + le_bytes((rest as int) / 256, (k - 1) as nat));
        }
        out.push(b);
        rest = rest / 256;
    }
    assert(out@ + le_bytes(rest as int, 0) =~= out@);
}

/// Appends the bytes of `src`.
pub fn push_all(out: &mut Vec<u8>, src: &Vec<u8>)
    ensures
        final(out)@ == old(out)@ + src@,
{
    let ghost start = out@;
    assert(start + src@.take(0) =~= out@);
    for i in 0..src.len()
        invariant
            out@ == start + src@.take(i as int),
    {
        assert(start + src@.take(i as int + 1) =~= (start + src@.take(i as int)).push(src@[i as int]));
        out.push(src[i]);
    }
    assert(src@.take(src.len() as int) =~= src@);
}

/// The canonical encoding of a sequence of field elements.
pub fn encode_elements<F: Field>(elems: &Vec<F>) -> (out: Vec<u8>)
    ensures
        out@ == encode_values(values(elems@)),
{
    let mut out: Vec<u8> = Vec::new();
    let ghost vals = values(elems@);
    assert(encode_values(vals.take(0)) =~= Seq::<u8>::empty());
    for i in 0..elems.len()
        invariant
            vals == values(elems@),
            out@ == encode_values(vals.take(i as int)),
    {
        proof {
            let next = vals.take(i as int + 1);
            assert(next.drop_last() =~= vals.take(i as int));
            assert(next.last() == elems@[i as int].value());
        }
        push_u64(&mut out, elems[i].to_u64());
    }
    assert(vals.take(elems.len() as int) =~= vals);
    out
}

/// The field element that a byte string stands for.
pub fn field_from_bytes<F: Field>(bytes: &Vec<u8>) -> (r: F)
    ensures
        r.value() == bytes_to_field(F::modulus(), bytes@),
{
    let mut acc: F = zero::<F>();
    let base: F = F::from_u64(256);
    assert(bytes@.take(0) =~= Seq::<u8>::empty());
    for i in 0..bytes.len()
        invariant
            base.value() == 256int % F::modulus(),
            acc.value() == bytes_to_field(F::modulus(), bytes@.take(i as int)),
    {
        proof {
            let next = bytes@.take(i as int + 1);
            assert(next.drop_last() =~= bytes@.take(i as int));
            assert(next.last() == bytes@[i as int]);
        }
        let digit: F = F::from_u64(bytes[i] as u64);
        acc = acc.mul(&base).add(&digit);
    }
    assert(bytes@.take(bytes.len() as int) =~= bytes@);
    acc
}

/// The running state of a Fiat-Shamir transformation over the field `F`.
pub struct Transcript<F: Field> {
    pub log: Vec<u8>,
    pub marker: PhantomData<F>,
}

impl<F: Field> View for Transcript<F> {
    type V = Seq<u8>;

    open spec fn view(&self) -> Seq<u8> {
        self.log@
    }
}

impl<F: Field> Transcript<F> {
    /// A fresh transcript, with nothing absorbed.
    pub fn new() -> (t: Self)
        ensures
            t@ == Seq::<u8>::empty(),
    {
        Transcript { log: Vec::new(), marker: PhantomData }
    }

    /// Absorbs `data` under `label`.
    pub fn append_message(&mut self, label: &Vec<u8>, data: &Vec<u8>)
        ensures
            final(self)@ == absorb(old(self)@, label@, data@),
    {
        push_all(&mut self.log, label);
        push_u64(&mut self.log, data.len() as u64);
        push_all(&mut self.log, data);
    }

    /// Absorbs a sequence of field elements under `label`.
    pub fn append_elements(&mut self, label: &Vec<u8>, elems: &Vec<F>)
        ensures
            final(self)@ == absorb(old(self)@, label@, encode_values(values(elems@))),
    {
        let data = encode_elements(elems);
        self.append_message(label, &data);
    }

    /// Draws the challenge that everything absorbed so far determines.
    pub fn get_challenge(&mut self) -> (r: F)
        ensures
            r.value() == challenge(F::modulus(), old(self)@),
            final(self)@ == squeezed(old(self)@),
    {
        let digest = sha256_digest(&self.log);
        let r: F = field_from_bytes(&digest);
        push_all(&mut self.log, &digest);
        r
    }
}

} // verus!

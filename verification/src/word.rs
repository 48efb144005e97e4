//! 256-bit unsigned words: the values that contenders play and that travel in
//! call payloads. The arithmetic is done by `sp_core::U256`.

use parity_scale_codec::Encode;
use vstd::prelude::*;

verus! {

/// A 256-bit unsigned integer held as four 64-bit limbs, least significant
/// first.
#[derive(Clone, Copy, Debug, PartialEq, Eq)]
pub struct Word {
    pub limbs: [u64; 4],
}

impl View for Word {
    type V = nat;

    /// The number that the limbs stand for.
    open spec fn view(&self) -> nat {
        (self.limbs[0] as nat) + (self.limbs[1] as nat) * 0x1_0000_0000_0000_0000
            + (self.limbs[2] as nat) * 0x1_0000_0000_0000_0000_0000_0000_0000_0000
            + (self.limbs[3] as nat)
            * 0x1_0000_0000_0000_0000_0000_0000_0000_0000_0000_0000_0000_0000
    }
}

/// One more than the largest value of a word: 2^256.
pub open spec fn word_modulus() -> nat {
    0x1_0000_0000_0000_0000_0000_0000_0000_0000_0000_0000_0000_0000_0000_0000_0000_0000nat
}

/// The number that `bytes` spell, most significant byte first.
pub open spec fn be_value(bytes: Seq<u8>) -> nat
    decreases bytes.len(),
{
    if bytes.len() == 0 {
        0
    } else {
        be_value(bytes.drop_last()) * 256 + bytes.last() as nat
    }
}

/// The `len` low bytes of `n`, least significant byte first.
pub open spec fn le_bytes(n: nat, len: nat) -> Seq<u8>
    decreases len,
{
    if len == 0 {
        Seq::empty()
    } else {
        seq![(n % 256) as u8] + le_bytes(n / 256, (len - 1) as nat)
    }
}

/// `U256::from_big_endian`: reads up to 32 bytes as a big-endian number. The
/// outside function asserts that the slice holds at most 32 bytes and pads a
/// shorter one on the left with zeros.
#[verifier::external_body]
pub(crate) fn u256_from_big_endian(bytes: &[u8]) -> (w: Word)
    requires
        bytes@.len() <= 32,
    ensures
        w@ == be_value(bytes@),
{
    Word { limbs: sp_core::U256::from_big_endian(bytes).0 }
}

/// `U256::div_mod`: quotient and remainder of two words. The outside function
/// panics when the divisor is zero.
#[verifier::external_body]
pub(crate) fn u256_div_mod(a: Word, b: Word) -> (qr: (Word, Word))
    requires
        b@ != 0,
    ensures
        qr.0@ == a@ / b@,
        qr.1@ == a@ % b@,
{
    let (q, r) = sp_core::U256(a.limbs).div_mod(sp_core::U256(b.limbs));
    (Word { limbs: q.0 }, Word { limbs: r.0 })
}

/// `U256`'s `+`: the sum of two words. The outside operator panics when the
/// sum does not fit in 256 bits.
#[verifier::external_body]
pub(crate) fn u256_add(a: Word, b: Word) -> (s: Word)
    requires
        a@ + b@ < word_modulus(),
    ensures
        s@ == a@ + b@,
{
    Word { limbs: (sp_core::U256(a.limbs) + sp_core::U256(b.limbs)).0 }
}

/// `Encode::encode` on a `U256`: the SCALE encoding of a word, which is its 32
/// bytes, least significant first, with no length prefix.
#[verifier::external_body]
pub(crate) fn u256_encode(w: Word) -> (bytes: Vec<u8>)
    ensures
        bytes@ == le_bytes(w@, 32),
{
    sp_core::U256(w.limbs).encode()
}

impl Word {
    /// The word 0.
    pub fn zero() -> (w: Word)
        ensures
            w@ == 0,
    {
        Word { limbs: [0, 0, 0, 0] }
    }

    /// The word that holds `x`.
    pub fn from_u32(x: u32) -> (w: Word)
        ensures
            w@ == x,
    {
        Word { limbs: [x as u64, 0, 0, 0] }
    }

    /// Reads `bytes` as a big-endian number. `None` when there are more than
    /// 32 bytes, which no word can hold in general.
    pub fn from_be_bytes(bytes: &[u8]) -> (w: Option<Word>)
        ensures
            w is Some <==> bytes@.len() <= 32,
            w matches Some(word) ==> word@ == be_value(bytes@),
    {
        if bytes.len() <= 32 {
            Some(u256_from_big_endian(bytes))
        } else {
            None
        }
    }

    /// The remainder of the word on division by three.
    pub fn rem3(self) -> (r: u8)
        ensures
            r == self@ % 3,
    {
        let (_, m) = u256_div_mod(self, Word::from_u32(3));
        assert(m.limbs[1] == 0 && m.limbs[2] == 0 && m.limbs[3] == 0);
        m.limbs[0] as u8
    }

    /// The 32 bytes of the word, least significant first: the form in which a
    /// word travels in a call payload.
    pub fn encode(self) -> (bytes: Vec<u8>)
        ensures
            bytes@ == le_bytes(self@, 32),
    {
        u256_encode(self)
    }
}

} // verus!

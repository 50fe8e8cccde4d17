//! Evaluation values. They are symbolic: a human-readable recipe string
//! plus a stable hash; the hash is the cache and render-dirty key.

use vstd::prelude::*;
use vstd::utf8::encode_utf8;

verus! {

/// FNV-1a 64-bit offset basis.
pub const FNV_OFFSET: u64 = 0xcbf29ce484222325;

/// FNV-1a 64-bit prime.
pub const FNV_PRIME: u64 = 0x100000001b3;

/// One FNV-1a step: xor the byte in, multiply modulo 2^64.
pub open spec fn fnv1a_step(hash: u64, b: u8) -> u64 {
    (((hash ^ (b as u64)) as nat * FNV_PRIME as nat) % 0x1_0000_0000_0000_0000nat) as u64
}

/// FNV-1a of a byte sequence, folded left to right.
pub open spec fn fnv1a_spec(bytes: Seq<u8>) -> u64
    decreases bytes.len(),
{
    if bytes.len() == 0 {
        FNV_OFFSET
    } else {
        fnv1a_step(fnv1a_spec(bytes.drop_last()), bytes.last())
    }
}

/// FNV-1a, written out so hashes are stable across Rust versions.
pub fn fnv1a(bytes: &[u8]) -> (hash: u64)
    ensures
        hash == fnv1a_spec(bytes@),
{
    let mut hash: u64 = FNV_OFFSET;
    let n = bytes.len();
    let mut i: usize = 0;
    while i < n
        invariant
            n == bytes@.len(),
            i <= n,
            hash == fnv1a_spec(bytes@.take(i as int)),
        decreases n - i,
    {
        proof {
            assert(bytes@.take(i as int + 1).drop_last() =~= bytes@.take(i as int));
        }
        hash = (hash ^ (bytes[i] as u64)).wrapping_mul(FNV_PRIME);
        i = i + 1;
    }
    proof {
        assert(bytes@.take(n as int) =~= bytes@);
    }
    hash
}

#[derive(Debug)]
pub struct ImageDesc {
    pub hash: u64,
    pub recipe: String,
}

/// Abstract value: the recipe's characters and the hash it carries.
pub struct ValueView {
    pub hash: u64,
    pub recipe: Seq<char>,
}

#[derive(Debug)]
pub enum Value {
    Image(ImageDesc),
}

impl Value {
    pub open spec fn view(&self) -> ValueView {
        match self {
            Value::Image(d) => ValueView { hash: d.hash, recipe: d.recipe@ },
        }
    }

    /// An image value; its hash is the FNV-1a of the recipe's UTF-8 bytes.
    pub fn image(recipe: String) -> (v: Self)
        ensures
            v@.recipe == recipe@,
            v@.hash == fnv1a_spec(encode_utf8(recipe@)),
    {
        let hash = fnv1a(recipe.as_str().as_bytes());
        Value::Image(ImageDesc { hash, recipe })
    }

    pub fn recipe(&self) -> (r: &str)
        ensures
            r@ == self@.recipe,
    {
        match self {
            Value::Image(d) => d.recipe.as_str(),
        }
    }

    pub fn hash(&self) -> (h: u64)
        ensures
            h == self@.hash,
    {
        match self {
            Value::Image(d) => d.hash,
        }
    }

    /// A copy with the same recipe and hash.
    pub fn duplicate(&self) -> (v: Self)
        ensures
            v@ == self@,
    {
        match self {
            Value::Image(d) => Value::Image(ImageDesc { hash: d.hash, recipe: d.recipe.clone() }),
        }
    }
}

} // verus!

use vstd::prelude::*;

verus! {

/// The capability a key type must supply: a hash whose executable result is
/// pinned to a spec-level function of the key's abstract value, and an
/// equality test that decides equality of abstract values.
///
/// Two keys with the same abstract value always hash alike, because
/// `hash_spec` is a function of that value alone.
pub trait HashKey: View + Sized {
    /// The hash of a key, as a function of its abstract value.
    spec fn hash_spec(v: Self::V) -> u64;

    /// Computes the hash of this key.
    fn hash_code(&self) -> (r: u64)
        ensures
            r == Self::hash_spec(self@),
    ;

    /// Decides whether two keys have the same abstract value.
    fn key_eq(&self, other: &Self) -> (r: bool)
        ensures
            r == (self@ == other@),
    ;
}

/// A 31-based iterated polynomial over a character sequence, wrapping at
/// the `u64` boundary.
pub open spec fn hash_chars(s: Seq<char>) -> u64
    decreases s.len(),
{
    if s.len() == 0 {
        0u64
    } else {
        vstd::wrapping::u64_specs::wrapping_add(
            vstd::wrapping::u64_specs::wrapping_mul(hash_chars(s.drop_last()), 31u64),
            s.last() as u64,
        )
    }
}

/// Computes `hash_chars` over the characters of a string slice.
pub fn str_hash(s: &str) -> (r: u64)
    ensures
        r == hash_chars(s@),
{
    let n = s.unicode_len();
    let mut h: u64 = 0;
    let mut i: usize = 0;
    while i < n
        invariant
            i <= n,
            n == s@.len(),
            h == hash_chars(s@.take(i as int)),
        decreases n - i,
    {
        let c = s.get_char(i);
        h = h.wrapping_mul(31).wrapping_add(c as u64);
        proof {
            assert(s@.take(i + 1 as int).drop_last() =~= s@.take(i as int));
            assert(s@.take(i + 1 as int).last() == s@[i as int]);
        }
        i = i + 1;
    }
    proof {
        assert(s@.take(n as int) =~= s@);
    }
    h
}

/// Decides whether two string slices hold the same character sequence.
pub fn str_eq(a: &str, b: &str) -> (r: bool)
    ensures
        r == (a@ == b@),
{
    let na = a.unicode_len();
    let nb = b.unicode_len();
    if na != nb {
        return false;
    }
    let mut i: usize = 0;
    while i < na
        invariant
            i <= na,
            na == a@.len(),
            na == b@.len(),
            forall|j: int| 0 <= j < i ==> a@[j] == b@[j],
        decreases na - i,
    {
        let ca = a.get_char(i);
        let cb = b.get_char(i);
        if ca != cb {
            return false;
        }
        i = i + 1;
    }
    proof {
        assert(a@ =~= b@);
    }
    true
}

impl HashKey for u64 {
    open spec fn hash_spec(v: u64) -> u64 {
        v
    }

    fn hash_code(&self) -> (r: u64) {
        *self
    }

    fn key_eq(&self, other: &Self) -> (r: bool) {
        *self == *other
    }
}

impl HashKey for i32 {
    open spec fn hash_spec(v: i32) -> u64 {
        v as u64
    }

    fn hash_code(&self) -> (r: u64) {
        *self as u64
    }

    fn key_eq(&self, other: &Self) -> (r: bool) {
        *self == *other
    }
}

impl<'a> HashKey for &'a str {
    open spec fn hash_spec(v: Seq<char>) -> u64 {
        hash_chars(v)
    }

    fn hash_code(&self) -> (r: u64) {
        str_hash(*self)
    }

    fn key_eq(&self, other: &Self) -> (r: bool) {
        str_eq(*self, *other)
    }
}

impl HashKey for String {
    open spec fn hash_spec(v: Seq<char>) -> u64 {
        hash_chars(v)
    }

    fn hash_code(&self) -> (r: u64) {
        str_hash(self.as_str())
    }

    fn key_eq(&self, other: &Self) -> (r: bool) {
        str_eq(self.as_str(), other.as_str())
    }
}

} // verus!

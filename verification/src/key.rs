use vstd::prelude::*;
use vstd::string::StringSliceAdditionalSpecFns;

verus! {

/// A key of the table.
///
/// A key describes itself as a byte string: the bytes are what the hash
/// provider consumes, and two keys count as the same key exactly when their
/// byte strings are equal.  Implementations must therefore pick an encoding
/// under which distinct keys have distinct bytes.
pub trait MapKey: Sized {
    /// The byte string that stands for this key.
    spec fn key_bytes(&self) -> Seq<u8>;

    /// The byte string that stands for this key, as a value.
    fn to_bytes(&self) -> (r: Vec<u8>)
        ensures
            r@ == self.key_bytes(),
    ;

    /// Decides whether two keys are the same key.
    fn key_eq(&self, other: &Self) -> (r: bool)
        ensures
            r == (self.key_bytes() == other.key_bytes()),
    ;
}

/// Compares two byte strings element by element.
pub fn bytes_equal(a: &[u8], b: &[u8]) -> (r: bool)
    ensures
        r == (a@ == b@),
{
    if a.len() != b.len() {
        proof {
            assert(a@.len() != b@.len());
        }
        return false;
    }
    let n = a.len();
    let mut i: usize = 0;
    while i < n
        invariant
            n == a@.len(),
            n == b@.len(),
            i <= n,
            forall|j: int| 0 <= j < i ==> a@[j] == b@[j],
        decreases n - i,
    {
        if a[i] != b[i] {
            proof {
                assert(a@[i as int] != b@[i as int]);
            }
            return false;
        }
        i = i + 1;
    }
    proof {
        assert(a@ =~= b@);
    }
    true
}

/// The eight little-endian bytes of a 64-bit word.
pub open spec fn le_bytes_u64(x: u64) -> Seq<u8> {
    seq![
        (x & 0xff) as u8,
        ((x >> 8) & 0xff) as u8,
        ((x >> 16) & 0xff) as u8,
        ((x >> 24) & 0xff) as u8,
        ((x >> 32) & 0xff) as u8,
        ((x >> 40) & 0xff) as u8,
        ((x >> 48) & 0xff) as u8,
        ((x >> 56) & 0xff) as u8,
    ]
}

/// A 64-bit word is determined by its little-endian bytes.
pub proof fn lemma_le_bytes_u64_injective(x: u64, y: u64)
    requires
        le_bytes_u64(x) == le_bytes_u64(y),
    ensures
        x == y,
{
    assert(le_bytes_u64(x)[0] == le_bytes_u64(y)[0]);
    assert(le_bytes_u64(x)[1] == le_bytes_u64(y)[1]);
    assert(le_bytes_u64(x)[2] == le_bytes_u64(y)[2]);
    assert(le_bytes_u64(x)[3] == le_bytes_u64(y)[3]);
    assert(le_bytes_u64(x)[4] == le_bytes_u64(y)[4]);
    assert(le_bytes_u64(x)[5] == le_bytes_u64(y)[5]);
    assert(le_bytes_u64(x)[6] == le_bytes_u64(y)[6]);
    assert(le_bytes_u64(x)[7] == le_bytes_u64(y)[7]);
    assert(x == y) by (bit_vector)
        requires
            (x & 0xff) as u8 == (y & 0xff) as u8,
            ((x >> 8) & 0xff) as u8 == ((y >> 8) & 0xff) as u8,
            ((x >> 16) & 0xff) as u8 == ((y >> 16) & 0xff) as u8,
            ((x >> 24) & 0xff) as u8 == ((y >> 24) & 0xff) as u8,
            ((x >> 32) & 0xff) as u8 == ((y >> 32) & 0xff) as u8,
            ((x >> 40) & 0xff) as u8 == ((y >> 40) & 0xff) as u8,
            ((x >> 48) & 0xff) as u8 == ((y >> 48) & 0xff) as u8,
            ((x >> 56) & 0xff) as u8 == ((y >> 56) & 0xff) as u8,
    ;
}

/// The eight little-endian bytes of a 64-bit word, as a value.
pub fn u64_le_bytes(x: u64) -> (r: Vec<u8>)
    ensures
        r@ == le_bytes_u64(x),
{
    let mut r: Vec<u8> = Vec::new();
    r.push((x & 0xff) as u8);
    r.push(((x >> 8) & 0xff) as u8);
    r.push(((x >> 16) & 0xff) as u8);
    r.push(((x >> 24) & 0xff) as u8);
    r.push(((x >> 32) & 0xff) as u8);
    r.push(((x >> 40) & 0xff) as u8);
    r.push(((x >> 48) & 0xff) as u8);
    r.push(((x >> 56) & 0xff) as u8);
    proof {
        assert(r@ =~= le_bytes_u64(x));
    }
    r
}

/// The four little-endian bytes of a 32-bit word.
pub open spec fn le_bytes_u32(x: u32) -> Seq<u8> {
    seq![
        (x & 0xff) as u8,
        ((x >> 8) & 0xff) as u8,
        ((x >> 16) & 0xff) as u8,
        ((x >> 24) & 0xff) as u8,
    ]
}

/// A 32-bit word is determined by its little-endian bytes.
pub proof fn lemma_le_bytes_u32_injective(x: u32, y: u32)
    requires
        le_bytes_u32(x) == le_bytes_u32(y),
    ensures
        x == y,
{
    assert(le_bytes_u32(x)[0] == le_bytes_u32(y)[0]);
    assert(le_bytes_u32(x)[1] == le_bytes_u32(y)[1]);
    assert(le_bytes_u32(x)[2] == le_bytes_u32(y)[2]);
    assert(le_bytes_u32(x)[3] == le_bytes_u32(y)[3]);
    assert(x == y) by (bit_vector)
        requires
            (x & 0xff) as u8 == (y & 0xff) as u8,
            ((x >> 8) & 0xff) as u8 == ((y >> 8) & 0xff) as u8,
            ((x >> 16) & 0xff) as u8 == ((y >> 16) & 0xff) as u8,
            ((x >> 24) & 0xff) as u8 == ((y >> 24) & 0xff) as u8,
    ;
}

/// The four little-endian bytes of a 32-bit word, as a value.
pub fn u32_le_bytes(x: u32) -> (r: Vec<u8>)
    ensures
        r@ == le_bytes_u32(x),
{
    let mut r: Vec<u8> = Vec::new();
    r.push((x & 0xff) as u8);
    r.push(((x >> 8) & 0xff) as u8);
    r.push(((x >> 16) & 0xff) as u8);
    r.push(((x >> 24) & 0xff) as u8);
    proof {
        assert(r@ =~= le_bytes_u32(x));
    }
    r
}

/// A 32-bit signed value recast on the non-negative range, keeping order of
/// bits: the two's-complement image.
pub open spec fn i32_repr(x: i32) -> u32 {
    if x >= 0 {
        x as u32
    } else {
        (x + 0x1_0000_0000) as u32
    }
}

/// Distinct 32-bit signed values have distinct images.
pub proof fn lemma_i32_repr_injective(x: i32, y: i32)
    requires
        i32_repr(x) == i32_repr(y),
    ensures
        x == y,
{
}

impl MapKey for u64 {
    open spec fn key_bytes(&self) -> Seq<u8> {
        le_bytes_u64(*self)
    }

    fn to_bytes(&self) -> (r: Vec<u8>) {
        u64_le_bytes(*self)
    }

    fn key_eq(&self, other: &Self) -> (r: bool) {
        proof {
            if le_bytes_u64(*self) == le_bytes_u64(*other) {
                lemma_le_bytes_u64_injective(*self, *other);
            }
        }
        *self == *other
    }
}

impl MapKey for usize {
    open spec fn key_bytes(&self) -> Seq<u8> {
        le_bytes_u64(*self as u64)
    }

    fn to_bytes(&self) -> (r: Vec<u8>) {
        u64_le_bytes(*self as u64)
    }

    fn key_eq(&self, other: &Self) -> (r: bool) {
        proof {
            if le_bytes_u64(*self as u64) == le_bytes_u64(*other as u64) {
                lemma_le_bytes_u64_injective(*self as u64, *other as u64);
            }
        }
        *self == *other
    }
}

impl MapKey for u32 {
    open spec fn key_bytes(&self) -> Seq<u8> {
        le_bytes_u32(*self)
    }

    fn to_bytes(&self) -> (r: Vec<u8>) {
        u32_le_bytes(*self)
    }

    fn key_eq(&self, other: &Self) -> (r: bool) {
        proof {
            if le_bytes_u32(*self) == le_bytes_u32(*other) {
                lemma_le_bytes_u32_injective(*self, *other);
            }
        }
        *self == *other
    }
}

impl MapKey for i32 {
    open spec fn key_bytes(&self) -> Seq<u8> {
        le_bytes_u32(i32_repr(*self))
    }

    fn to_bytes(&self) -> (r: Vec<u8>) {
        let repr: u32 = if *self >= 0 {
            *self as u32
        } else {
            ((*self as i64) + 0x1_0000_0000i64) as u32
        };
        proof {
            assert(repr == i32_repr(*self));
        }
        u32_le_bytes(repr)
    }

    fn key_eq(&self, other: &Self) -> (r: bool) {
        proof {
            if le_bytes_u32(i32_repr(*self)) == le_bytes_u32(i32_repr(*other)) {
                lemma_le_bytes_u32_injective(i32_repr(*self), i32_repr(*other));
                lemma_i32_repr_injective(*self, *other);
            }
        }
        *self == *other
    }
}

impl MapKey for String {
    open spec fn key_bytes(&self) -> Seq<u8> {
        vstd::utf8::encode_utf8(self@)
    }

    fn to_bytes(&self) -> (r: Vec<u8>) {
        vstd::slice::slice_to_vec(self.as_str().as_bytes())
    }

    fn key_eq(&self, other: &Self) -> (r: bool) {
        bytes_equal(self.as_str().as_bytes(), other.as_str().as_bytes())
    }
}

impl<'a> MapKey for &'a str {
    open spec fn key_bytes(&self) -> Seq<u8> {
        self.spec_bytes()
    }

    fn to_bytes(&self) -> (r: Vec<u8>) {
        vstd::slice::slice_to_vec(self.as_bytes())
    }

    fn key_eq(&self, other: &Self) -> (r: bool) {
        bytes_equal(self.as_bytes(), other.as_bytes())
    }
}

} // verus!

use vstd::prelude::*;

verus! {

/// The multiplicative string hash: seed 5381, and for each byte
/// `h = h * 33 + byte`, wrapping at the width of `usize`.
pub open spec fn djb2(bytes: Seq<u8>) -> usize
    decreases bytes.len(),
{
    if bytes.len() == 0 {
        5381
    } else {
        djb2(bytes.drop_last()).wrapping_mul(33).wrapping_add(bytes.last() as usize)
    }
}

/// A key that the table can place. Keys compare by their view, and the hash
/// depends on the view alone, so equal keys always land on the same home slot.
pub trait Hashable: View + Sized {
    spec fn spec_hash(k: Self::V) -> usize;

    fn hash(&self) -> (r: usize)
        ensures
            r == Self::spec_hash(self@),
    ;

    fn same_key(&self, other: &Self) -> (r: bool)
        ensures
            r == (self@ == other@),
    ;
}

impl Hashable for String {
    open spec fn spec_hash(k: Seq<char>) -> usize {
        djb2(vstd::utf8::encode_utf8(k))
    }

    fn hash(&self) -> (r: usize) {
        let bytes = self.as_str().as_bytes();
        let mut result: usize = 5381;
        let mut i: usize = 0;
        while i < bytes.len()
            invariant
                i <= bytes@.len(),
                bytes@ == vstd::utf8::encode_utf8(self@),
                result == djb2(bytes@.subrange(0, i as int)),
            decreases bytes@.len() - i,
        {
            assert(bytes@.subrange(0, i + 1).drop_last() == bytes@.subrange(0, i as int));
            result = result.wrapping_mul(33).wrapping_add(bytes[i] as usize);
            i += 1;
        }
        assert(bytes@.subrange(0, bytes@.len() as int) == bytes@);
        result
    }

    fn same_key(&self, other: &String) -> (r: bool) {
        (*self).eq(other)
    }
}

impl Hashable for usize {
    open spec fn spec_hash(k: usize) -> usize {
        k
    }

    fn hash(&self) -> (r: usize) {
        *self
    }

    fn same_key(&self, other: &usize) -> (r: bool) {
        *self == *other
    }
}

} // verus!

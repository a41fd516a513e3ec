//! Small operations on byte slices.
use vstd::prelude::*;

verus! {

/// Whether two byte slices hold the same bytes.
pub fn same_bytes(a: &[u8], b: &[u8]) -> (r: bool)
    ensures
        r == (a@ == b@),
{
    if a.len() != b.len() {
        return false;
    }
    let mut i: usize = 0;
    while i < a.len()
        invariant
            i <= a.len(),
            a.len() == b.len(),
            forall|j: int| 0 <= j < i ==> a@[j] == b@[j],
        decreases a.len() - i,
    {
        if a[i] != b[i] {
            return false;
        }
        i += 1;
    }
    assert(a@ =~= b@);
    true
}

/// Whether `needle` stands in `data` at position `at`.
pub open spec fn stands_at(data: Seq<u8>, at: int, needle: Seq<u8>) -> bool {
    &&& 0 <= at
    &&& at + needle.len() <= data.len()
    &&& data.subrange(at, at + needle.len()) == needle
}

/// Whether `needle` stands in `data` at position `at`.
pub fn matches_at(data: &[u8], at: usize, needle: &[u8]) -> (r: bool)
    ensures
        r == stands_at(data@, at as int, needle@),
{
    if at > data.len() || data.len() - at < needle.len() {
        return false;
    }
    same_bytes(vstd::slice::slice_subrange(data, at, at + needle.len()), needle)
}

/// Whether `b` is an ASCII digit.
pub open spec fn is_digit(b: u8) -> bool {
    0x30 <= b <= 0x39
}

} // verus!

//! Byte-level helpers shared by the codec, the store and the dispatcher:
//! byte-slice equality and the bytes of ASCII text.

use crate::resp::push_bytes;
use vstd::prelude::*;

verus! {

/// The bytes of an ASCII character sequence, character by character.
pub open spec fn ascii_bytes(s: Seq<char>) -> Seq<u8> {
    Seq::new(s.len(), |i: int| s[i] as u8)
}

/// Whether two byte slices hold the same bytes.
pub fn bytes_eq(a: &[u8], b: &[u8]) -> (r: bool)
    ensures
        r == (a@ == b@),
{
    if a.len() != b.len() {
        return false;
    }
    let mut i: usize = 0;
    while i < a.len()
        invariant
            i <= a.len(),
            a@.len() == b@.len(),
            forall|j: int| 0 <= j < i ==> a@[j] == b@[j],
        decreases a.len() - i,
    {
        if a[i] != b[i] {
            return false;
        }
        i = i + 1;
    }
    proof {
        assert(a@ =~= b@);
    }
    true
}

/// Whether `b` holds exactly the bytes of the ASCII string `s`.
pub fn ascii_eq(b: &[u8], s: &str) -> (r: bool)
    requires
        vstd::string::is_ascii(s),
    ensures
        r == (b@ == ascii_bytes(s@)),
{
    let sb = s.as_bytes();
    proof {
        vstd::string::is_ascii_spec_bytes(s);
        assert(sb@ =~= ascii_bytes(s@));
    }
    bytes_eq(b, sb)
}

/// Appends the bytes of the ASCII string `s` to `out`.
pub fn push_ascii(out: &mut Vec<u8>, s: &str)
    requires
        vstd::string::is_ascii(s),
    ensures
        final(out)@ == old(out)@ + ascii_bytes(s@),
{
    let sb = s.as_bytes();
    proof {
        vstd::string::is_ascii_spec_bytes(s);
        assert(sb@ =~= ascii_bytes(s@));
    }
    push_bytes(out, sb);
}

} // verus!

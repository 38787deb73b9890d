use vstd::prelude::*;

verus! {

/// Every byte lies in the ASCII range. This is the validity demanded of
/// every fixed-width text field in the container.
pub open spec fn ascii_ok(s: Seq<u8>) -> bool {
    forall|i: int| 0 <= i < s.len() ==> s[i] < 0x80
}

/// A fixed eight-byte padded identifier: a lump or texture name. Embedded
/// NUL padding bytes are significant and take part in equality; names are
/// never trimmed or normalized.
#[derive(Clone, Copy, Debug)]
pub struct Name8 {
    pub bytes: [u8; 8],
}

impl View for Name8 {
    type V = Seq<u8>;

    open spec fn view(&self) -> Seq<u8> {
        self.bytes@
    }
}

impl Name8 {
    /// Wrap eight raw bytes as a name.
    pub fn new(bytes: [u8; 8]) -> (r: Name8)
        ensures
            r@ == bytes@,
    {
        Name8 { bytes }
    }

    /// Exact equality of all eight bytes, padding included.
    pub fn matches(&self, other: &Name8) -> (r: bool)
        ensures
            r == (self@ == other@),
    {
        let mut i: usize = 0;
        while i < 8
            invariant
                i <= 8,
                forall|j: int| 0 <= j < i ==> self.bytes@[j] == other.bytes@[j],
            decreases 8 - i,
        {
            if self.bytes[i] != other.bytes[i] {
                assert(self@[i as int] != other@[i as int]);
                return false;
            }
            i += 1;
        }
        proof {
            assert(self@ =~= other@);
        }
        true
    }
}

} // verus!

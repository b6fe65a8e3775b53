use vstd::prelude::*;

use crate::order::TotalOrder;

verus! {

/// Lexicographic order on byte sequences: a proper prefix comes first,
/// and otherwise the first differing byte decides.
pub open spec fn lex_le(a: Seq<u8>, b: Seq<u8>) -> bool
    decreases a.len(),
{
    if a.len() == 0 {
        true
    } else if b.len() == 0 {
        false
    } else if a[0] < b[0] {
        true
    } else if b[0] < a[0] {
        false
    } else {
        lex_le(a.drop_first(), b.drop_first())
    }
}

/// Any two byte sequences are lexicographically comparable.
pub proof fn lemma_lex_total(a: Seq<u8>, b: Seq<u8>)
    ensures
        lex_le(a, b) || lex_le(b, a),
    decreases a.len(),
{
    if a.len() > 0 && b.len() > 0 && a[0] == b[0] {
        lemma_lex_total(a.drop_first(), b.drop_first());
    }
}

/// Lexicographic order is transitive.
pub proof fn lemma_lex_transitive(a: Seq<u8>, b: Seq<u8>, c: Seq<u8>)
    requires
        lex_le(a, b),
        lex_le(b, c),
    ensures
        lex_le(a, c),
    decreases a.len(),
{
    if a.len() > 0 && b.len() > 0 && c.len() > 0 && a[0] == b[0] && b[0] == c[0] {
        lemma_lex_transitive(a.drop_first(), b.drop_first(), c.drop_first());
    }
}

/// An owned byte string: the element type behind the text sorting mode,
/// ordered byte-wise (which for UTF-8 text agrees with code-point order).
pub struct ByteString {
    pub bytes: Vec<u8>,
}

impl View for ByteString {
    type V = Seq<u8>;

    open spec fn view(&self) -> Seq<u8> {
        self.bytes@
    }
}

impl ByteString {
    /// Wrap owned bytes.
    pub fn from_bytes(bytes: Vec<u8>) -> (r: ByteString)
        ensures
            r@ == bytes@,
    {
        ByteString { bytes }
    }

    /// Executable strict lexicographic comparison.
    pub fn lex_gt(&self, other: &ByteString) -> (r: bool)
        ensures
            r == !lex_le(self@, other@),
    {
        let a = &self.bytes;
        let b = &other.bytes;
        let mut i: usize = 0;
        proof {
            assert(a@.skip(0) =~= a@);
            assert(b@.skip(0) =~= b@);
        }
        while i < a.len() && i < b.len()
            invariant
                i <= a@.len(),
                i <= b@.len(),
                lex_le(self@, other@) == lex_le(a@.skip(i as int), b@.skip(i as int)),
            decreases a@.len() - i,
        {
            proof {
                assert(a@.skip(i as int)[0] == a@[i as int]);
                assert(b@.skip(i as int)[0] == b@[i as int]);
                assert(a@.skip(i as int).drop_first() =~= a@.skip(i as int + 1));
                assert(b@.skip(i as int).drop_first() =~= b@.skip(i as int + 1));
            }
            let x: u8 = a[i];
            let y: u8 = b[i];
            if x < y {
                return false;
            }
            if y < x {
                return true;
            }
            i += 1;
        }
        proof {
            if i == a.len() {
                assert(a@.skip(i as int).len() == 0);
            } else {
                assert(b@.skip(i as int).len() == 0);
                assert(a@.skip(i as int).len() > 0);
            }
        }
        a.len() > b.len()
    }
}

impl<'a> TotalOrder for &'a ByteString {
    open spec fn le(self, other: Self) -> bool {
        lex_le(self@, other@)
    }

    proof fn lemma_le_total(a: Self, b: Self) {
        lemma_lex_total(a@, b@);
    }

    proof fn lemma_le_transitive(a: Self, b: Self, c: Self) {
        lemma_lex_transitive(a@, b@, c@);
    }

    fn gt(&self, other: &Self) -> (r: bool) {
        (*self).lex_gt(*other)
    }

    fn copy_val(&self) -> (r: Self) {
        *self
    }
}

} // verus!

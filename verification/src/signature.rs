//! Query signatures: the cache key.

use vstd::prelude::*;

verus! {

/// The mathematical content of a query signature: the query text as a
/// sequence of bytes together with the ordered declared parameter types as a
/// sequence of backend type identifiers.
#[verifier::ext_equal]
pub ghost struct SigKey {
    pub text: Seq<u8>,
    pub types: Seq<u32>,
}

/// A cache key: the query text paired with the ordered list of declared
/// parameter types (each given by its backend type identifier; the list is
/// empty when the types are left to be inferred). Equality is structural:
/// two signatures are the same key exactly when both the text and the type
/// list agree.
pub struct Signature {
    /// The query text, as bytes.
    pub text: Vec<u8>,
    /// The declared parameter types, by backend type identifier.
    pub types: Vec<u32>,
}

impl View for Signature {
    type V = SigKey;

    open spec fn view(&self) -> SigKey {
        SigKey { text: self.text@, types: self.types@ }
    }
}

impl Signature {
    /// Builds the signature for `text` with declared parameter types `types`.
    pub fn new(text: Vec<u8>, types: Vec<u32>) -> (s: Signature)
        ensures
            s@ == (SigKey { text: text@, types: types@ }),
    {
        Signature { text, types }
    }

    /// Structural equality of signatures: same text and same type list.
    pub fn same_key(&self, other: &Signature) -> (r: bool)
        ensures
            r <==> self@ == other@,
    {
        let text_eq: bool = self.text == other.text;
        let types_eq: bool = self.types == other.types;
        proof {
            if text_eq {
                assert(self.text@ =~= other.text@);
            }
            if types_eq {
                assert(self.types@ =~= other.types@);
            }
            if self@ == other@ {
                assert(self.text@ == other.text@);
                assert(self.types@ == other.types@);
            }
        }
        text_eq && types_eq
    }

    /// An owned copy carrying the same key.
    pub fn duplicate(&self) -> (r: Signature)
        ensures
            r@ == self@,
    {
        let text = self.text.clone();
        let types = self.types.clone();
        proof {
            assert(text@ =~= self.text@);
            assert(types@ =~= self.types@);
        }
        Signature { text, types }
    }
}

} // verus!

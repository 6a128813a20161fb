use vstd::prelude::*;
use vstd::utf8::encode_utf8;

verus! {

/// Whether a string parses as a single identifier token that is not a
/// keyword. The parser drops whitespace and comments around the token and
/// accepts raw identifiers (`r#name`), so this alone does not make a name.
pub uninterp spec fn is_ident_of(s: Seq<char>) -> bool;

/// Relies on `syn::parse_str::<syn::Ident>`: it succeeds when the string,
/// once split into tokens (whitespace and comments dropped), is one
/// identifier token that is not a keyword; this depends on the string alone.
#[verifier::external_body]
pub(crate) fn is_ident(s: &str) -> (r: bool)
    ensures
        r == is_ident_of(s@),
{
    syn::parse_str::<syn::Ident>(s).is_ok()
}

/// A byte that may stand in a plain identifier: an ASCII letter or `_`,
/// or, after the first position, an ASCII digit.
pub open spec fn ident_byte(b: u8, first: bool) -> bool {
    (0x41 <= b <= 0x5a) || (0x61 <= b <= 0x7a) || b == 0x5f || (!first && 0x30 <= b <= 0x39)
}

/// A non-empty run of ASCII letters, digits and `_` that does not start
/// with a digit.
pub open spec fn plain_ident_bytes(b: Seq<u8>) -> bool {
    &&& b.len() > 0
    &&& forall|i: int| 0 <= i < b.len() ==> ident_byte(#[trigger] b[i], i == 0)
}

/// A name that can be given to a type: exactly one plain ASCII identifier,
/// with nothing around it, and not a keyword.
pub open spec fn is_type_name(s: Seq<char>) -> bool {
    plain_ident_bytes(encode_utf8(s)) && is_ident_of(s)
}

/// Whether `s` is a name that can be given to a type.
pub fn type_name_valid(s: &str) -> (r: bool)
    ensures
        r == is_type_name(s@),
{
    let b = s.as_bytes();
    if b.len() == 0 {
        return false;
    }
    let mut i: usize = 0;
    while i < b.len()
        invariant
            i <= b@.len(),
            b@ == encode_utf8(s@),
            forall|j: int| 0 <= j < i ==> ident_byte(#[trigger] b@[j], j == 0),
        decreases b@.len() - i,
    {
        let c = b[i];
        let ok = (0x41 <= c && c <= 0x5a) || (0x61 <= c && c <= 0x7a) || c == 0x5f || (i > 0 && 0x30
            <= c && c <= 0x39);
        if !ok {
            assert(!ident_byte(b@[i as int], i == 0));
            return false;
        }
        i = i + 1;
    }
    is_ident(s)
}

} // verus!

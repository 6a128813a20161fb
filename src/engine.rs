//! The regular-expression engine: compiling a pattern string, listing its
//! groups, and one leftmost-first search from a given byte offset.
use vstd::prelude::*;
use vstd::utf8::is_char_boundary;

verus! {

#[verifier::external_type_specification]
#[verifier::external_body]
pub struct ExRegex(regex::Regex);

#[verifier::external_type_specification]
#[verifier::external_body]
pub struct ExRegexError(regex::Error);

/// Whether a pattern string is accepted by the engine.
pub uninterp spec fn compiles(source: Seq<char>) -> bool;

/// The name of each capture group of a pattern, by group index.
pub uninterp spec fn capture_names_of(source: Seq<char>) -> Seq<Option<Seq<char>>>;

/// The byte span of each capture group in the leftmost-first match of a
/// pattern in `text` that starts at or after byte offset `start`.
pub uninterp spec fn captures_at_of(source: Seq<char>, text: Seq<char>, start: int) -> Option<
    Seq<Option<(usize, usize)>>,
>;

/// Length of the UTF-8 encoding of a text.
pub open spec fn byte_len(text: Seq<char>) -> nat {
    vstd::utf8::encode_utf8(text).len()
}

/// Views the engine's group names as character sequences.
pub open spec fn names_view(names: Seq<Option<String>>) -> Seq<Option<Seq<char>>> {
    names.map_values(
        |n: Option<String>|
            match n {
                Some(s) => Some(s@),
                None => None,
            },
    )
}

/// What a successful search reports of its spans: one per group, the whole
/// match present and at or after `start`, every span ordered, inside the
/// whole match and on character boundaries.
pub open spec fn spans_well_formed(
    spans: Seq<Option<(usize, usize)>>,
    text: Seq<char>,
    start: int,
    n_groups: nat,
) -> bool {
    &&& spans.len() == n_groups
    &&& spans.len() >= 1
    &&& spans[0] is Some
    &&& start <= spans[0]->Some_0.0
    &&& forall|i: int|
        0 <= i < spans.len() && (#[trigger] spans[i]) is Some ==> {
            let sp = spans[i]->Some_0;
            &&& sp.0 <= sp.1 <= byte_len(text)
            &&& spans[0]->Some_0.0 <= sp.0
            &&& sp.1 <= spans[0]->Some_0.1
            &&& is_char_boundary(vstd::utf8::encode_utf8(text), sp.0 as int)
            &&& is_char_boundary(vstd::utf8::encode_utf8(text), sp.1 as int)
        }
}

/// A compiled pattern together with the string it was compiled from.
/// Only `compile_regex` builds one, so `re` is always the compilation of
/// `source`.
pub struct CompiledRegex {
    source: String,
    re: regex::Regex,
}

impl CompiledRegex {
    pub closed spec fn source(&self) -> Seq<char> {
        self.source@
    }

    /// The string this pattern was compiled from.
    pub fn as_str(&self) -> (r: &str)
        ensures
            r@ == self.source(),
    {
        self.source.as_str()
    }
}

/// Relies on `regex::Regex::new`: it succeeds exactly on the pattern strings
/// the engine accepts, which depends on the string alone.
#[verifier::external_body]
pub(crate) fn compile_regex(source: String) -> (r: Result<CompiledRegex, regex::Error>)
    ensures
        r is Ok <==> compiles(source@),
        r is Ok ==> r->Ok_0.source() == source@,
{
    match regex::Regex::new(&source) {
        Ok(re) => Ok(CompiledRegex { source, re }),
        Err(e) => Err(e),
    }
}

impl CompiledRegex {
    /// Relies on `regex::Regex::capture_names`: one entry per capture group
    /// in the order of their opening parentheses; the first one is the
    /// overall match and is always unnamed.
    #[verifier::external_body]
    pub(crate) fn capture_names(&self) -> (r: Vec<Option<String>>)
        ensures
            names_view(r@) == capture_names_of(self.source()),
            r@.len() >= 1,
            r@[0] is None,
    {
        self.re.capture_names().map(|n| n.map(|s| s.to_string())).collect()
    }

    /// Relies on `regex::Regex::capture_locations` and
    /// `regex::Regex::captures_read_at`: the leftmost-first match starting at
    /// or after `start` (the whole text is context), with the span of each
    /// group by index. The search panics when `start` exceeds the length.
    /// Being leftmost-first, a search from an earlier offset whose match
    /// starts at or after `start` found this same match.
    #[verifier::external_body]
    pub(crate) fn captures_at(&self, text: &str, start: usize) -> (r: Option<
        Vec<Option<(usize, usize)>>,
    >)
        requires
            start <= byte_len(text@),
        ensures
            r is Some <==> captures_at_of(self.source(), text@, start as int) is Some,
            r is Some ==> Some(r->Some_0@) == captures_at_of(self.source(), text@, start as int),
            r is Some ==> spans_well_formed(
                r->Some_0@,
                text@,
                start as int,
                capture_names_of(self.source()).len(),
            ),
            forall|p: int|
                0 <= p <= start && #[trigger] captures_at_of(self.source(), text@, p) is Some
                    && captures_at_of(self.source(), text@, p)->Some_0[0]->Some_0.0 >= start ==> r
                    is Some && Some(r->Some_0@) == captures_at_of(self.source(), text@, p),
    {
        let mut locs = self.re.capture_locations();
        self.re.captures_read_at(&mut locs, text, start)?;
        Some((0..locs.len()).map(|i| locs.get(i)).collect())
    }
}

/// The part of `text` between two byte offsets on character boundaries.
pub fn slice(text: &str, start: usize, end: usize) -> (r: &str)
    requires
        start <= end <= byte_len(text@),
        is_char_boundary(vstd::utf8::encode_utf8(text@), start as int),
        is_char_boundary(vstd::utf8::encode_utf8(text@), end as int),
    ensures
        vstd::utf8::encode_utf8(r@) == vstd::utf8::encode_utf8(text@).subrange(
            start as int,
            end as int,
        ),
{
    proof {
        let b = vstd::utf8::encode_utf8(text@);
        vstd::utf8::encode_utf8_valid_utf8(text@);
        vstd::utf8::valid_utf8_split(b, end as int);
        let h = b.subrange(0, end as int);
        if start < end {
            vstd::utf8::is_char_boundary_iff_not_is_continuation_byte(b, start as int);
            vstd::utf8::is_char_boundary_iff_not_is_continuation_byte(h, start as int);
        } else {
            vstd::utf8::is_char_boundary_start_end_of_seq(h);
        }
    }
    let (head, _) = text.split_at(end);
    let (_, piece) = head.split_at(start);
    assert(vstd::utf8::encode_utf8(piece@) =~= vstd::utf8::encode_utf8(text@).subrange(start as int, end as int));
    piece
}

} // verus!

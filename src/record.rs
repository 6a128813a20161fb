//! Records: what one match of a pattern yields.
use vstd::prelude::*;
use vstd::utf8::{decode_utf8, encode_utf8, is_char_boundary};
use crate::engine::{byte_len, slice};

verus! {

/// One named group's capture: its byte span in the searched text and the
/// text it covers.
pub struct SubMatch {
    pub start_pos: usize,
    pub end_pos: usize,
    pub val: String,
}

/// One field of a record: a named group and its capture, absent when the
/// group took no part in the match.
pub struct Field {
    pub name: String,
    pub value: Option<SubMatch>,
}

/// One match of a pattern: the whole match's span and text, and one field
/// per named group of the pattern, in declaration order.
pub struct Record {
    pub start_pos: usize,
    pub end_pos: usize,
    pub val: String,
    pub fields: Vec<Field>,
}

pub struct SubMatchView {
    pub start_pos: nat,
    pub end_pos: nat,
    pub val: Seq<char>,
}

pub struct FieldView {
    pub name: Seq<char>,
    pub value: Option<SubMatchView>,
}

pub struct RecordView {
    pub start_pos: nat,
    pub end_pos: nat,
    pub val: Seq<char>,
    pub fields: Seq<FieldView>,
}

impl View for SubMatch {
    type V = SubMatchView;

    open spec fn view(&self) -> SubMatchView {
        SubMatchView { start_pos: self.start_pos as nat, end_pos: self.end_pos as nat, val: self.val@ }
    }
}

impl View for Field {
    type V = FieldView;

    open spec fn view(&self) -> FieldView {
        FieldView {
            name: self.name@,
            value: match self.value {
                Some(m) => Some(m@),
                None => None,
            },
        }
    }
}

impl View for Record {
    type V = RecordView;

    open spec fn view(&self) -> RecordView {
        RecordView {
            start_pos: self.start_pos as nat,
            end_pos: self.end_pos as nat,
            val: self.val@,
            fields: self.fields@.map_values(|f: Field| f@),
        }
    }
}

/// The characters that the byte range `[start, end)` of `text` encodes.
pub open spec fn span_text(text: Seq<char>, start: int, end: int) -> Seq<char> {
    decode_utf8(encode_utf8(text).subrange(start, end))
}

/// The capture of one span of `text`.
pub open spec fn sub_match_of(text: Seq<char>, span: (usize, usize)) -> SubMatchView {
    SubMatchView {
        start_pos: span.0 as nat,
        end_pos: span.1 as nat,
        val: span_text(text, span.0 as int, span.1 as int),
    }
}

/// The field for a named group `(index, name)` given the spans of a match.
pub open spec fn field_of(
    text: Seq<char>,
    spans: Seq<Option<(usize, usize)>>,
    group: (nat, Seq<char>),
) -> FieldView {
    FieldView {
        name: group.1,
        value: match spans[group.0 as int] {
            Some(sp) => Some(sub_match_of(text, sp)),
            None => None,
        },
    }
}

/// The record of a match: the whole match is the span of group 0, and each
/// named group of `groups` gives one field.
pub open spec fn record_of(
    groups: Seq<(nat, Seq<char>)>,
    text: Seq<char>,
    spans: Seq<Option<(usize, usize)>>,
) -> RecordView {
    let whole = spans[0]->Some_0;
    RecordView {
        start_pos: whole.0 as nat,
        end_pos: whole.1 as nat,
        val: span_text(text, whole.0 as int, whole.1 as int),
        fields: groups.map_values(|g: (nat, Seq<char>)| field_of(text, spans, g)),
    }
}

/// A span that lies inside `text` on character boundaries.
pub open spec fn span_in(text: Seq<char>, span: (usize, usize)) -> bool {
    &&& span.0 <= span.1 <= byte_len(text)
    &&& is_char_boundary(encode_utf8(text), span.0 as int)
    &&& is_char_boundary(encode_utf8(text), span.1 as int)
}

impl SubMatch {
    /// The capture of the byte range `span` of `text`.
    pub fn from_span(text: &str, span: (usize, usize)) -> (r: SubMatch)
        requires
            span_in(text@, span),
        ensures
            r@ == sub_match_of(text@, span),
            encode_utf8(r.val@) == encode_utf8(text@).subrange(span.0 as int, span.1 as int),
    {
        let piece = slice(text, span.0, span.1);
        let val = piece.to_owned();
        proof {
            vstd::utf8::encode_utf8_decode_utf8(piece@);
        }
        SubMatch { start_pos: span.0, end_pos: span.1, val }
    }

    /// Parses the captured text with the target type's textual parser;
    /// `None` when it does not parse.
    pub fn to<T: core::str::FromStr>(&self) -> Option<T> {
        parse_text(self.val.as_str())
    }
}

/// Relies on `str::parse`: the target type's own parser, its error dropped.
#[verifier::external_body]
fn parse_text<T: core::str::FromStr>(s: &str) -> Option<T> {
    s.parse::<T>().ok()
}

/// Every field of a record is named after the group it stands for, in the
/// order of the groups, and there are as many fields as named groups.
pub proof fn lemma_record_fields_follow_groups(
    groups: Seq<(nat, Seq<char>)>,
    text: Seq<char>,
    spans: Seq<Option<(usize, usize)>>,
)
    ensures
        record_of(groups, text, spans).fields.len() == groups.len(),
        forall|i: int|
            0 <= i < groups.len() ==> (#[trigger] record_of(groups, text, spans).fields[i]).name
                == groups[i].1,
{
}

/// The text of every capture, and of the whole match, is exactly the part
/// of the searched text between its start and end positions.
pub proof fn lemma_capture_text_is_slice(
    groups: Seq<(nat, Seq<char>)>,
    text: Seq<char>,
    spans: Seq<Option<(usize, usize)>>,
)
    ensures
        ({
            let r = record_of(groups, text, spans);
            &&& r.val == span_text(text, r.start_pos as int, r.end_pos as int)
            &&& forall|i: int|
                0 <= i < r.fields.len() && (#[trigger] r.fields[i]).value is Some ==> {
                    let m = r.fields[i].value->Some_0;
                    m.val == span_text(text, m.start_pos as int, m.end_pos as int)
                }
        }),
{
}

} // verus!

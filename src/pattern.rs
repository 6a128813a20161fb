//! Compiled patterns and the extraction operations on them.
use vstd::prelude::*;
use vstd::string::StringExecFns;
use crate::engine::{
    byte_len, capture_names_of, captures_at_of, compile_regex, compiles, names_view,
    spans_well_formed, CompiledRegex,
};
use crate::ident::{is_ident, is_ident_of};
use crate::record::{record_of, span_text, Field, Record, RecordView, SubMatch};

verus! {

/// The pattern string handed to the engine: the pattern text in extended
/// mode (insignificant whitespace, `#` comments) with line anchors.
pub open spec fn extended_source(raw: Seq<char>) -> Seq<char> {
    seq!['(', '?', 'm', 'x', ')'] + raw
}

/// The named groups among a pattern's groups, as `(group index, name)`, in
/// declaration order.
pub open spec fn named_groups(names: Seq<Option<Seq<char>>>) -> Seq<(nat, Seq<char>)>
    decreases names.len(),
{
    if names.len() == 0 {
        seq![]
    } else {
        let rest = named_groups(names.drop_last());
        match names.last() {
            Some(n) => rest.push(((names.len() - 1) as nat, n)),
            None => rest,
        }
    }
}

pub proof fn lemma_named_groups_indices(names: Seq<Option<Seq<char>>>)
    ensures
        forall|i: int|
            0 <= i < named_groups(names).len() ==> {
                let g = #[trigger] named_groups(names)[i];
                &&& g.0 < names.len()
                &&& names[g.0 as int] == Some(g.1)
            },
    decreases names.len(),
{
    if names.len() > 0 {
        lemma_named_groups_indices(names.drop_last());
    }
}

/// A named capture group: its index among all groups and its name.
pub struct NamedGroup {
    pub index: usize,
    pub name: String,
}

pub open spec fn groups_view(groups: Seq<NamedGroup>) -> Seq<(nat, Seq<char>)> {
    groups.map_values(|g: NamedGroup| (g.index as nat, g.name@))
}

/// Why a pattern could not be compiled.
#[derive(Debug)]
pub enum CompileError {
    /// The engine refused the pattern text.
    Syntax(regex::Error),
    /// A named group whose name is not an identifier.
    InvalidGroupName(String),
}

/// A pattern compiled once, with its name and named groups.
pub struct Pattern {
    name: String,
    regex: CompiledRegex,
    groups: Vec<NamedGroup>,
}

pub struct PatternView {
    pub name: Seq<char>,
    pub source: Seq<char>,
    pub groups: Seq<(nat, Seq<char>)>,
}

impl View for Pattern {
    type V = PatternView;

    closed spec fn view(&self) -> PatternView {
        PatternView {
            name: self.name@,
            source: self.regex.source(),
            groups: groups_view(self.groups@),
        }
    }
}

/// The group list of a compiled pattern string.
pub open spec fn groups_of(source: Seq<char>) -> Seq<(nat, Seq<char>)> {
    named_groups(capture_names_of(source))
}

/// Whether every named group of a pattern string has an identifier as name.
pub open spec fn group_names_valid(source: Seq<char>) -> bool {
    forall|i: int|
        0 <= i < groups_of(source).len() ==> is_ident_of(#[trigger] groups_of(source)[i].1)
}

/// Collects the named groups from the engine's list of group names.
fn collect_named_groups(names: &Vec<Option<String>>) -> (r: Vec<NamedGroup>)
    ensures
        groups_view(r@) == named_groups(names_view(names@)),
{
    let mut r: Vec<NamedGroup> = Vec::new();
    let mut i: usize = 0;
    while i < names.len()
        invariant
            i <= names@.len(),
            groups_view(r@) == named_groups(names_view(names@).subrange(0, i as int)),
        decreases names@.len() - i,
    {
        proof {
            assert(names_view(names@).subrange(0, i as int + 1).drop_last() =~= names_view(
                names@,
            ).subrange(0, i as int));
        }
        match &names[i] {
            Some(n) => {
                r.push(NamedGroup { index: i, name: n.clone() });
                assert(groups_view(r@) =~= named_groups(
                    names_view(names@).subrange(0, i as int + 1),
                ));
            },
            None => {},
        }
        i = i + 1;
    }
    assert(names_view(names@).subrange(0, names@.len() as int) =~= names_view(names@));
    r
}

impl Pattern {
    #[verifier::type_invariant]
    closed spec fn wf(&self) -> bool {
        groups_view(self.groups@) == groups_of(self.regex.source())
    }

    /// Compiles the text of a pattern named `name` in extended mode with line
    /// anchors, and takes its named groups.
    pub fn compile(name: String, raw: &str) -> (r: Result<Pattern, CompileError>)
        ensures
            r is Ok <==> compiles(extended_source(raw@)) && group_names_valid(
                extended_source(raw@),
            ),
            r is Ok ==> r->Ok_0@ == (PatternView {
                name: name@,
                source: extended_source(raw@),
                groups: groups_of(extended_source(raw@)),
            }),
            r matches Err(CompileError::Syntax(_)) <==> !compiles(extended_source(raw@)),
            r matches Err(CompileError::InvalidGroupName(n)) ==> exists|i: int|
                0 <= i < groups_of(extended_source(raw@)).len() && (#[trigger] groups_of(
                    extended_source(raw@),
                )[i]).1 == n@ && !is_ident_of(n@),
    {
        let source = "(?mx)".to_owned().concat(raw);
        proof {
            reveal_strlit("(?mx)");
        }
        assert(source@ =~= extended_source(raw@));
        let regex = match compile_regex(source) {
            Ok(re) => re,
            Err(e) => {
                return Err(CompileError::Syntax(e));
            },
        };
        let names = regex.capture_names();
        let groups = collect_named_groups(&names);
        let mut i: usize = 0;
        while i < groups.len()
            invariant
                i <= groups@.len(),
                groups_view(groups@) == groups_of(regex.source()),
                regex.source() == extended_source(raw@),
                compiles(extended_source(raw@)),
                forall|j: int| 0 <= j < i ==> is_ident_of(#[trigger] groups_of(regex.source())[j].1),
            decreases groups@.len() - i,
        {
            assert(groups_of(regex.source())[i as int].1 == groups@[i as int].name@);
            if !is_ident(groups[i].name.as_str()) {
                assert(!group_names_valid(extended_source(raw@)));
                let bad = groups[i].name.clone();
                assert(groups_of(extended_source(raw@))[i as int].1 == bad@);
                return Err(CompileError::InvalidGroupName(bad));
            }
            i = i + 1;
        }
        Ok(Pattern { name, regex, groups })
    }
}

/// The spans of a match.
pub type Spans = Seq<Option<(usize, usize)>>;

/// One step of the left-to-right scan from byte offset `pos`, where
/// `started` says that the previous match ended at `pos`. An empty match
/// right where the previous one ended is passed over by searching once more
/// one byte further. Gives the spans found and the offset searched from.
pub open spec fn scan_step(source: Seq<char>, text: Seq<char>, pos: nat, started: bool) -> Option<
    (Spans, nat),
> {
    match captures_at_of(source, text, pos as int) {
        None => None,
        Some(sp) => {
            let w = sp[0]->Some_0;
            if started && w.0 == pos && w.1 == pos {
                if pos + 1 > byte_len(text) {
                    None
                } else {
                    match captures_at_of(source, text, pos + 1int) {
                        None => None,
                        Some(sp2) => Some((sp2, (pos + 1) as nat)),
                    }
                }
            } else {
                Some((sp, pos))
            }
        },
    }
}

/// What the engine guarantees of a step: the spans are well formed with
/// the whole match at or after the offset searched from, and the scan moves
/// on: past `pos` once started, and never back to the offset of a previous
/// empty match (`prev_empty`).
pub open spec fn step_ok(
    source: Seq<char>,
    text: Seq<char>,
    pos: nat,
    started: bool,
    prev_empty: bool,
    sp: Spans,
    from: nat,
) -> bool {
    let w = sp[0]->Some_0;
    &&& spans_well_formed(sp, text, from as int, capture_names_of(source).len())
    &&& w.0 <= w.1 <= byte_len(text)
    &&& (w.1 > pos || !started)
    &&& !(prev_empty && w.0 == pos)
}

/// The spans of all matches that the scan from `pos` finds, in order;
/// `prev_empty` says that the previous match was empty.
pub open spec fn scan(
    source: Seq<char>,
    text: Seq<char>,
    pos: nat,
    started: bool,
    prev_empty: bool,
) -> Seq<Spans>
    decreases 2 * (byte_len(text) + 1 - pos) + (if started { 0int } else { 1int }),
{
    match scan_step(source, text, pos, started) {
        None => seq![],
        Some(step) => {
            let w = step.0[0]->Some_0;
            if step_ok(source, text, pos, started, prev_empty, step.0, step.1) {
                seq![step.0] + scan(source, text, w.1 as nat, true, w.0 == w.1)
            } else {
                seq![]
            }
        },
    }
}

/// The records of all matches of a pattern in `text`, left to right.
pub open spec fn all_records(p: PatternView, text: Seq<char>) -> Seq<RecordView> {
    scan(p.source, text, 0, false, false).map_values(|sp: Spans| record_of(p.groups, text, sp))
}

/// The record of the leftmost match of a pattern in `text`.
pub open spec fn first_record(p: PatternView, text: Seq<char>) -> Option<RecordView> {
    match captures_at_of(p.source, text, 0) {
        None => None,
        Some(sp) => Some(record_of(p.groups, text, sp)),
    }
}

impl Pattern {
    /// The pattern's name.
    pub fn name(&self) -> (r: &str)
        ensures
            r@ == self@.name,
    {
        self.name.as_str()
    }

    /// Whether the pattern is called `name`.
    pub fn has_name(&self, name: &String) -> (r: bool)
        ensures
            r == (self@.name == name@),
    {
        self.name == *name
    }

    /// The pattern string handed to the engine.
    pub fn source(&self) -> (r: &str)
        ensures
            r@ == self@.source,
    {
        self.regex.as_str()
    }

    /// The named groups, in declaration order.
    pub fn groups(&self) -> (r: &Vec<NamedGroup>)
        ensures
            groups_view(r@) == self@.groups,
            self@.groups == groups_of(self@.source),
    {
        proof {
            use_type_invariant(self);
        }
        &self.groups
    }

    /// Builds the record of a match from the spans the engine reported for
    /// it, one per group of the pattern.
    pub fn record_from_spans(&self, text: &str, spans: &Vec<Option<(usize, usize)>>) -> (r: Record)
        requires
            spans_well_formed(spans@, text@, 0, capture_names_of(self@.source).len()),
        ensures
            r@ == record_of(self@.groups, text@, spans@),
    {
        proof {
            use_type_invariant(self);
            lemma_named_groups_indices(capture_names_of(self@.source));
        }
        let whole = spans[0].unwrap();
        let top = SubMatch::from_span(text, whole);
        let mut fields: Vec<Field> = Vec::new();
        let mut i: usize = 0;
        while i < self.groups.len()
            invariant
                i <= self.groups@.len(),
                groups_view(self.groups@) == groups_of(self@.source),
                spans_well_formed(spans@, text@, 0, capture_names_of(self@.source).len()),
                forall|j: int|
                    0 <= j < groups_of(self@.source).len() ==> (#[trigger] groups_of(
                        self@.source,
                    )[j]).0 < capture_names_of(self@.source).len(),
                fields@.len() == i,
                forall|j: int|
                    0 <= j < i ==> (#[trigger] fields@[j])@ == crate::record::field_of(
                        text@,
                        spans@,
                        self@.groups[j],
                    ),
            decreases self.groups@.len() - i,
        {
            let g = &self.groups[i];
            assert(self@.groups[i as int] == (g.index as nat, g.name@));
            let value = match spans[g.index] {
                Some(sp) => {
                    assert(spans@[g.index as int] is Some);
                    Some(SubMatch::from_span(text, sp))
                },
                None => None,
            };
            fields.push(Field { name: g.name.clone(), value });
            i = i + 1;
        }
        let r = Record { start_pos: whole.0, end_pos: whole.1, val: top.val, fields };
        assert(r@.fields =~= record_of(self@.groups, text@, spans@).fields);
        r
    }

    /// The raw spans of the leftmost match in `text`, one per group by index
    /// (group 0 is the whole match), without building a record.
    pub fn captures(&self, text: &str) -> (r: Option<Vec<Option<(usize, usize)>>>)
        ensures
            r is Some <==> captures_at_of(self@.source, text@, 0) is Some,
            r matches Some(v) ==> Some(v@) == captures_at_of(self@.source, text@, 0)
                && spans_well_formed(v@, text@, 0, capture_names_of(self@.source).len()),
            r matches Some(v) ==> first_record(self@, text@) == Some(record_of(self@.groups, text@, v@)),
    {
        self.regex.captures_at(text, 0)
    }

    /// The record of the leftmost match in `text`, or `None` when there is
    /// none. It is the first record of the scan of `text`.
    pub fn match_first(&self, text: &str) -> (r: Option<Record>)
        ensures
            r matches Some(rec) ==> first_record(self@, text@) == Some(rec@),
            r is None ==> first_record(self@, text@) is None,
            r is None <==> all_records(self@, text@).len() == 0,
            r matches Some(rec) ==> all_records(self@, text@)[0] == rec@,
    {
        let found = self.regex.captures_at(text, 0);
        match found {
            None => None,
            Some(spans) => {
                let rec = self.record_from_spans(text, &spans);
                assert(step_ok(self@.source, text@, 0, false, false, spans@, 0));
                Some(rec)
            },
        }
    }

    /// Replaces the buffer's contents with `contents`, then scans it. The
    /// scan borrows the buffer, so records of an earlier scan of the same
    /// buffer cannot be read once this is called.
    pub fn match_all_in_buffer<'t>(&'t self, buf: &'t mut String, contents: &str) -> (r: Matches<'t>)
        ensures
            final(buf)@ == contents@,
            r.inv(),
            r.remaining() == all_records(self@, contents@),
            r.text_len() == byte_len(contents@),
    {
        *buf = contents.to_owned();
        let text: &'t String = buf;
        self.match_all(text.as_str())
    }

    /// Replaces the buffer's contents with `contents`, then gives the raw
    /// spans of the leftmost match in it.
    pub fn captures_in_buffer(&self, buf: &mut String, contents: &str) -> (r: Option<
        Vec<Option<(usize, usize)>>,
    >)
        ensures
            final(buf)@ == contents@,
            r is Some <==> captures_at_of(self@.source, contents@, 0) is Some,
            r matches Some(v) ==> Some(v@) == captures_at_of(self@.source, contents@, 0),
    {
        *buf = contents.to_owned();
        self.captures(buf.as_str())
    }

    /// Replaces the buffer's contents with `contents`, then gives the record
    /// of the leftmost match in it.
    pub fn match_first_in_buffer(&self, buf: &mut String, contents: &str) -> (r: Option<Record>)
        ensures
            final(buf)@ == contents@,
            r matches Some(rec) ==> first_record(self@, contents@) == Some(rec@),
            r is None ==> first_record(self@, contents@) is None,
    {
        *buf = contents.to_owned();
        self.match_first(buf.as_str())
    }

    /// Replaces the buffer's contents with `contents`, then gives all its
    /// records, left to right.
    pub fn collect_all_in_buffer(&self, buf: &mut String, contents: &str) -> (r: Vec<Record>)
        ensures
            final(buf)@ == contents@,
            r@.map_values(|rec: Record| rec@) == all_records(self@, contents@),
    {
        *buf = contents.to_owned();
        self.collect_all(buf.as_str())
    }

    /// The lazy left-to-right scan of `text`.
    pub fn match_all<'t>(&'t self, text: &'t str) -> (r: Matches<'t>)
        ensures
            r.inv(),
            r.remaining() == all_records(self@, text@),
            r.text_len() == byte_len(text@),
    {
        Matches { pattern: self, text, pos: 0, started: false, prev_empty: false, last_from: 0, done: false }
    }

    /// All records of `text`, left to right.
    pub fn collect_all(&self, text: &str) -> (r: Vec<Record>)
        ensures
            r@.map_values(|rec: Record| rec@) == all_records(self@, text@),
    {
        let mut it = self.match_all(text);
        let mut r: Vec<Record> = Vec::new();
        loop
            invariant
                it.inv(),
                r@.map_values(|rec: Record| rec@) + it.remaining() == all_records(self@, text@),
            decreases it.remaining().len(),
        {
            let ghost before = it.remaining();
            match it.next() {
                None => {
                    assert(r@.map_values(|rec: Record| rec@) =~= all_records(self@, text@));
                    return r;
                },
                Some(rec) => {
                    let ghost prev = r@.map_values(|rec: Record| rec@);
                    r.push(rec);
                    assert(r@.map_values(|rec: Record| rec@) =~= prev.push(rec@));
                    assert(r@.map_values(|rec: Record| rec@) + it.remaining() =~= prev + before);
                },
            }
        }
    }
}

/// The scan yields at most one match per end position: no more than one
/// more than the length of the text.
pub proof fn lemma_scan_len(
    source: Seq<char>,
    text: Seq<char>,
    pos: nat,
    started: bool,
    prev_empty: bool,
)
    requires
        pos <= byte_len(text),
    ensures
        scan(source, text, pos, started, prev_empty).len() <= byte_len(text) - pos + (if started {
            0int
        } else {
            1int
        }),
    decreases 2 * (byte_len(text) + 1 - pos) + (if started { 0int } else { 1int }),
{
    match scan_step(source, text, pos, started) {
        None => {},
        Some(step) => {
            let w = step.0[0]->Some_0;
            if step_ok(source, text, pos, started, prev_empty, step.0, step.1) {
                lemma_scan_len(source, text, w.1 as nat, true, w.0 == w.1);
            }
        },
    }
}

/// Every step of a scan is well formed and moves strictly right: each match
/// starts after the previous one starts, and at or after its end.
pub proof fn lemma_scan_ordered(
    source: Seq<char>,
    text: Seq<char>,
    pos: nat,
    started: bool,
    prev_empty: bool,
)
    ensures
        forall|i: int|
            0 <= i < scan(source, text, pos, started, prev_empty).len() ==> spans_well_formed(
                #[trigger] scan(source, text, pos, started, prev_empty)[i],
                text,
                0,
                capture_names_of(source).len(),
            ),
        forall|i: int|
            0 <= i < scan(source, text, pos, started, prev_empty).len() - 1 ==> {
                let a = (#[trigger] scan(source, text, pos, started, prev_empty)[i])[0]->Some_0;
                let b = scan(source, text, pos, started, prev_empty)[i + 1][0]->Some_0;
                &&& a.1 <= b.0
                &&& a.0 < b.0
            },
    decreases 2 * (byte_len(text) + 1 - pos) + (if started { 0int } else { 1int }),
{
    match scan_step(source, text, pos, started) {
        None => {},
        Some(step) => {
            let w = step.0[0]->Some_0;
            if step_ok(source, text, pos, started, prev_empty, step.0, step.1) {
                let e = w.1 as nat;
                let pe = w.0 == w.1;
                lemma_scan_ordered(source, text, e, true, pe);
                let all = scan(source, text, pos, started, prev_empty);
                let rest = scan(source, text, e, true, pe);
                assert(all == seq![step.0] + rest);
                assert forall|i: int| 0 <= i < all.len() implies spans_well_formed(
                    #[trigger] all[i],
                    text,
                    0,
                    capture_names_of(source).len(),
                ) by {
                    if i > 0 {
                        assert(all[i] == rest[i - 1]);
                    }
                }
                assert forall|i: int| 0 <= i < all.len() - 1 implies {
                    let a = (#[trigger] all[i])[0]->Some_0;
                    let b = all[i + 1][0]->Some_0;
                    &&& a.1 <= b.0
                    &&& a.0 < b.0
                } by {
                    if i == 0 {
                        assert(all[1] == rest[0]);
                        assert(rest.len() > 0);
                        let next = scan_step(source, text, e, true);
                        assert(next is Some);
                        assert(step_ok(source, text, e, true, pe, next->Some_0.0, next->Some_0.1));
                    } else {
                        assert(all[i] == rest[i - 1]);
                        assert(all[i + 1] == rest[i]);
                    }
                }
            }
        },
    }
}

/// The matches of a pattern come out left to right without overlapping:
/// each match starts strictly after the previous one starts, and at or after
/// its end; every match lies inside the text.
pub proof fn lemma_matches_ordered(p: PatternView, text: Seq<char>)
    ensures
        forall|i: int|
            0 <= i < all_records(p, text).len() - 1 ==> {
                let a = #[trigger] all_records(p, text)[i];
                let b = all_records(p, text)[i + 1];
                &&& a.end_pos <= b.start_pos
                &&& a.start_pos < b.start_pos
            },
        forall|i: int|
            0 <= i < all_records(p, text).len() ==> {
                let a = #[trigger] all_records(p, text)[i];
                a.start_pos <= a.end_pos <= byte_len(text)
            },
{
    lemma_scan_ordered(p.source, text, 0, false, false);
    let sc = scan(p.source, text, 0, false, false);
    assert forall|i: int| 0 <= i < all_records(p, text).len() implies {
        let a = #[trigger] all_records(p, text)[i];
        &&& a.start_pos <= a.end_pos <= byte_len(text)
        &&& (i < all_records(p, text).len() - 1 ==> {
            let b = all_records(p, text)[i + 1];
            &&& a.end_pos <= b.start_pos
            &&& a.start_pos < b.start_pos
        })
    } by {
        assert(all_records(p, text)[i] == record_of(p.groups, text, sc[i]));
        assert(spans_well_formed(sc[i], text, 0, capture_names_of(p.source).len()));
        assert(sc[i][0] is Some);
        if i < all_records(p, text).len() - 1 {
            assert(all_records(p, text)[i + 1] == record_of(p.groups, text, sc[i + 1]));
        }
    }
}

/// In every record of a scan, each present capture lies inside the whole
/// match, in order, and its text is the text between its positions.
pub proof fn lemma_captures_inside_match(p: PatternView, text: Seq<char>)
    requires
        p.groups == groups_of(p.source),
    ensures
        forall|i: int, k: int|
            0 <= i < all_records(p, text).len() && 0 <= k < all_records(p, text)[i].fields.len()
                && (#[trigger] all_records(p, text)[i].fields[k]).value is Some ==> {
                let a = all_records(p, text)[i];
                let m = a.fields[k].value->Some_0;
                &&& a.start_pos <= m.start_pos <= m.end_pos <= a.end_pos
                &&& m.val == span_text(text, m.start_pos as int, m.end_pos as int)
            },
{
    lemma_scan_ordered(p.source, text, 0, false, false);
    lemma_named_groups_indices(capture_names_of(p.source));
    let sc = scan(p.source, text, 0, false, false);
    assert forall|i: int, k: int|
        0 <= i < all_records(p, text).len() && 0 <= k < all_records(p, text)[i].fields.len()
            && (#[trigger] all_records(p, text)[i].fields[k]).value is Some implies {
            let a = all_records(p, text)[i];
            let m = a.fields[k].value->Some_0;
            &&& a.start_pos <= m.start_pos <= m.end_pos <= a.end_pos
            &&& m.val == span_text(text, m.start_pos as int, m.end_pos as int)
        } by {
        let sp = sc[i];
        assert(all_records(p, text)[i] == record_of(p.groups, text, sp));
        assert(spans_well_formed(sp, text, 0, capture_names_of(p.source).len()));
        let g = p.groups[k];
        assert(g.0 < sp.len());
        assert(sp[g.0 as int] is Some);
    }
}

/// The lazy scan of a text for a pattern's matches: each call to `next`
/// searches on from where the previous match ended.
pub struct Matches<'t> {
    pattern: &'t Pattern,
    text: &'t str,
    pos: usize,
    started: bool,
    prev_empty: bool,
    last_from: usize,
    done: bool,
}

impl<'t> Matches<'t> {
    pub closed spec fn inv(&self) -> bool {
        &&& self.pos <= byte_len(self.text@)
        &&& self.prev_empty ==> {
            &&& self.started
            &&& self.last_from <= self.pos
            &&& captures_at_of(self.pattern@.source, self.text@, self.last_from as int) is Some
            &&& captures_at_of(self.pattern@.source, self.text@, self.last_from as int)->Some_0[0]
                == Some((self.pos, self.pos))
        }
    }

    /// The length in bytes of the scanned text.
    pub closed spec fn text_len(&self) -> nat {
        byte_len(self.text@)
    }

    /// The pattern being scanned for.
    pub closed spec fn pattern_view(&self) -> PatternView {
        self.pattern@
    }

    /// The text being scanned.
    pub closed spec fn text_view(&self) -> Seq<char> {
        self.text@
    }

    /// The spans of the matches that the scan has still to yield.
    pub closed spec fn remaining_spans(&self) -> Seq<Spans> {
        if self.done {
            seq![]
        } else {
            scan(self.pattern@.source, self.text@, self.pos as nat, self.started, self.prev_empty)
        }
    }

    /// The records that the scan has still to yield.
    pub open spec fn remaining(&self) -> Seq<RecordView> {
        self.remaining_spans().map_values(
            |sp: Spans| record_of(self.pattern_view().groups, self.text_view(), sp),
        )
    }

    /// The raw spans of the next match, one per group by index (group 0 is
    /// the whole match), or `None` once the scan is over.
    pub fn next_spans(&mut self) -> (r: Option<Vec<Option<(usize, usize)>>>)
        requires
            old(self).inv(),
        ensures
            final(self).inv(),
            final(self).pattern_view() == old(self).pattern_view(),
            final(self).text_view() == old(self).text_view(),
            final(self).text_len() == old(self).text_len(),
            r is None ==> old(self).remaining_spans().len() == 0 && final(self).remaining_spans().len() == 0,
            r matches Some(v) ==> old(self).remaining_spans() == seq![v@] + final(self).remaining_spans() && spans_well_formed(
                v@,
                old(self).text_view(),
                0,
                capture_names_of(old(self).pattern_view().source).len(),
            ),
    {
        if self.done {
            return None;
        }
        let ghost src = self.pattern@.source;
        let ghost txt = self.text@;
        let pos = self.pos;
        let found = self.pattern.regex.captures_at(self.text, pos);
        let spans = match found {
            None => {
                self.done = true;
                return None;
            },
            Some(sp) => sp,
        };
        let w = spans[0].unwrap();
        let (spans, from) = if self.started && w.0 == pos && w.1 == pos {
            if pos >= self.text.as_bytes().len() {
                assert(scan_step(src, txt, pos as nat, old(self).started) is None);
                assert(scan(src, txt, pos as nat, old(self).started, old(self).prev_empty) =~= seq![]);
                self.done = true;
                return None;
            }
            match self.pattern.regex.captures_at(self.text, pos + 1) {
                None => {
                    self.done = true;
                    return None;
                },
                Some(sp2) => (sp2, pos + 1),
            }
        } else {
            proof {
                if self.prev_empty && w.0 == pos {
                    let lf = self.last_from as int;
                    assert(captures_at_of(src, txt, lf)->Some_0[0]->Some_0.0 >= pos);
                    assert(Some(spans@) == captures_at_of(src, txt, lf));
                }
            }
            (spans, pos)
        };
        let ghost nw = spans@[0]->Some_0;
        assert(scan_step(src, txt, pos as nat, self.started) == Some((spans@, from as nat)));
        assert(step_ok(src, txt, pos as nat, self.started, self.prev_empty, spans@, from as nat));
        let whole = spans[0].unwrap();
        let ghost rest = scan(src, txt, whole.1 as nat, true, whole.0 == whole.1);
        assert(scan(src, txt, pos as nat, self.started, self.prev_empty) == seq![spans@] + rest);
        self.pos = whole.1;
        self.started = true;
        self.prev_empty = whole.0 == whole.1;
        self.last_from = from;
        assert(old(self).remaining_spans() =~= seq![spans@] + self.remaining_spans());
        Some(spans)
    }

    /// The next record of the scan, or `None` once it is over.
    pub fn next(&mut self) -> (r: Option<Record>)
        requires
            old(self).inv(),
        ensures
            final(self).inv(),
            final(self).text_len() == old(self).text_len(),
            r is None ==> old(self).remaining().len() == 0 && final(self).remaining().len() == 0,
            r matches Some(rec) ==> old(self).remaining() == seq![rec@] + final(self).remaining(),
    {
        match self.next_spans() {
            None => None,
            Some(spans) => {
                let rec = self.pattern.record_from_spans(self.text, &spans);
                assert(old(self).remaining() =~= seq![rec@] + self.remaining());
                Some(rec)
            },
        }
    }

    /// The number of records the scan has still to yield; the scan is used up.
    pub fn count(self) -> (n: usize)
        requires
            self.inv(),
            self.text_len() < usize::MAX,
        ensures
            n == self.remaining().len(),
    {
        proof {
            if !self.done {
                lemma_scan_len(
                    self.pattern@.source,
                    self.text@,
                    self.pos as nat,
                    self.started,
                    self.prev_empty,
                );
            }
        }
        let mut it = self;
        let mut n: usize = 0;
        loop
            invariant
                it.inv(),
                n + it.remaining().len() == self.remaining().len(),
                self.remaining().len() <= self.text_len() + 1,
                it.text_len() == self.text_len(),
                self.text_len() < usize::MAX,
            decreases it.remaining().len(),
        {
            match it.next() {
                None => {
                    return n;
                },
                Some(_) => {
                    n = n + 1;
                },
            }
        }
    }
}

} // verus!

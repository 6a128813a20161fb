//! Selecting the pattern files of a folder and naming their patterns.
use vstd::prelude::*;
use vstd::utf8::{decode_utf8, encode_utf8};
use crate::engine::slice;
use crate::ident::{is_type_name, type_name_valid};

verus! {

/// A file of the pattern folder: its name (with extension) and its text.
pub struct FileEntry {
    pub file_name: String,
    pub contents: String,
}

/// The text of one pattern and the name derived from its file.
pub struct PatternSource {
    pub name: String,
    pub raw_text: String,
}

/// The pattern name of a file name: the stem of a name that ends in `.re`
/// after at least one more byte; `None` for any other file.
pub open spec fn pattern_stem(file_name: Seq<char>) -> Option<Seq<char>> {
    let b = encode_utf8(file_name);
    let n = b.len() as int;
    if n >= 4 && b[n - 3] == 0x2e && b[n - 2] == 0x72 && b[n - 1] == 0x65 {
        Some(decode_utf8(b.subrange(0, n - 3)))
    } else {
        None
    }
}

/// The pattern files among `entries`, in order, as `(name, text)`.
pub open spec fn selected(entries: Seq<FileEntry>) -> Seq<(Seq<char>, Seq<char>)>
    decreases entries.len(),
{
    if entries.len() == 0 {
        seq![]
    } else {
        let rest = selected(entries.drop_last());
        match pattern_stem(entries.last().file_name@) {
            Some(stem) => rest.push((stem, entries.last().contents@)),
            None => rest,
        }
    }
}

/// Byte-wise lexicographic order, the order of `str`.
pub open spec fn bytes_le(a: Seq<u8>, b: Seq<u8>) -> bool
    decreases a.len(),
{
    if a.len() == 0 {
        true
    } else if b.len() == 0 {
        false
    } else if a[0] != b[0] {
        a[0] < b[0]
    } else {
        bytes_le(a.drop_first(), b.drop_first())
    }
}

/// Order of pattern names.
pub open spec fn name_le(a: Seq<char>, b: Seq<char>) -> bool {
    bytes_le(encode_utf8(a), encode_utf8(b))
}

pub open spec fn source_view(s: PatternSource) -> (Seq<char>, Seq<char>) {
    (s.name@, s.raw_text@)
}

/// Names in order: each at most the next.
pub open spec fn sorted_by_name(s: Seq<(Seq<char>, Seq<char>)>) -> bool {
    forall|i: int| 0 <= i < s.len() - 1 ==> name_le(#[trigger] s[i].0, s[i + 1].0)
}

/// Either of two byte strings is at most the other.
pub proof fn lemma_bytes_le_total(a: Seq<u8>, b: Seq<u8>)
    ensures
        bytes_le(a, b) || bytes_le(b, a),
    decreases a.len(),
{
    if a.len() > 0 && b.len() > 0 && a[0] == b[0] {
        lemma_bytes_le_total(a.drop_first(), b.drop_first());
    }
}

/// Compares two strings byte by byte.
fn str_le(a: &str, b: &str) -> (r: bool)
    ensures
        r == name_le(a@, b@),
{
    let x = a.as_bytes();
    let y = b.as_bytes();
    let mut i: usize = 0;
    assert(x@.subrange(0, x@.len() as int) =~= x@);
    assert(y@.subrange(0, y@.len() as int) =~= y@);
    while i < x.len() && i < y.len() && x[i] == y[i]
        invariant
            i <= x@.len(),
            i <= y@.len(),
            x@ == encode_utf8(a@),
            y@ == encode_utf8(b@),
            bytes_le(x@, y@) == bytes_le(x@.subrange(i as int, x@.len() as int), y@.subrange(i as int, y@.len() as int)),
        decreases x@.len() - i,
    {
        assert(x@.subrange(i as int, x@.len() as int).drop_first() =~= x@.subrange(i + 1, x@.len() as int));
        assert(y@.subrange(i as int, y@.len() as int).drop_first() =~= y@.subrange(i + 1, y@.len() as int));
        i = i + 1;
    }
    if i == x.len() {
        true
    } else if i == y.len() {
        false
    } else {
        x[i] < y[i]
    }
}

/// The pattern name of a file name, as `pattern_stem` gives it.
pub fn stem_of(file_name: &str) -> (r: Option<String>)
    ensures
        match r {
            Some(s) => pattern_stem(file_name@) == Some(s@),
            None => pattern_stem(file_name@) is None,
        },
{
    let b = file_name.as_bytes();
    let n = b.len();
    if n >= 4 && b[n - 3] == 0x2e && b[n - 2] == 0x72 && b[n - 1] == 0x65 {
        proof {
            vstd::utf8::encode_utf8_valid_utf8(file_name@);
            vstd::utf8::is_char_boundary_iff_not_is_continuation_byte(b@, n - 3);
            vstd::utf8::is_char_boundary_start_end_of_seq(b@);
        }
        let stem = slice(file_name, 0, n - 3);
        proof {
            vstd::utf8::encode_utf8_decode_utf8(stem@);
        }
        Some(stem.to_owned())
    } else {
        None
    }
}

/// Why a pattern folder could not be loaded.
#[derive(Debug)]
pub enum LoadError {
    /// A pattern file whose stem is not a type name (a plain ASCII identifier
    /// that is not a keyword).
    InvalidName(String),
}

/// Inserts a source into a list sorted by name, keeping it sorted.
fn insert_sorted(list: &mut Vec<PatternSource>, item: PatternSource)
    requires
        sorted_by_name(old(list)@.map_values(|s: PatternSource| source_view(s))),
    ensures
        sorted_by_name(final(list)@.map_values(|s: PatternSource| source_view(s))),
        final(list)@.map_values(|s: PatternSource| source_view(s)).to_multiset()
            == old(list)@.map_values(|s: PatternSource| source_view(s)).to_multiset().insert(
            source_view(item),
        ),
{
    let ghost before = list@.map_values(|s: PatternSource| source_view(s));
    let mut j: usize = 0;
    while j < list.len() && str_le(list[j].name.as_str(), item.name.as_str())
        invariant
            j <= list@.len(),
            list@.map_values(|s: PatternSource| source_view(s)) == before,
            forall|k: int| 0 <= k < j ==> name_le(#[trigger] before[k].0, item.name@),
        decreases list@.len() - j,
    {
        j = j + 1;
    }
    proof {
        if j < list@.len() {
            lemma_bytes_le_total(encode_utf8(before[j as int].0), encode_utf8(item.name@));
        }
    }
    list.insert(j, item);
    proof {
        let after = list@.map_values(|s: PatternSource| source_view(s));
        let x = source_view(item);
        assert(after =~= before.insert(j as int, x));
        assert(after.remove(j as int) =~= before);
        broadcast use vstd::seq_lib::group_to_multiset_ensures;
        assert(after.to_multiset().remove(x) =~= before.to_multiset());
        assert(after.contains(x)) by {
            assert(after[j as int] == x);
        }
        assert(after.to_multiset() =~= before.to_multiset().insert(x));
        assert forall|i: int| 0 <= i < after.len() - 1 implies name_le(#[trigger] after[i].0, after[i + 1].0) by {
            if i < j - 1 {
                assert(after[i] == before[i] && after[i + 1] == before[i + 1]);
            } else if i == j - 1 {
                assert(after[i] == before[i]);
            } else if i == j {
            } else {
                assert(after[i] == before[i - 1] && after[i + 1] == before[i]);
            }
        }
    }
}

/// Selects the pattern files among `entries` (those named `<stem>.re`),
/// checks that each stem is a type name (see `is_type_name`), and lists the
/// patterns sorted by name. A stem that is not a type name fails the load.
pub fn load_sources(entries: &Vec<FileEntry>) -> (r: Result<Vec<PatternSource>, LoadError>)
    ensures
        r is Err <==> exists|i: int|
            0 <= i < selected(entries@).len() && !is_type_name(#[trigger] selected(entries@)[i].0),
        r matches Err(LoadError::InvalidName(n)) ==> exists|i: int|
            0 <= i < selected(entries@).len() && selected(entries@)[i].0 == n@ && !is_type_name(n@),
        r matches Ok(v) ==> {
            &&& sorted_by_name(v@.map_values(|s: PatternSource| source_view(s)))
            &&& v@.map_values(|s: PatternSource| source_view(s)).to_multiset()
                == selected(entries@).to_multiset()
        },
{
    let mut out: Vec<PatternSource> = Vec::new();
    let mut i: usize = 0;
    assert(out@.map_values(|s: PatternSource| source_view(s)) =~= selected(entries@.subrange(0, 0)));
    while i < entries.len()
        invariant
            i <= entries@.len(),
            sorted_by_name(out@.map_values(|s: PatternSource| source_view(s))),
            out@.map_values(|s: PatternSource| source_view(s)).to_multiset() == selected(
                entries@.subrange(0, i as int),
            ).to_multiset(),
            forall|k: int|
                0 <= k < selected(entries@.subrange(0, i as int)).len() ==> is_type_name(
                    #[trigger] selected(entries@.subrange(0, i as int))[k].0,
                ),
        decreases entries@.len() - i,
    {
        let ghost prev = selected(entries@.subrange(0, i as int));
        assert(entries@.subrange(0, i as int + 1).drop_last() =~= entries@.subrange(0, i as int));
        let entry = &entries[i];
        match stem_of(entry.file_name.as_str()) {
            Some(stem) => {
                let ghost cur = selected(entries@.subrange(0, i as int + 1));
                assert(cur == prev.push((stem@, entry.contents@)));
                if !type_name_valid(stem.as_str()) {
                    proof {
                        lemma_selected_grows(entries@, i as int + 1);
                        assert(cur[prev.len() as int].0 == stem@);
                        assert(selected(entries@)[prev.len() as int] == cur[prev.len() as int]);
                    }
                    return Err(LoadError::InvalidName(stem));
                }
                proof {
                    broadcast use vstd::seq_lib::group_to_multiset_ensures;
                }
                insert_sorted(&mut out, PatternSource { name: stem, raw_text: entry.contents.clone() });
            },
            None => {},
        }
        i = i + 1;
    }
    assert(entries@.subrange(0, entries@.len() as int) =~= entries@);
    Ok(out)
}

/// The pattern files of a prefix of the folder are a prefix of those of the
/// whole folder.
proof fn lemma_selected_grows(entries: Seq<FileEntry>, n: int)
    requires
        0 <= n <= entries.len(),
    ensures
        selected(entries.subrange(0, n)).len() <= selected(entries).len(),
        forall|k: int|
            0 <= k < selected(entries.subrange(0, n)).len() ==> #[trigger] selected(
                entries.subrange(0, n),
            )[k] == selected(entries)[k],
    decreases entries.len() - n,
{
    if n < entries.len() {
        lemma_selected_grows(entries, n + 1);
        assert(entries.subrange(0, n + 1).drop_last() =~= entries.subrange(0, n));
        let a = selected(entries.subrange(0, n));
        let b = selected(entries.subrange(0, n + 1));
        assert(b == a || b == a.push((pattern_stem(entries[n].file_name@)->Some_0, entries[n].contents@)));
        assert forall|k: int| 0 <= k < a.len() implies #[trigger] a[k] == selected(entries)[k] by {
            assert(b[k] == a[k]);
        }
    } else {
        assert(entries.subrange(0, n) =~= entries);
    }
}

} // verus!

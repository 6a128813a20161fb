//! The table of all compiled patterns, built once and read-only after.
use vstd::prelude::*;
use crate::engine::compiles;
use crate::ident::is_type_name;
use crate::loader::{load_sources, selected, sorted_by_name, source_view, FileEntry, LoadError, PatternSource};
use crate::pattern::{extended_source, group_names_valid, groups_of, CompileError, Pattern, PatternView};

verus! {

/// Why a pattern folder could not be turned into a registry.
#[derive(Debug)]
pub enum BuildError {
    /// A pattern file whose stem is not a type name (a plain ASCII identifier
    /// that is not a keyword).
    InvalidName(String),
    /// A pattern, by name, that did not compile.
    InvalidPattern(String, CompileError),
}

/// Whether a pattern text compiles and names its groups with identifiers.
pub open spec fn accepts(raw: Seq<char>) -> bool {
    compiles(extended_source(raw)) && group_names_valid(extended_source(raw))
}

/// The compiled pattern of a `(name, text)` source.
pub open spec fn compiled_view(src: (Seq<char>, Seq<char>)) -> PatternView {
    PatternView {
        name: src.0,
        source: extended_source(src.1),
        groups: groups_of(extended_source(src.1)),
    }
}

/// All compiled patterns of a build.
pub struct Registry {
    patterns: Vec<Pattern>,
}

impl Registry {
    pub closed spec fn view(&self) -> Seq<PatternView> {
        self.patterns@.map_values(|p: Pattern| p@)
    }

    /// Compiles every source, in order. The first one that does not compile
    /// fails the whole build: no partial registry is made.
    pub fn build(sources: &Vec<PatternSource>) -> (r: Result<Registry, BuildError>)
        ensures
            r is Ok <==> forall|i: int|
                0 <= i < sources@.len() ==> accepts(#[trigger] sources@[i].raw_text@),
            r matches Ok(reg) ==> reg.view() == sources@.map_values(
                |s: PatternSource| compiled_view(source_view(s)),
            ),
            r matches Err(e) ==> e matches BuildError::InvalidPattern(n, _) && exists|i: int|
                0 <= i < sources@.len() && (#[trigger] sources@[i]).name@ == n@ && !accepts(
                    sources@[i].raw_text@,
                ),
    {
        let mut patterns: Vec<Pattern> = Vec::new();
        let mut i: usize = 0;
        assert(patterns@.map_values(|p: Pattern| p@) =~= sources@.subrange(0, 0).map_values(
            |s: PatternSource| compiled_view(source_view(s)),
        ));
        while i < sources.len()
            invariant
                i <= sources@.len(),
                patterns@.len() == i,
                patterns@.map_values(|p: Pattern| p@) == sources@.subrange(0, i as int).map_values(
                    |s: PatternSource| compiled_view(source_view(s)),
                ),
                forall|k: int| 0 <= k < i ==> accepts(#[trigger] sources@[k].raw_text@),
            decreases sources@.len() - i,
        {
            let src = &sources[i];
            match Pattern::compile(src.name.clone(), src.raw_text.as_str()) {
                Ok(p) => {
                    assert(p@ == compiled_view(source_view(sources@[i as int])));
                    let ghost before = patterns@;
                    patterns.push(p);
                    assert(patterns@ == before.push(p));
                    assert forall|k: int| 0 <= k < i implies (#[trigger] patterns@[k])@ == compiled_view(
                        source_view(sources@[k]),
                    ) by {
                        assert(patterns@[k] == before[k]);
                        assert(before.map_values(|p: Pattern| p@)[k] == sources@.subrange(0, i as int).map_values(
                            |s: PatternSource| compiled_view(source_view(s)))[k]);
                    }
                    assert(patterns@.map_values(|p: Pattern| p@) =~= sources@.subrange(
                        0,
                        i as int + 1,
                    ).map_values(|s: PatternSource| compiled_view(source_view(s))));
                },
                Err(e) => {
                    return Err(BuildError::InvalidPattern(src.name.clone(), e));
                },
            }
            i = i + 1;
        }
        assert(sources@.subrange(0, sources@.len() as int) =~= sources@);
        Ok(Registry { patterns })
    }

    /// The compiled patterns, sorted by name when built by
    /// `load_regex_files`.
    pub fn patterns(&self) -> (r: &Vec<Pattern>)
        ensures
            r@.map_values(|p: Pattern| p@) == self.view(),
    {
        &self.patterns
    }

    /// The pattern called `name`, if any.
    pub fn get(&self, name: &str) -> (r: Option<&Pattern>)
        ensures
            r is None <==> forall|i: int| 0 <= i < self.view().len() ==> (#[trigger] self.view()[i]).name != name@,
            r matches Some(p) ==> p@.name == name@ && self.view().contains(p@),
    {
        let key = name.to_owned();
        let mut i: usize = 0;
        while i < self.patterns.len()
            invariant
                i <= self.patterns@.len(),
                key@ == name@,
                forall|k: int| 0 <= k < i ==> (#[trigger] self.view()[k]).name != name@,
            decreases self.patterns@.len() - i,
        {
            if self.patterns[i].has_name(&key) {
                assert(self.view()[i as int] == self.patterns@[i as int]@);
                return Some(&self.patterns[i]);
            }
            i = i + 1;
        }
        None
    }
}

/// Loads a pattern folder: selects the files named `<stem>.re`, checks each
/// stem, sorts the patterns by name and compiles them all. Any failure fails
/// the whole load; an invalid stem is never skipped nor renamed.
pub fn load_regex_files(entries: &Vec<FileEntry>) -> (r: Result<Registry, BuildError>)
    ensures
        r matches Err(BuildError::InvalidName(_)) <==> exists|i: int|
            0 <= i < selected(entries@).len() && !is_type_name(#[trigger] selected(entries@)[i].0),
        r is Ok <==> (forall|i: int|
            0 <= i < selected(entries@).len() ==> is_type_name(#[trigger] selected(entries@)[i].0))
            && (forall|i: int|
            0 <= i < selected(entries@).len() ==> accepts(#[trigger] selected(entries@)[i].1)),
        r matches Ok(reg) ==> exists|v: Seq<(Seq<char>, Seq<char>)>|
            #![trigger v.to_multiset()]
            sorted_by_name(v) && v.to_multiset() == selected(entries@).to_multiset() && reg.view()
                == v.map_values(|s: (Seq<char>, Seq<char>)| compiled_view(s)),
{
    let sources = match load_sources(entries) {
        Ok(s) => s,
        Err(LoadError::InvalidName(n)) => {
            return Err(BuildError::InvalidName(n));
        },
    };
    let r = Registry::build(&sources);
    proof {
        broadcast use vstd::seq_lib::group_to_multiset_ensures;
        let v = sources@.map_values(|s: PatternSource| source_view(s));
        let sel = selected(entries@);
        assert forall|i: int| 0 <= i < sel.len() implies (#[trigger] sel[i]) == v[v.index_of(sel[i])] && v.contains(sel[i]) by {
            assert(sel.to_multiset().count(sel[i]) > 0);
        }
        assert((forall|i: int| 0 <= i < sel.len() ==> accepts(#[trigger] sel[i].1)) <==> (
        forall|i: int| 0 <= i < sources@.len() ==> accepts(#[trigger] sources@[i].raw_text@))) by {
            if forall|i: int| 0 <= i < sel.len() ==> accepts(#[trigger] sel[i].1) {
                assert forall|i: int| 0 <= i < sources@.len() implies accepts(#[trigger] sources@[i].raw_text@) by {
                    assert(v[i] == source_view(sources@[i]));
                    assert(v.contains(v[i]));
                    assert(v.to_multiset().count(v[i]) > 0);
                    assert(sel.contains(v[i]));
                    let j = choose|j: int| 0 <= j < sel.len() && sel[j] == v[i];
                    assert(accepts(sel[j].1));
                }
            }
        }
        if r is Ok {
            assert(r->Ok_0.view() =~= v.map_values(|s: (Seq<char>, Seq<char>)| compiled_view(s)));
        }
    }
    match r {
        Ok(reg) => Ok(reg),
        Err(e) => Err(e),
    }
}

} // verus!

//! The registry: which shared library each tool came from, the modification
//! time it was loaded at, and the decisions to load, reload or unload.

use vstd::prelude::*;

use crate::text::text_eq;

verus! {

/// A JSON value, here the schema of a tool's parameters, carried through as it is.
#[verifier::external_type_specification]
#[verifier::external_body]
pub struct ExJsonValue(serde_json::Value);

/// Relies on the derived `Clone` of `serde_json::Value`: the copy is the same value.
pub assume_specification[ <serde_json::Value as Clone>::clone ](v: &serde_json::Value) -> (r:
    serde_json::Value)
    ensures
        r == *v,
;

/// The discriminator that marks a tool spec as a callable function.
pub open spec fn function_kind() -> Seq<char> {
    "function"@
}

/// How a tool is invoked: a callable function with a name, a description and
/// a schema of its parameters.
pub struct ToolSpec {
    pub kind: String,
    pub name: String,
    pub description: String,
    pub parameters: serde_json::Value,
}

impl ToolSpec {
    /// The spec of a callable function.
    pub fn function(name: String, description: String, parameters: serde_json::Value) -> (r:
        ToolSpec)
        ensures
            r.kind@ == function_kind(),
            r.name == name,
            r.description == description,
            r.parameters == parameters,
    {
        ToolSpec { kind: "function".to_owned(), name, description, parameters }
    }

    fn duplicate(&self) -> (r: ToolSpec)
        ensures
            r == *self,
    {
        ToolSpec {
            kind: self.kind.clone(),
            name: self.name.clone(),
            description: self.description.clone(),
            parameters: self.parameters.clone(),
        }
    }
}

/// One shared library that is loaded, with the tool it made.
///
/// The tool is declared before the library, so that it is dropped first: its
/// code lives in the library.
pub struct LoadedLibrary<T, L> {
    /// The file the library was opened from.
    pub path: String,
    /// The file's modification time when it was opened; only ever compared.
    pub modified: i128,
    /// The spec of the tool, read from it when it was made.
    pub spec: ToolSpec,
    pub tool: T,
    /// The open library handle.
    pub library: L,
}

/// What a load of a file asks for, given when the file was last modified.
#[derive(Clone, Copy, Debug, PartialEq, Eq, Structural)]
pub enum LoadStep {
    /// The file is loaded at this modification time or a later one: nothing to do.
    UpToDate,
    /// The file is not loaded: open it.
    Fresh,
    /// An older version of the file was loaded and has been unloaded: open it.
    Reloaded,
}

/// Some record of `s` is for path `p`.
pub open spec fn has_path<T, L>(s: Seq<LoadedLibrary<T, L>>, p: Seq<char>) -> bool {
    exists|i: int| 0 <= i < s.len() && (#[trigger] s[i]).path@ == p
}

/// Some record of `s` holds a tool named `n`.
pub open spec fn has_name<T, L>(s: Seq<LoadedLibrary<T, L>>, n: Seq<char>) -> bool {
    exists|i: int| 0 <= i < s.len() && (#[trigger] s[i]).spec.name@ == n
}

/// No two records share a path or a tool name, and every spec is a function's.
pub open spec fn records_wf<T, L>(s: Seq<LoadedLibrary<T, L>>) -> bool {
    &&& forall|i: int, j: int|
        0 <= i < s.len() && 0 <= j < s.len() && i != j ==> (#[trigger] s[i]).path@ != (
        #[trigger] s[j]).path@ && s[i].spec.name@ != s[j].spec.name@
    &&& forall|i: int| 0 <= i < s.len() ==> (#[trigger] s[i]).spec.kind@ == function_kind()
}

/// `p` is loaded at modification time `m` or a later one.
pub open spec fn is_current<T, L>(s: Seq<LoadedLibrary<T, L>>, p: Seq<char>, m: i128) -> bool {
    exists|i: int| 0 <= i < s.len() && (#[trigger] s[i]).path@ == p && s[i].modified >= m
}

/// What a load of `p`, last modified at `m`, asks for.
pub open spec fn load_step_for<T, L>(s: Seq<LoadedLibrary<T, L>>, p: Seq<char>, m: i128) -> LoadStep {
    if is_current(s, p, m) {
        LoadStep::UpToDate
    } else if has_path(s, p) {
        LoadStep::Reloaded
    } else {
        LoadStep::Fresh
    }
}

/// `after` holds the records of `before` but the one for path `p`.
pub open spec fn unloaded<T, L>(
    before: Seq<LoadedLibrary<T, L>>,
    after: Seq<LoadedLibrary<T, L>>,
    p: Seq<char>,
) -> bool {
    forall|e: LoadedLibrary<T, L>| #[trigger]
        after.contains(e) <==> before.contains(e) && e.path@ != p
}

/// `after` holds `rec` and the records of `before` that share neither its
/// path nor its tool's name.
pub open spec fn registered<T, L>(
    before: Seq<LoadedLibrary<T, L>>,
    after: Seq<LoadedLibrary<T, L>>,
    rec: LoadedLibrary<T, L>,
) -> bool {
    forall|e: LoadedLibrary<T, L>| #[trigger]
        after.contains(e) <==> e == rec || (before.contains(e) && e.path@ != rec.path@
            && e.spec.name@ != rec.spec.name@)
}

/// Removing one record keeps the others, and no record shares its keys.
proof fn lemma_remove_record<T, L>(s: Seq<LoadedLibrary<T, L>>, i: int)
    requires
        records_wf(s),
        0 <= i < s.len(),
    ensures
        records_wf(s.remove(i)),
        forall|e: LoadedLibrary<T, L>| #[trigger]
            s.remove(i).contains(e) <==> s.contains(e) && e.path@ != s[i].path@,
        forall|e: LoadedLibrary<T, L>| #[trigger]
            s.remove(i).contains(e) <==> s.contains(e) && e.spec.name@ != s[i].spec.name@,
        !has_path(s.remove(i), s[i].path@),
        !has_name(s.remove(i), s[i].spec.name@),
{
    let r = s.remove(i);
    assert forall|k: int| 0 <= k < r.len() implies #[trigger] r[k] == s[if k < i { k } else { k + 1 }] by {}
    assert forall|e: LoadedLibrary<T, L>| #[trigger] r.contains(e) implies s.contains(e) && e.path@ != s[i].path@
        && e.spec.name@ != s[i].spec.name@ by {
        let k = choose|k: int| 0 <= k < r.len() && r[k] == e;
        let j = if k < i { k } else { k + 1 };
        assert(s[j] == e);
    }
    assert forall|e: LoadedLibrary<T, L>| s.contains(e) && e != s[i] implies #[trigger] r.contains(e) by {
        let j = choose|j: int| 0 <= j < s.len() && s[j] == e;
        let k = if j < i { j } else { j - 1 };
        assert(r[k] == e);
    }
    assert forall|e: LoadedLibrary<T, L>| s.contains(e) && e.path@ != s[i].path@ implies e != s[i] by {}
    assert forall|e: LoadedLibrary<T, L>| s.contains(e) && e.spec.name@ != s[i].spec.name@ implies e != s[i] by {}
    assert forall|e: LoadedLibrary<T, L>| s.contains(e) && e != s[i] implies e.path@ != s[i].path@
        && e.spec.name@ != s[i].spec.name@ by {
        let j = choose|j: int| 0 <= j < s.len() && s[j] == e;
        assert(j != i);
    }
    assert forall|k: int| 0 <= k < r.len() implies (#[trigger] r[k]).path@ != s[i].path@ && r[k].spec.name@
        != s[i].spec.name@ by {
        assert(r.contains(r[k]));
    }
}

/// Shared libraries that are loaded, each with the tool it made, keyed both by
/// path and by tool name.
pub struct ToolRegistry<T, L> {
    libraries: Vec<LoadedLibrary<T, L>>,
}

impl<T, L> ToolRegistry<T, L> {
    /// The loaded libraries with their tools.
    pub closed spec fn records(&self) -> Seq<LoadedLibrary<T, L>> {
        self.libraries@
    }

    /// No two loaded libraries share a path or a tool name.
    pub open spec fn wf(&self) -> bool {
        records_wf(self.records())
    }

    /// An empty registry.
    pub fn new() -> (r: Self)
        ensures
            r.wf(),
            r.records().len() == 0,
    {
        ToolRegistry { libraries: Vec::new() }
    }

    fn find_path(&self, path: &str) -> (r: Option<usize>)
        ensures
            match r {
                Some(i) => i < self.records().len() && self.records()[i as int].path@ == path@,
                None => !has_path(self.records(), path@),
            },
    {
        let mut i: usize = 0;
        while i < self.libraries.len()
            invariant
                i <= self.libraries@.len(),
                forall|k: int| 0 <= k < i ==> (#[trigger] self.libraries@[k]).path@ != path@,
            decreases self.libraries@.len() - i,
        {
            if text_eq(self.libraries[i].path.as_str(), path) {
                return Some(i);
            }
            i = i + 1;
        }
        None
    }

    fn find_name(&self, name: &str) -> (r: Option<usize>)
        ensures
            match r {
                Some(i) => i < self.records().len() && self.records()[i as int].spec.name@ == name@,
                None => !has_name(self.records(), name@),
            },
    {
        let mut i: usize = 0;
        while i < self.libraries.len()
            invariant
                i <= self.libraries@.len(),
                forall|k: int| 0 <= k < i ==> (#[trigger] self.libraries@[k]).spec.name@ != name@,
            decreases self.libraries@.len() - i,
        {
            if text_eq(self.libraries[i].spec.name.as_str(), name) {
                return Some(i);
            }
            i = i + 1;
        }
        None
    }

    /// The tool registered under `name`, if any.
    pub fn get_tool(&self, name: &str) -> (r: Option<&T>)
        requires
            self.wf(),
        ensures
            r is None <==> !has_name(self.records(), name@),
            r matches Some(t) ==> exists|i: int|
                0 <= i < self.records().len() && (#[trigger] self.records()[i]).spec.name@ == name@
                    && self.records()[i].tool == *t,
    {
        match self.find_name(name) {
            Some(i) => Some(&self.libraries[i].tool),
            None => None,
        }
    }

    /// The spec of every registered tool, in the order of the records.
    pub fn tools_specs(&self) -> (r: Vec<ToolSpec>)
        requires
            self.wf(),
        ensures
            r@.len() == self.records().len(),
            forall|i: int| 0 <= i < r@.len() ==> r@[i] == (#[trigger] self.records()[i]).spec,
            forall|i: int| 0 <= i < r@.len() ==> (#[trigger] r@[i]).kind@ == function_kind(),
    {
        let mut r: Vec<ToolSpec> = Vec::new();
        let mut i: usize = 0;
        while i < self.libraries.len()
            invariant
                i <= self.libraries@.len(),
                r@.len() == i,
                forall|k: int| 0 <= k < i ==> r@[k] == (#[trigger] self.libraries@[k]).spec,
            decreases self.libraries@.len() - i,
        {
            r.push(self.libraries[i].spec.duplicate());
            i = i + 1;
        }
        assert forall|k: int| 0 <= k < r@.len() implies (#[trigger] r@[k]).kind@ == function_kind() by {
            assert(r@[k] == self.libraries@[k].spec);
        }
        r
    }

    /// Unloads the library loaded from `path`, with the tool it made; returns
    /// whether one was loaded. Tools from other libraries stay.
    pub fn unload_library(&mut self, path: &str) -> (r: bool)
        requires
            old(self).wf(),
        ensures
            final(self).wf(),
            r == has_path(old(self).records(), path@),
            unloaded(old(self).records(), final(self).records(), path@),
            !has_path(final(self).records(), path@),
    {
        match self.find_path(path) {
            Some(i) => {
                proof {
                    lemma_remove_record(self.libraries@, i as int);
                }
                // Dropping the record drops its tool, then its library.
                let _record = self.libraries.remove(i);
                true
            },
            None => {
                assert forall|e: LoadedLibrary<T, L>| #[trigger]
                    self.libraries@.contains(e) implies e.path@ != path@ by {}
                false
            },
        }
    }
    /// Decides a load of `path`, last modified at `modified`. When the library
    /// loaded from `path` is as recent or more, nothing changes. When an older
    /// version is loaded, it is unloaded now, before the new one is opened.
    pub fn prepare_load(&mut self, path: &str, modified: i128) -> (r: LoadStep)
        requires
            old(self).wf(),
        ensures
            final(self).wf(),
            r == load_step_for(old(self).records(), path@, modified),
            r == LoadStep::UpToDate ==> final(self).records() == old(self).records(),
            r != LoadStep::UpToDate ==> unloaded(old(self).records(), final(self).records(), path@),
            r != LoadStep::UpToDate ==> !has_path(final(self).records(), path@),
            r == LoadStep::Fresh ==> final(self).records() == old(self).records(),
    {
        match self.find_path(path) {
            Some(i) => {
                if self.libraries[i].modified >= modified {
                    LoadStep::UpToDate
                } else {
                    let ghost s = self.libraries@;
                    assert forall|j: int| 0 <= j < s.len() && (#[trigger] s[j]).path@ == path@ implies s[j].modified
                        < modified by {
                        assert(j == i);
                    }
                    self.unload_library(path);
                    LoadStep::Reloaded
                }
            },
            None => {
                LoadStep::Fresh
            },
        }
    }

    /// Registers the library opened from `path`, last modified at `modified`,
    /// with the tool it made and that tool's spec. A library already loaded
    /// from `path`, and one whose tool has the same name, are unloaded before it is recorded:
    /// the last one loaded wins.
    pub fn register(&mut self, path: String, modified: i128, spec: ToolSpec, tool: T, library: L)
        requires
            old(self).wf(),
            spec.kind@ == function_kind(),
        ensures
            final(self).wf(),
            registered(
                old(self).records(),
                final(self).records(),
                (LoadedLibrary { path, modified, spec, tool, library }),
            ),
    {
        let ghost s0 = self.libraries@;
        self.unload_library(path.as_str());
        let ghost s1 = self.libraries@;
        match self.find_name(spec.name.as_str()) {
            Some(i) => {
                proof {
                    lemma_remove_record(self.libraries@, i as int);
                }
                let _other_owner = self.libraries.remove(i);
            },
            None => {
                assert forall|e: LoadedLibrary<T, L>| #[trigger]
                    self.libraries@.contains(e) implies e.spec.name@ != spec.name@ by {}
            },
        }
        let ghost s2 = self.libraries@;
        assert forall|k: int| 0 <= k < s2.len() implies (#[trigger] s2[k]).path@ != path@
            && s2[k].spec.name@ != spec.name@ by {
            assert(s2.contains(s2[k]));
            assert(s1.contains(s2[k]));
        }
        let ghost rec = LoadedLibrary { path, modified, spec, tool, library };
        self.libraries.push(LoadedLibrary { path, modified, spec, tool, library });
        let ghost s3 = self.libraries@;
        assert(s3 == s2.push(rec));
        assert forall|e: LoadedLibrary<T, L>| #[trigger] s3.contains(e) implies e == rec || s2.contains(e) by {
            let k = choose|k: int| 0 <= k < s3.len() && s3[k] == e;
            if k < s2.len() {
                assert(s2[k] == e);
            }
        }
        assert forall|e: LoadedLibrary<T, L>| e == rec || s2.contains(e) implies #[trigger] s3.contains(e) by {
            if e == rec {
                assert(s3[s2.len() as int] == e);
            } else {
                let k = choose|k: int| 0 <= k < s2.len() && s2[k] == e;
                assert(s3[k] == e);
            }
        }
    }
}

/// Loading a file again at the modification time it was registered at asks
/// for nothing: the library and its tool stay as they are.
pub proof fn lemma_unchanged_file_is_up_to_date<T, L>(
    before: ToolRegistry<T, L>,
    after: ToolRegistry<T, L>,
    rec: LoadedLibrary<T, L>,
)
    requires
        registered(before.records(), after.records(), rec),
    ensures
        load_step_for(after.records(), rec.path@, rec.modified) == LoadStep::UpToDate,
{
    let s = after.records();
    assert(s.contains(rec));
    let k = choose|k: int| 0 <= k < s.len() && s[k] == rec;
    assert(s[k].path@ == rec.path@ && s[k].modified >= rec.modified);
}

/// Loading a file whose modification time has grown since it was registered
/// replaces it: the old version is unloaded before the new one is opened.
pub proof fn lemma_newer_file_is_reloaded<T, L>(
    before: ToolRegistry<T, L>,
    after: ToolRegistry<T, L>,
    rec: LoadedLibrary<T, L>,
    modified: i128,
)
    requires
        registered(before.records(), after.records(), rec),
        rec.modified < modified,
    ensures
        load_step_for(after.records(), rec.path@, modified) == LoadStep::Reloaded,
{
    let s = after.records();
    assert(s.contains(rec));
    let k = choose|k: int| 0 <= k < s.len() && s[k] == rec;
    assert(s[k].path@ == rec.path@);
    assert forall|j: int| 0 <= j < s.len() && (#[trigger] s[j]).path@ == rec.path@ implies s[j].modified
        < modified by {
        assert(s.contains(s[j]));
    }
}

/// Once a path is unloaded, loading it again is a fresh load, whatever its
/// modification time.
pub proof fn lemma_unloaded_path_loads_fresh<T, L>(
    before: ToolRegistry<T, L>,
    after: ToolRegistry<T, L>,
    path: Seq<char>,
    modified: i128,
)
    requires
        unloaded(before.records(), after.records(), path),
    ensures
        load_step_for(after.records(), path, modified) == LoadStep::Fresh,
{
    let s = after.records();
    assert forall|j: int| 0 <= j < s.len() implies (#[trigger] s[j]).path@ != path by {
        assert(s.contains(s[j]));
    }
}

/// A well-formed sequence of records holds no record twice.
proof fn lemma_records_distinct<T, L>(s: Seq<LoadedLibrary<T, L>>)
    requires
        records_wf(s),
    ensures
        s.no_duplicates(),
        s.len() == s.to_set().len(),
{
    assert forall|i: int, j: int| 0 <= i < s.len() && 0 <= j < s.len() && i != j implies s[i] != s[j] by {
        assert(s[i].path@ != s[j].path@);
    }
    s.unique_seq_to_set();
}

/// Registering a library under a new path, with a tool of a new name, adds one
/// record and keeps all others: after loads of N files with N distinct tool
/// names there are N records, and as many tool specs.
pub proof fn lemma_distinct_load_adds_one<T, L>(
    before: ToolRegistry<T, L>,
    after: ToolRegistry<T, L>,
    rec: LoadedLibrary<T, L>,
)
    requires
        before.wf(),
        after.wf(),
        registered(before.records(), after.records(), rec),
        !has_path(before.records(), rec.path@),
        !has_name(before.records(), rec.spec.name@),
    ensures
        after.records().len() == before.records().len() + 1,
        forall|e: LoadedLibrary<T, L>| #[trigger]
            after.records().contains(e) <==> e == rec || before.records().contains(e),
{
    let a = before.records();
    let b = after.records();
    assert forall|e: LoadedLibrary<T, L>| #[trigger] a.contains(e) implies e.path@ != rec.path@
        && e.spec.name@ != rec.spec.name@ by {
        let k = choose|k: int| 0 <= k < a.len() && a[k] == e;
        assert(a[k].path@ != rec.path@);
    }
    assert(!a.contains(rec));
    assert(b.to_set() =~= a.to_set().insert(rec));
    lemma_records_distinct(a);
    lemma_records_distinct(b);
}

/// Starting from an empty registry, loads of N files under distinct paths,
/// whose tools have distinct names, leave exactly those N records: one tool
/// spec for each.
pub proof fn lemma_distinct_loads_counted<T, L>(
    states: Seq<ToolRegistry<T, L>>,
    recs: Seq<LoadedLibrary<T, L>>,
)
    requires
        states.len() == recs.len() + 1,
        states[0].records().len() == 0,
        forall|k: int| 0 <= k < states.len() ==> (#[trigger] states[k]).wf(),
        forall|k: int|
            0 <= k < recs.len() ==> registered(
                states[k].records(),
                states[k + 1].records(),
                #[trigger] recs[k],
            ),
        forall|i: int, j: int|
            0 <= i < recs.len() && 0 <= j < recs.len() && i != j ==> (#[trigger] recs[i]).path@ != (
            #[trigger] recs[j]).path@ && recs[i].spec.name@ != recs[j].spec.name@,
    ensures
        states.last().records().len() == recs.len(),
        forall|e: LoadedLibrary<T, L>| #[trigger]
            states.last().records().contains(e) <==> recs.contains(e),
    decreases recs.len(),
{
    let n = recs.len();
    if n == 0 {
        assert(states.last() == states[0]);
    } else {
        let ps = states.drop_last();
        let pr = recs.drop_last();
        assert forall|k: int| 0 <= k < pr.len() implies registered(
            ps[k].records(),
            ps[k + 1].records(),
            #[trigger] pr[k],
        ) by {
            assert(registered(states[k].records(), states[k + 1].records(), recs[k]));
        }
        assert forall|k: int| 0 <= k < ps.len() implies (#[trigger] ps[k]).wf() by {
            assert(states[k].wf());
        }
        lemma_distinct_loads_counted(ps, pr);
        let before = states[n - 1];
        let after = states[n as int];
        let rec = recs[n - 1];
        assert(ps.last() == before);
        assert forall|i: int| 0 <= i < before.records().len() implies (#[trigger] before.records()[i]).path@
            != rec.path@ && before.records()[i].spec.name@ != rec.spec.name@ by {
            assert(before.records().contains(before.records()[i]));
            let j = choose|j: int| 0 <= j < pr.len() && pr[j] == before.records()[i];
            assert(recs[j] == pr[j]);
        }
        assert(registered(before.records(), after.records(), recs[n - 1]));
        lemma_distinct_load_adds_one(before, after, rec);
        assert forall|e: LoadedLibrary<T, L>| #[trigger] after.records().contains(e) <==> recs.contains(e) by {
            if recs.contains(e) {
                let j = choose|j: int| 0 <= j < recs.len() && recs[j] == e;
                if j < n - 1 {
                    assert(pr[j] == e);
                    assert(pr.contains(e));
                }
            }
            if pr.contains(e) {
                let j = choose|j: int| 0 <= j < pr.len() && pr[j] == e;
                assert(recs[j] == e);
            }
            if e == rec {
                assert(recs[n - 1] == e);
            }
        }
    }
}

} // verus!

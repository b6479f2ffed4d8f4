//! The resolution pipeline: the registered entries are expanded into one
//! concrete entry per declared path, a dependency graph is built from the
//! modifiers' declared dependency paths, entries are resolved in topological
//! order (content loaded, modified, hashed), and the resolved records are
//! assembled into an immutable table keyed by final path.

use vstd::prelude::*;
use vstd::string::StrSliceExecFns;
use vstd::string::StringExecFns;
use vstd::utf8::encode_utf8;

use crate::builder::{
    Builder, DataSource, EntryBuilder, EntryBuilderKind, Modifier, ModifierContext, SpecSource,
    Transform,
};
use crate::graph::{
    is_cycle, lemma_cycle_excludes_topo, lemma_permutation_complete, topo_order, valid_topo,
    wf_deps,
};
use crate::hash::{compute_hash_segment, hash_segment};
use crate::paths::{apply_path_hash, spec_final_path, framed, PathHash};
use crate::substitute::{copy_bytes, replace_all, substitute};

verus! {

/// The mathematical view of one concrete (post-expansion) entry.
#[verifier::ext_equal]
pub ghost struct SpecEntry {
    /// The declared (pre-hash) HTTP path.
    pub declared: Seq<char>,
    /// Where the raw bytes come from.
    pub source: SpecSource,
    /// The hash policy.
    pub policy: PathHash,
    /// The declared dependency paths of the modifier.
    pub deps: Seq<Seq<char>>,
    /// Whether the modifier is a caller-supplied transformation.
    pub custom: bool,
    /// The HTTP prefix of the glob this entry was expanded from, if any.
    pub glob_prefix: Option<Seq<char>>,
}

/// The declared dependency paths of a modifier.
pub open spec fn modifier_deps<T>(m: Modifier<T>) -> Seq<Seq<char>> {
    match m {
        Modifier::Plain => Seq::empty(),
        Modifier::PathFixup(ps) => ps.deep_view(),
        Modifier::Custom { deps, .. } => deps.deep_view(),
    }
}

/// Whether a modifier is a caller-supplied transformation.
pub open spec fn modifier_custom<T>(m: Modifier<T>) -> bool {
    m is Custom
}

/// The concrete entries one registration expands to: a single entry, or one
/// entry per glob file, each mounted at prefix-plus-suffix and inheriting
/// the registration's policy and modifier.
pub open spec fn expand_one<T>(b: EntryBuilder<T>) -> Seq<SpecEntry> {
    match b.kind {
        EntryBuilderKind::Single { http_path, source } => seq![
            SpecEntry {
                declared: http_path@,
                source: source@,
                policy: b.path_hash,
                deps: modifier_deps(b.modifier),
                custom: modifier_custom(b.modifier),
                glob_prefix: None,
            },
        ],
        EntryBuilderKind::Glob { http_prefix, glob: _, files } => Seq::new(
            files@.len(),
            |j: int|
                SpecEntry {
                    declared: http_prefix@ + files@[j].suffix@,
                    source: files@[j].source@,
                    policy: b.path_hash,
                    deps: modifier_deps(b.modifier),
                    custom: modifier_custom(b.modifier),
                    glob_prefix: Some(http_prefix@),
                },
        ),
    }
}

/// The whole expanded entry table of a builder, in registration order.
pub open spec fn spec_expand<T>(bs: Seq<EntryBuilder<T>>) -> Seq<SpecEntry>
    decreases bs.len(),
{
    if bs.len() == 0 {
        Seq::empty()
    } else {
        spec_expand(bs.drop_last()) + expand_one(bs.last())
    }
}

/// The store of file contents handed to the pipeline: the bytes read for
/// each filesystem path a disk-backed entry names.
#[derive(Debug)]
pub struct FileStore {
    pub files: Vec<(String, Vec<u8>)>,
}

/// The content stored under the first entry for `p`, if any.
pub open spec fn lookup_file(files: Seq<(String, Vec<u8>)>, p: Seq<char>) -> Option<Seq<u8>>
    decreases files.len(),
{
    if files.len() == 0 {
        None
    } else if files.first().0@ == p {
        Some(files.first().1@)
    } else {
        lookup_file(files.drop_first(), p)
    }
}

impl FileStore {
    /// An empty store.
    pub fn new() -> (r: Self)
        ensures
            r.files@.len() == 0,
    {
        FileStore { files: Vec::new() }
    }

    /// Adds the content read for one filesystem path.
    pub fn add(&mut self, path: &str, content: Vec<u8>)
        ensures
            final(self).files@.len() == old(self).files@.len() + 1,
            forall|i: int|
                0 <= i < old(self).files@.len() ==> final(self).files@[i] == old(self).files@[i],
            final(self).files@.last().0@ == path@,
            final(self).files@.last().1 == content,
    {
        self.files.push((path.to_owned(), content));
    }

    /// The content stored for a path, if any.
    pub fn get(&self, path: &str) -> (r: Option<&Vec<u8>>)
        ensures
            match r {
                Some(b) => lookup_file(self.files@, path@) == Some(b@),
                None => lookup_file(self.files@, path@) is None,
            },
    {
        let p = path.to_owned();
        let n = self.files.len();
        let mut i: usize = 0;
        proof {
            assert(self.files@.skip(0) =~= self.files@);
        }
        while i < n
            invariant
                n == self.files@.len(),
                0 <= i <= n,
                lookup_file(self.files@, path@) == lookup_file(self.files@.skip(i as int), path@),
            decreases n - i,
        {
            proof {
                let rest = self.files@.skip(i as int);
                assert(rest.first() == self.files@[i as int]);
                assert(rest.drop_first() =~= self.files@.skip(i + 1));
            }
            if self.files[i].0 == p {
                return Some(&self.files[i].1);
            }
            i = i + 1;
        }
        None
    }
}

/// The raw bytes of an entry before modification: the blob itself for an
/// embedded entry, the stored file content for a disk-backed one.
pub open spec fn spec_raw(e: SpecEntry, files: Seq<(String, Vec<u8>)>) -> Option<Seq<u8>> {
    match e.source {
        SpecSource::File(p) => lookup_file(files, p),
        SpecSource::Embedded(b) => Some(b),
    }
}

/// The entries among the first `k` whose declared path equals `s`,
/// ascending.
pub open spec fn exact_up_to(es: Seq<SpecEntry>, s: Seq<char>, k: int) -> Seq<usize>
    decreases k,
{
    if k <= 0 {
        Seq::empty()
    } else if es[k - 1].declared == s {
        exact_up_to(es, s, k - 1) + seq![(k - 1) as usize]
    } else {
        exact_up_to(es, s, k - 1)
    }
}

/// The entries among the first `k` expanded from a glob mounted at prefix
/// `s`, ascending.
pub open spec fn glob_up_to(es: Seq<SpecEntry>, s: Seq<char>, k: int) -> Seq<usize>
    decreases k,
{
    if k <= 0 {
        Seq::empty()
    } else if es[k - 1].glob_prefix == Some(s) {
        glob_up_to(es, s, k - 1) + seq![(k - 1) as usize]
    } else {
        glob_up_to(es, s, k - 1)
    }
}

/// The entries a dependency path string resolves to: the entries declared
/// exactly under it, or, failing that, the set expanded from a glob mounted
/// at that prefix.  An empty result is an unresolved dependency.
pub open spec fn targets_for(es: Seq<SpecEntry>, s: Seq<char>) -> Seq<usize> {
    if exact_up_to(es, s, es.len() as int).len() > 0 {
        exact_up_to(es, s, es.len() as int)
    } else {
        glob_up_to(es, s, es.len() as int)
    }
}

/// The identifiers an entry must wait for: the targets of each of its
/// declared dependency paths, in declaration order.
pub open spec fn dep_ids_of(es: Seq<SpecEntry>, ds: Seq<Seq<char>>) -> Seq<usize>
    decreases ds.len(),
{
    if ds.len() == 0 {
        Seq::empty()
    } else {
        targets_for(es, ds.first()) + dep_ids_of(es, ds.drop_first())
    }
}

/// The dependency graph over the expanded entries.
pub open spec fn spec_graph(es: Seq<SpecEntry>) -> Seq<Seq<usize>> {
    Seq::new(es.len(), |i: int| dep_ids_of(es, es[i].deps))
}

/// The `(declared path, final path)` pairs of the listed targets, in order:
/// what a custom transformation is handed for its declared dependencies.
pub open spec fn dep_pairs(recs: Seq<RRec>, ts: Seq<usize>) -> Seq<(Seq<char>, Seq<char>)> {
    Seq::new(ts.len(), |k: int| (recs[ts[k] as int].declared, recs[ts[k] as int].path))
}

/// The registration each expanded entry came from: the index, into the
/// builder's entry list, whose expansion produced it.
pub open spec fn spec_origins<T>(bs: Seq<EntryBuilder<T>>) -> Seq<int>
    decreases bs.len(),
{
    if bs.len() == 0 {
        Seq::empty()
    } else {
        spec_origins(bs.drop_last()) + Seq::new(
            expand_one(bs.last()).len(),
            |j: int| bs.len() - 1,
        )
    }
}

/// The mathematical view of one resolved record.
#[verifier::ext_equal]
pub ghost struct RRec {
    /// The declared (pre-hash) path the entry was registered under.
    pub declared: Seq<char>,
    /// The final (post-hash) path the entry is served at.
    pub path: Seq<char>,
    /// The final byte content.
    pub content: Seq<u8>,
}

/// One resolved entry: its declared path, its final path and its final
/// content.
#[derive(Debug)]
pub struct ResolvedEntry {
    pub declared: String,
    pub path: String,
    pub content: Vec<u8>,
}

impl ResolvedEntry {
    /// The view of this record.
    pub open spec fn view(&self) -> RRec {
        RRec { declared: self.declared@, path: self.path@, content: self.content@ }
    }
}

/// The content of `c` after substituting, for each target in `ts` in turn,
/// the target's declared path by its final path, both as bytes.
pub open spec fn sub_list(
    c: Seq<u8>,
    es: Seq<SpecEntry>,
    recs: Seq<RRec>,
    ts: Seq<usize>,
) -> Seq<u8>
    decreases ts.len(),
{
    if ts.len() == 0 {
        c
    } else {
        sub_list(
            replace_all(
                c,
                encode_utf8(es[ts.first() as int].declared),
                encode_utf8(recs[ts.first() as int].path),
            ),
            es,
            recs,
            ts.drop_first(),
        )
    }
}

/// Whether `recs` is a consistent resolution of `es` against `files`: one
/// record per entry, under the entry's declared path; every non-custom
/// entry's content is its raw bytes with each dependency's declared path
/// replaced by that dependency's final path; and every entry's final path is
/// its declared path with the hash segment of its own final content inserted
/// as its policy directs.
pub open spec fn table_ok(
    es: Seq<SpecEntry>,
    files: Seq<(String, Vec<u8>)>,
    recs: Seq<RRec>,
) -> bool {
    &&& recs.len() == es.len()
    &&& forall|i: int| 0 <= i < es.len() ==> (#[trigger] recs[i]).declared == es[i].declared
    &&& forall|i: int|
        0 <= i < es.len() && !es[i].custom ==> (#[trigger] recs[i]).content == sub_list(
            spec_raw(es[i], files)->Some_0,
            es,
            recs,
            dep_ids_of(es, es[i].deps),
        )
    &&& forall|i: int|
        0 <= i < es.len() ==> Some((#[trigger] recs[i]).path) == spec_final_path(
            es[i].policy,
            es[i].declared,
            hash_segment(recs[i].content),
        )
}

/// No two entries share a declared path.
pub open spec fn all_declared_unique(es: Seq<SpecEntry>) -> bool {
    forall|i: int, j: int|
        0 <= i < j < es.len() ==> (#[trigger] es[i]).declared != (#[trigger] es[j]).declared
}

/// Every declared dependency path resolves to at least one entry.
pub open spec fn all_deps_resolved(es: Seq<SpecEntry>) -> bool {
    forall|i: int, d: int|
        0 <= i < es.len() && 0 <= d < es[i].deps.len() ==> targets_for(
            es,
            (#[trigger] es[i].deps[d]),
        ).len() > 0
}

/// Every disk-backed entry's content is present in the store.
pub open spec fn sources_present(es: Seq<SpecEntry>, files: Seq<(String, Vec<u8>)>) -> bool {
    forall|i: int| 0 <= i < es.len() ==> spec_raw(#[trigger] es[i], files) is Some
}

/// Every `InBetween` policy frames its entry's declared path.
pub open spec fn policies_framed(es: Seq<SpecEntry>) -> bool {
    forall|i: int|
        0 <= i < es.len() ==> ((#[trigger] es[i]).policy matches PathHash::InBetween {
            prefix,
            suffix,
        } ==> framed(es[i].declared, prefix@, suffix@))
}

/// No two records share a final path.
pub open spec fn finals_unique(recs: Seq<RRec>) -> bool {
    forall|i: int, j: int|
        0 <= i < j < recs.len() ==> (#[trigger] recs[i]).path != (#[trigger] recs[j]).path
}

/// No entry carries a caller-supplied transformation.
pub open spec fn no_custom(es: Seq<SpecEntry>) -> bool {
    forall|i: int| 0 <= i < es.len() ==> !(#[trigger] es[i]).custom
}

/// The dependency graph admits a topological order.
pub open spec fn acyclic(es: Seq<SpecEntry>) -> bool {
    exists|order: Seq<usize>| valid_topo(spec_graph(es), order)
}

/// The inputs on which a build is owed success: unique declared paths,
/// every dependency resolving, every file present, every hash insertion
/// framing its path, no dependency cycle, no caller-supplied transformation,
/// and a collision-free resolution existing.
pub open spec fn buildable(es: Seq<SpecEntry>, files: Seq<(String, Vec<u8>)>) -> bool {
    &&& all_declared_unique(es)
    &&& all_deps_resolved(es)
    &&& sources_present(es, files)
    &&& policies_framed(es)
    &&& acyclic(es)
    &&& no_custom(es)
    &&& exists|recs: Seq<RRec>| table_ok(es, files, recs) && finals_unique(recs)
}

/// Why a build failed.  All errors are build-time and terminal: any failure
/// aborts the whole build.
#[derive(Debug)]
pub enum BuildError {
    /// A modifier declared a dependency path matching no entry.
    UnresolvedDependency { dependent: String, path: String },
    /// The dependency graph contains a cycle; one complete cycle is
    /// reported by declared paths.
    CyclicDependency { cycle: Vec<String> },
    /// A disk-backed entry's content was not in the store.
    ContentLoadFailure { fs_path: String },
    /// Two entries share a declared or final path.
    PathCollision { path: String },
    /// An `InBetween` hash policy does not frame the declared path.
    MalformedHashInsertion { path: String },
}

/// The terminal immutable table: one resolved record per entry, keyed by
/// final path, with the declared-path correspondence retained.
#[derive(Debug)]
pub struct Assets {
    pub records: Vec<ResolvedEntry>,
}

impl Assets {
    /// The view of the whole table.
    pub open spec fn view(&self) -> Seq<RRec> {
        Seq::new(self.records@.len(), |i: int| self.records@[i]@)
    }

    /// The number of resolved entries.
    pub fn len(&self) -> (n: usize)
        ensures
            n == self@.len(),
    {
        self.records.len()
    }

    /// The record at an index, in expansion order.
    pub fn record(&self, i: usize) -> (r: &ResolvedEntry)
        requires
            i < self@.len(),
        ensures
            r@ == self@[i as int],
    {
        &self.records[i]
    }

    /// The final content served at a final path: the first record resolved
    /// to that path, if any.
    pub fn get(&self, path: &str) -> (r: Option<&Vec<u8>>)
        ensures
            match r {
                Some(b) => exists|i: int|
                    0 <= i < self@.len() && (#[trigger] self@[i]).path == path@ && self@[i].content
                        == b@,
                None => forall|i: int| 0 <= i < self@.len() ==> (#[trigger] self@[i]).path != path@,
            },
    {
        let p = path.to_owned();
        let n = self.records.len();
        let mut i: usize = 0;
        while i < n
            invariant
                n == self@.len(),
                0 <= i <= n,
                forall|j: int| 0 <= j < i ==> (#[trigger] self@[j]).path != path@,
            decreases n - i,
        {
            if self.records[i].path == p {
                proof {
                    assert(self@[i as int].path == path@);
                }
                return Some(&self.records[i].content);
            }
            i = i + 1;
        }
        None
    }

    /// The final path an entry declared under `declared` resolved to: the
    /// first record registered under that declared path, if any.
    pub fn resolved_path_of(&self, declared: &str) -> (r: Option<&String>)
        ensures
            match r {
                Some(f) => exists|i: int|
                    0 <= i < self@.len() && (#[trigger] self@[i]).declared == declared@
                        && self@[i].path == f@,
                None => forall|i: int|
                    0 <= i < self@.len() ==> (#[trigger] self@[i]).declared != declared@,
            },
    {
        let p = declared.to_owned();
        let n = self.records.len();
        let mut i: usize = 0;
        while i < n
            invariant
                n == self@.len(),
                0 <= i <= n,
                forall|j: int| 0 <= j < i ==> (#[trigger] self@[j]).declared != declared@,
            decreases n - i,
        {
            if self.records[i].declared == p {
                proof {
                    assert(self@[i as int].declared == declared@);
                }
                return Some(&self.records[i].path);
            }
            i = i + 1;
        }
        None
    }
}

/// One concrete entry as the pipeline works on it: the declared path, the
/// source, the policy and dependency list copied from its registration, and
/// the index of the registration it came from (through which a custom
/// transformation is reached).
struct Entry {
    declared: String,
    source: DataSource,
    policy: PathHash,
    deps: Vec<String>,
    custom: bool,
    origin: usize,
    glob_prefix: Option<String>,
}

spec fn entry_view(e: Entry) -> SpecEntry {
    SpecEntry {
        declared: e.declared@,
        source: e.source@,
        policy: e.policy,
        deps: e.deps.deep_view(),
        custom: e.custom,
        glob_prefix: match e.glob_prefix {
            Some(p) => Some(p@),
            None => None,
        },
    }
}

spec fn views_of(es: Seq<Entry>) -> Seq<SpecEntry> {
    Seq::new(es.len(), |i: int| entry_view(es[i]))
}

fn clone_strings(v: &Vec<String>) -> (r: Vec<String>)
    ensures
        r.deep_view() == v.deep_view(),
{
    let mut r: Vec<String> = Vec::new();
    let n = v.len();
    let mut i: usize = 0;
    while i < n
        invariant
            n == v@.len(),
            0 <= i <= n,
            r@.len() == i,
            forall|j: int| 0 <= j < i ==> r@[j]@ == v@[j]@,
        decreases n - i,
    {
        r.push(v[i].clone());
        i = i + 1;
    }
    proof {
        assert(r.deep_view() =~= v.deep_view());
    }
    r
}

fn clone_deps<T>(m: &Modifier<T>) -> (r: Vec<String>)
    ensures
        r.deep_view() == modifier_deps(*m),
{
    match m {
        Modifier::Plain => {
            let r: Vec<String> = Vec::new();
            proof {
                assert(r.deep_view() =~= Seq::<Seq<char>>::empty());
            }
            r
        },
        Modifier::PathFixup(ps) => clone_strings(ps),
        Modifier::Custom { deps, .. } => clone_strings(deps),
    }
}

fn is_custom<T>(m: &Modifier<T>) -> (r: bool)
    ensures
        r == modifier_custom(*m),
{
    match m {
        Modifier::Custom { .. } => true,
        _ => false,
    }
}

fn expand<T>(bs: &Vec<EntryBuilder<T>>) -> (es: Vec<Entry>)
    ensures
        views_of(es@) == spec_expand(bs@),
        spec_origins(bs@).len() == es@.len(),
        forall|i: int|
            0 <= i < es@.len() ==> (#[trigger] es@[i]).origin < bs@.len() && es@[i].origin as int
                == spec_origins(bs@)[i] && (es@[i].custom ==> bs@[es@[i].origin as int].modifier
                is Custom),
{
    let mut es: Vec<Entry> = Vec::new();
    let n = bs.len();
    let mut i: usize = 0;
    proof {
        assert(bs@.take(0) =~= Seq::<EntryBuilder<T>>::empty());
        assert(views_of(es@) =~= spec_expand(bs@.take(0)));
    }
    while i < n
        invariant
            n == bs@.len(),
            0 <= i <= n,
            views_of(es@) == spec_expand(bs@.take(i as int)),
            spec_origins(bs@.take(i as int)).len() == es@.len(),
            forall|j: int|
                0 <= j < es@.len() ==> (#[trigger] es@[j]).origin < n && es@[j].origin as int
                    == spec_origins(bs@.take(i as int))[j] && (es@[j].custom ==> bs@[es@[j].origin as int].modifier
                    is Custom),
        decreases n - i,
    {
        let ghost pre = es@;
        let b = &bs[i];
        match &b.kind {
            EntryBuilderKind::Single { http_path, source } => {
                es.push(
                    Entry {
                        declared: http_path.clone(),
                        source: source.dup(),
                        policy: b.path_hash.dup(),
                        deps: clone_deps(&b.modifier),
                        custom: is_custom(&b.modifier),
                        origin: i,
                        glob_prefix: None,
                    },
                );
                proof {
                    assert(es@[es@.len() - 1] == es@.last());
                    assert(entry_view(es@.last()) =~= expand_one(bs@[i as int])[0]);
                    assert(views_of(es@) =~= views_of(pre) + expand_one(bs@[i as int]));
                    assert(es@.last().origin == i);
                    assert(es@.last().custom ==> bs@[i as int].modifier is Custom);
                }
            },
            EntryBuilderKind::Glob { http_prefix, glob: _, files } => {
                let m = files.len();
                let mut j: usize = 0;
                while j < m
                    invariant
                        n == bs@.len(),
                        i < n,
                        m == files@.len(),
                        bs@[i as int].kind matches EntryBuilderKind::Glob {
                            http_prefix: hp,
                            files: fs2,
                            ..
                        } && hp == http_prefix && fs2 == files,
                        0 <= j <= m,
                        es@.len() == pre.len() + j,
                        forall|k: int| 0 <= k < pre.len() ==> es@[k] == pre[k],
                        forall|k2: int|
                            pre.len() <= k2 < es@.len() ==> entry_view(#[trigger] es@[k2])
                                == expand_one(bs@[i as int])[k2 - pre.len()],
                        forall|k: int|
                            0 <= k < es@.len() ==> (#[trigger] es@[k]).origin < n && (
                            k >= pre.len() ==> es@[k].origin == i) && (es@[k].custom ==> bs@[
                            es@[k].origin as int].modifier is Custom),
                    decreases m - j,
                {
                    es.push(
                        Entry {
                            declared: files[j].http_path(http_prefix.as_str()),
                            source: files[j].source.dup(),
                            policy: b.path_hash.dup(),
                            deps: clone_deps(&b.modifier),
                            custom: is_custom(&b.modifier),
                            origin: i,
                            glob_prefix: Some(http_prefix.clone()),
                        },
                    );
                    proof {
                        assert(es@[es@.len() - 1] == es@.last());
                        assert(entry_view(es@.last()) =~= expand_one(bs@[i as int])[j as int]);
                    }
                    j = j + 1;
                }
                proof {
                    assert(views_of(es@) =~= views_of(pre) + expand_one(bs@[i as int]));
                }
            },
        }
        i = i + 1;
        proof {
            assert(bs@.take(i as int).drop_last() =~= bs@.take(i - 1));
            assert(bs@.take(i as int).last() == bs@[i - 1]);
            assert(spec_expand(bs@.take(i as int)) == spec_expand(bs@.take(i - 1)) + expand_one(
                bs@[i - 1],
            ));
            assert(spec_origins(bs@.take(i as int)) =~= spec_origins(bs@.take(i - 1)) + Seq::new(
                expand_one(bs@[i - 1]).len(),
                |j: int| i - 1,
            ));
            assert(views_of(es@).len() == es@.len());
            assert(es@.len() == pre.len() + expand_one(bs@[i - 1]).len());
            assert forall|j: int|
                0 <= j < es@.len() implies (#[trigger] es@[j]).origin < n && es@[j].origin as int
                == spec_origins(bs@.take(i as int))[j] && (es@[j].custom ==> bs@[es@[j].origin as int].modifier
                is Custom) by {
                if j < pre.len() {
                    assert(es@[j] == pre[j]);
                    assert(spec_origins(bs@.take(i - 1))[j] == pre[j].origin as int);
                } else {
                    assert(es@[j].origin == i - 1);
                    assert(spec_origins(bs@.take(i as int))[j] == i - 1);
                }
            }
        }
    }
    proof {
        assert(bs@.take(n as int) =~= bs@);
    }
    es
}

proof fn lemma_dep_ids_snoc(es: Seq<SpecEntry>, ds: Seq<Seq<char>>, s: Seq<char>)
    ensures
        dep_ids_of(es, ds.push(s)) == dep_ids_of(es, ds) + targets_for(es, s),
    decreases ds.len(),
{
    if ds.len() == 0 {
        assert(ds.push(s).first() == s);
        assert(ds.push(s).drop_first() =~= Seq::<Seq<char>>::empty());
        assert(dep_ids_of(es, Seq::<Seq<char>>::empty()) == Seq::<usize>::empty());
        assert(dep_ids_of(es, ds.push(s)) =~= dep_ids_of(es, ds) + targets_for(es, s));
    } else {
        assert(ds.push(s).first() == ds.first());
        assert(ds.push(s).drop_first() =~= ds.drop_first().push(s));
        lemma_dep_ids_snoc(es, ds.drop_first(), s);
        assert(dep_ids_of(es, ds.push(s)) =~= dep_ids_of(es, ds) + targets_for(es, s));
    }
}

fn collect_targets(es: &Vec<Entry>, s: &String) -> (r: Vec<usize>)
    ensures
        r@ == targets_for(views_of(es@), s@),
        forall|k: int| 0 <= k < r@.len() ==> (#[trigger] r@[k]) < es@.len(),
{
    let ghost ses = views_of(es@);
    let n = es.len();
    let mut exact: Vec<usize> = Vec::new();
    let mut j: usize = 0;
    while j < n
        invariant
            ses == views_of(es@),
            n == es@.len(),
            0 <= j <= n,
            exact@ == exact_up_to(ses, s@, j as int),
            forall|k: int| 0 <= k < exact@.len() ==> (#[trigger] exact@[k]) < n,
        decreases n - j,
    {
        if es[j].declared == *s {
            exact.push(j);
            proof {
                assert(ses[j as int].declared == s@);
                assert(exact@ =~= exact_up_to(ses, s@, j + 1));
            }
        } else {
            proof {
                assert(ses[j as int].declared != s@);
            }
        }
        j = j + 1;
    }
    proof {
        assert(ses.len() == n);
    }
    if exact.len() > 0 {
        return exact;
    }
    let mut globs: Vec<usize> = Vec::new();
    let mut j2: usize = 0;
    while j2 < n
        invariant
            ses == views_of(es@),
            n == es@.len(),
            0 <= j2 <= n,
            globs@ == glob_up_to(ses, s@, j2 as int),
            forall|k: int| 0 <= k < globs@.len() ==> (#[trigger] globs@[k]) < n,
        decreases n - j2,
    {
        let matches_glob = match &es[j2].glob_prefix {
            Some(gp) => *gp == *s,
            None => false,
        };
        if matches_glob {
            globs.push(j2);
            proof {
                assert(ses[j2 as int].glob_prefix == Some(s@));
                assert(globs@ =~= glob_up_to(ses, s@, j2 + 1));
            }
        } else {
            proof {
                assert(ses[j2 as int].glob_prefix != Some(s@));
            }
        }
        j2 = j2 + 1;
    }
    globs
}

fn build_graph(es: &Vec<Entry>) -> (r: Result<Vec<Vec<usize>>, BuildError>)
    ensures
        match r {
            Ok(deps) => deps.deep_view() == spec_graph(views_of(es@)) && wf_deps(
                deps.deep_view(),
                es@.len() as int,
            ) && all_deps_resolved(views_of(es@)),
            Err(e) => e matches BuildError::UnresolvedDependency { dependent, path }
                && !all_deps_resolved(views_of(es@)) && targets_for(views_of(es@), path@).len()
                == 0 && exists|i: int, d: int|
                0 <= i < es@.len() && 0 <= d < views_of(es@)[i].deps.len() && #[trigger] views_of(
                    es@,
                )[i].deps[d] == path@ && views_of(es@)[i].declared == dependent@,
        },
{
    let ghost ses = views_of(es@);
    let n = es.len();
    let mut deps: Vec<Vec<usize>> = Vec::new();
    let mut i: usize = 0;
    while i < n
        invariant
            ses == views_of(es@),
            n == es@.len(),
            0 <= i <= n,
            deps@.len() == i,
            forall|j: int, d2: int|
                0 <= j < i && 0 <= d2 < ses[j].deps.len() ==> targets_for(
                    ses,
                    #[trigger] ses[j].deps[d2],
                ).len() > 0,
            forall|j: int|
                0 <= j < i ==> (#[trigger] deps@[j]).deep_view() == dep_ids_of(ses, ses[j].deps),
            forall|j: int, k: int|
                0 <= j < i && 0 <= k < deps@[j]@.len() ==> (#[trigger] deps@[j]@[k]) < n,
        decreases n - i,
    {
        let e = &es[i];
        let m = e.deps.len();
        let mut row: Vec<usize> = Vec::new();
        let mut d: usize = 0;
        proof {
            assert(e.deps.deep_view().take(0) =~= Seq::<Seq<char>>::empty());
            assert(row@ =~= dep_ids_of(ses, e.deps.deep_view().take(0)));
        }
        while d < m
            invariant
                ses == views_of(es@),
                n == es@.len(),
                i < n,
                e == es@[i as int],
                m == e.deps@.len(),
                0 <= d <= m,
                forall|j: int, d2: int|
                    0 <= j < i && 0 <= d2 < ses[j].deps.len() ==> targets_for(
                        ses,
                        #[trigger] ses[j].deps[d2],
                    ).len() > 0,
                forall|d2: int|
                    0 <= d2 < d ==> targets_for(
                        ses,
                        #[trigger] e.deps.deep_view()[d2],
                    ).len() > 0,
                row@ == dep_ids_of(ses, e.deps.deep_view().take(d as int)),
                forall|k: int| 0 <= k < row@.len() ==> (#[trigger] row@[k]) < n,
            decreases m - d,
        {
            let s = &e.deps[d];
            let ts = collect_targets(es, s);
            if ts.len() == 0 {
                proof {
                    assert(ses[i as int].deps[d as int] == s@);
                    assert(targets_for(ses, s@).len() == 0);
                }
                return Err(
                    BuildError::UnresolvedDependency {
                        dependent: e.declared.clone(),
                        path: s.clone(),
                    },
                );
            }
            let ghost row0 = row@;
            let mut t: usize = 0;
            let tn = ts.len();
            while t < tn
                invariant
                    tn == ts@.len(),
                    0 <= t <= tn,
                    row@ =~= row0 + ts@.take(t as int),
                decreases tn - t,
            {
                row.push(ts[t]);
                proof {
                    assert(row@ =~= row0 + ts@.take(t + 1));
                }
                t = t + 1;
            }
            proof {
                assert(targets_for(ses, e.deps.deep_view()[d as int]).len() > 0);
                assert(ts@.take(tn as int) =~= ts@);
                assert(e.deps.deep_view().take(d + 1) =~= e.deps.deep_view().take(d as int).push(
                    s@,
                ));
                lemma_dep_ids_snoc(ses, e.deps.deep_view().take(d as int), s@);
            }
            d = d + 1;
        }
        proof {
            assert(e.deps.deep_view().take(m as int) =~= e.deps.deep_view());
            assert(ses[i as int].deps == e.deps.deep_view());
            assert forall|d2: int|
                0 <= d2 < ses[i as int].deps.len() implies targets_for(
                ses,
                #[trigger] ses[i as int].deps[d2],
            ).len() > 0 by {
                assert(targets_for(ses, e.deps.deep_view()[d2]).len() > 0);
            }
        }
        deps.push(row);
        i = i + 1;
    }
    proof {
        assert(deps.deep_view() =~= spec_graph(ses));
        assert forall|j: int, k: int|
            0 <= j < deps.deep_view().len() && 0 <= k < deps.deep_view()[j].len() implies deps.deep_view()[j][k]
            < n by {
            assert(deps.deep_view()[j][k] == deps@[j]@[k]);
        }
    }
    Ok(deps)
}

/// Substitution reads only the final paths of the listed targets: two record
/// tables that agree on those yield the same substituted content.
proof fn lemma_sub_list_congr(
    c: Seq<u8>,
    es: Seq<SpecEntry>,
    r1: Seq<RRec>,
    r2: Seq<RRec>,
    ts: Seq<usize>,
)
    requires
        forall|k: int| 0 <= k < ts.len() ==> r1[(#[trigger] ts[k]) as int].path == r2[ts[k] as int].path,
    ensures
        sub_list(c, es, r1, ts) == sub_list(c, es, r2, ts),
    decreases ts.len(),
{
    if ts.len() > 0 {
        assert(ts[0] == ts.first());
        assert forall|k: int|
            0 <= k < ts.drop_first().len() implies r1[(#[trigger] ts.drop_first()[k]) as int].path
            == r2[ts.drop_first()[k] as int].path by {
            assert(ts.drop_first()[k] == ts[k + 1]);
        }
        lemma_sub_list_congr(
            replace_all(
                c,
                encode_utf8(es[ts.first() as int].declared),
                encode_utf8(r1[ts.first() as int].path),
            ),
            es,
            r1,
            r2,
            ts.drop_first(),
        );
    }
}

/// Appending one target substitutes it after all earlier ones.
proof fn lemma_sub_list_snoc(
    c: Seq<u8>,
    es: Seq<SpecEntry>,
    recs: Seq<RRec>,
    ts: Seq<usize>,
    x: usize,
)
    ensures
        sub_list(c, es, recs, ts.push(x)) == replace_all(
            sub_list(c, es, recs, ts),
            encode_utf8(es[x as int].declared),
            encode_utf8(recs[x as int].path),
        ),
    decreases ts.len(),
{
    if ts.len() == 0 {
        assert(ts.push(x).first() == x);
        assert(ts.push(x).drop_first() =~= Seq::<usize>::empty());
        assert(sub_list(c, es, recs, ts) == c);
        assert(sub_list(c, es, recs, ts.push(x)) == sub_list(
            replace_all(c, encode_utf8(es[x as int].declared), encode_utf8(recs[x as int].path)),
            es,
            recs,
            Seq::<usize>::empty(),
        ));
    } else {
        let c2 = replace_all(
            c,
            encode_utf8(es[ts.first() as int].declared),
            encode_utf8(recs[ts.first() as int].path),
        );
        assert(ts.push(x).first() == ts.first());
        assert(ts.push(x).drop_first() =~= ts.drop_first().push(x));
        assert(sub_list(c, es, recs, ts.push(x)) == sub_list(
            c2,
            es,
            recs,
            ts.drop_first().push(x),
        ));
        assert(sub_list(c, es, recs, ts) == sub_list(c2, es, recs, ts.drop_first()));
        lemma_sub_list_snoc(c2, es, recs, ts.drop_first(), x);
    }
}

/// For fixed inputs the resolved table is unique: any two consistent
/// resolutions of the same entries against the same file contents, with no
/// caller-supplied transformation involved, are identical.  With the
/// pipeline's own output pinned to such a resolution, repeated builds
/// produce byte-identical tables.
#[verifier::rlimit(60)]
pub proof fn lemma_resolution_deterministic(
    es: Seq<SpecEntry>,
    files: Seq<(String, Vec<u8>)>,
    r1: Seq<RRec>,
    r2: Seq<RRec>,
    order: Seq<usize>,
)
    requires
        es.len() <= usize::MAX as int,
        table_ok(es, files, r1),
        table_ok(es, files, r2),
        no_custom(es),
        valid_topo(spec_graph(es), order),
    ensures
        r1 == r2,
{
    lemma_det_upto(es, files, r1, r2, order, order.len() as int);
    assert forall|i: int| 0 <= i < es.len() implies r1[i] == r2[i] by {
        assert(order.contains(i as usize)) by {
            lemma_permutation_complete(order, i as usize);
        }
        let p = choose|p: int| 0 <= p < order.len() && order[p] == i as usize;
        assert(r1[order[p] as int] == r2[order[p] as int]);
    }
    assert(r1 =~= r2);
}

#[verifier::rlimit(60)]
/// Dependency ordering: in any table a successful build returns, a
/// non-custom entry's content is its raw bytes with every dependency's
/// declared path replaced by the final path that very table records for the
/// dependency — the substitution lands on the dependency's actual final
/// path, so each dependency was fully resolved before the modifier ran.
pub proof fn lemma_dependency_substitution(
    es: Seq<SpecEntry>,
    files: Seq<(String, Vec<u8>)>,
    recs: Seq<RRec>,
    i: int,
)
    requires
        table_ok(es, files, recs),
        0 <= i < es.len(),
        !es[i].custom,
    ensures
        recs[i].content == sub_list(
            spec_raw(es[i], files)->Some_0,
            es,
            recs,
            dep_ids_of(es, es[i].deps),
        ),
{
}

proof fn lemma_det_upto(
    es: Seq<SpecEntry>,
    files: Seq<(String, Vec<u8>)>,
    r1: Seq<RRec>,
    r2: Seq<RRec>,
    order: Seq<usize>,
    k: int,
)
    requires
        table_ok(es, files, r1),
        table_ok(es, files, r2),
        no_custom(es),
        valid_topo(spec_graph(es), order),
        0 <= k <= order.len(),
    ensures
        forall|p: int| 0 <= p < k ==> r1[(#[trigger] order[p]) as int] == r2[order[p] as int],
    decreases k,
{
    if k > 0 {
        lemma_det_upto(es, files, r1, r2, order, k - 1);
        let i = order[k - 1] as int;
        assert(spec_graph(es)[i] == dep_ids_of(es, es[i].deps));
        let ts = dep_ids_of(es, es[i].deps);
        assert forall|t: int| 0 <= t < ts.len() implies r1[(#[trigger] ts[t]) as int].path
            == r2[ts[t] as int].path by {
            assert(spec_graph(es)[order[k - 1] as int][t] == ts[t]);
            assert(order.take(k - 1).contains(ts[t]));
            let p = choose|p: int|
                0 <= p < k - 1 && #[trigger] order.take(k - 1)[p] == ts[t];
            assert(order[p] == ts[t]);
            assert(r1[order[p] as int] == r2[order[p] as int]);
        }
        lemma_sub_list_congr(spec_raw(es[i], files)->Some_0, es, r1, r2, ts);
        assert(r1[i].content == r2[i].content);
        assert(Some(r1[i].path) == spec_final_path(
            es[i].policy,
            es[i].declared,
            hash_segment(r1[i].content),
        ));
        assert(r1[i].path == r2[i].path);
        assert(r1[i] =~= r2[i]);
    }
}

spec fn recs_view(rs: Seq<ResolvedEntry>) -> Seq<RRec> {
    Seq::new(rs.len(), |i: int| rs[i]@)
}

spec fn opt_view(records: Seq<Option<ResolvedEntry>>) -> Seq<RRec> {
    Seq::new(
        records.len(),
        |i: int|
            match records[i] {
                Some(r) => r@,
                None => RRec {
                    declared: Seq::empty(),
                    path: Seq::empty(),
                    content: Seq::empty(),
                },
            },
    )
}

/// The per-entry resolution conditions: the record stands under the entry's
/// declared path, the raw bytes were found, a non-custom entry's content is
/// its raw bytes with each dependency's declared path replaced by that
/// dependency's final path, and the final path carries the hash segment of
/// the final content as the policy directs.
spec fn rec_ok_at(
    ses: Seq<SpecEntry>,
    fs: Seq<(String, Vec<u8>)>,
    rv: Seq<RRec>,
    i: int,
) -> bool {
    &&& rv[i].declared == ses[i].declared
    &&& spec_raw(ses[i], fs) is Some
    &&& (!ses[i].custom ==> rv[i].content == sub_list(
        spec_raw(ses[i], fs)->Some_0,
        ses,
        rv,
        dep_ids_of(ses, ses[i].deps),
    ))
    &&& Some(rv[i].path) == spec_final_path(
        ses[i].policy,
        ses[i].declared,
        hash_segment(rv[i].content),
    )
}

fn rec_dup(r: &ResolvedEntry) -> (d: ResolvedEntry)
    ensures
        d@ == r@,
{
    ResolvedEntry {
        declared: r.declared.clone(),
        path: r.path.clone(),
        content: copy_bytes(&r.content),
    }
}

/// The resolution condition for an entry carrying a caller-supplied
/// transformation: the registration it came from holds a `Custom` modifier,
/// and the record's content stands in that transformation's stated relation
/// to the entry's raw bytes and the `(declared, final)` pairs of its
/// resolved dependencies — the transformation ran on exactly those inputs.
pub open spec fn custom_resolved_at<T: Transform>(
    bs: Seq<EntryBuilder<T>>,
    ses: Seq<SpecEntry>,
    fs: Seq<(String, Vec<u8>)>,
    rv: Seq<RRec>,
    oi: int,
    i: int,
) -> bool {
    bs[oi].modifier matches Modifier::Custom { f, .. } && f.transform_rel(
        spec_raw(ses[i], fs)->Some_0,
        dep_pairs(rv, dep_ids_of(ses, ses[i].deps)),
        rv[i].content,
    )
}

fn gather_pairs(records: &Vec<Option<ResolvedEntry>>, row: &Vec<usize>) -> (ctx: ModifierContext)
    requires
        forall|t: int|
            0 <= t < row@.len() ==> (#[trigger] row@[t]) < records@.len() && records@[row@[t] as int]
                is Some,
    ensures
        ctx.pairs_view() == dep_pairs(opt_view(records@), row@),
{
    let mut pairs: Vec<(String, String)> = Vec::new();
    let m = row.len();
    let mut t: usize = 0;
    while t < m
        invariant
            m == row@.len(),
            forall|t2: int|
                0 <= t2 < row@.len() ==> (#[trigger] row@[t2]) < records@.len()
                    && records@[row@[t2] as int] is Some,
            0 <= t <= m,
            pairs@.len() == t,
            forall|k: int|
                0 <= k < t ==> (#[trigger] pairs@[k]).0@ == opt_view(records@)[row@[k] as int].declared
                    && pairs@[k].1@ == opt_view(records@)[row@[k] as int].path,
        decreases m - t,
    {
        let ti = row[t];
        match &records[ti] {
            Some(rec) => pairs.push((rec.declared.clone(), rec.path.clone())),
            None => {
                proof {
                    assert(false);
                }
                unreached()
            },
        }
        t = t + 1;
    }
    let ctx = ModifierContext { pairs };
    proof {
        assert(ctx.pairs_view() =~= dep_pairs(opt_view(records@), row@));
    }
    ctx
}

#[verifier::rlimit(100)]
fn resolve_all<T: Transform>(
    bs: &Vec<EntryBuilder<T>>,
    es: &Vec<Entry>,
    deps: &Vec<Vec<usize>>,
    order: &Vec<usize>,
    files: &FileStore,
) -> (r: Result<Vec<ResolvedEntry>, BuildError>)
    requires
        forall|i: int|
            0 <= i < es@.len() ==> (#[trigger] es@[i]).origin < bs@.len() && (views_of(es@)[i].custom
                ==> bs@[es@[i].origin as int].modifier is Custom),
        deps.deep_view() == spec_graph(views_of(es@)),
        wf_deps(deps.deep_view(), es@.len() as int),
        valid_topo(deps.deep_view(), order@),
    ensures
        match r {
            Ok(recs) => recs@.len() == es@.len() && (forall|i: int|
                0 <= i < es@.len() ==> rec_ok_at(
                    views_of(es@),
                    files.files@,
                    recs_view(recs@),
                    i,
                )) && (forall|i: int|
                0 <= i < es@.len() && views_of(es@)[i].custom ==> custom_resolved_at(
                    bs@,
                    views_of(es@),
                    files.files@,
                    recs_view(recs@),
                    (#[trigger] es@[i]).origin as int,
                    i,
                )),
            Err(e) => match e {
                BuildError::ContentLoadFailure { fs_path } => !sources_present(
                    views_of(es@),
                    files.files@,
                ) && exists|i: int|
                    0 <= i < es@.len() && (#[trigger] views_of(es@)[i]).source == SpecSource::File(
                        fs_path@,
                    ) && lookup_file(files.files@, fs_path@) is None,
                BuildError::MalformedHashInsertion { path } => !policies_framed(views_of(es@))
                    && exists|i: int|
                    0 <= i < es@.len() && (#[trigger] views_of(es@)[i]).declared == path@ && (
                    views_of(es@)[i].policy matches PathHash::InBetween { prefix, suffix }
                        && !framed(views_of(es@)[i].declared, prefix@, suffix@)),
                _ => false,
            },
        },
{
    let ghost ses = views_of(es@);
    let ghost fs = files.files@;
    let n = es.len();
    let mut records: Vec<Option<ResolvedEntry>> = Vec::new();
    let mut z: usize = 0;
    while z < n
        invariant
            0 <= z <= n,
            records@.len() == z,
            forall|j: int| 0 <= j < z ==> (#[trigger] records@[j]) is None,
        decreases n - z,
    {
        records.push(None);
        z = z + 1;
    }
    let on = order.len();
    let mut k: usize = 0;
    while k < on
        invariant
            ses == views_of(es@),
            fs == files.files@,
            n == es@.len(),
            on == order@.len(),
            on == n,
            forall|i: int|
                0 <= i < es@.len() ==> (#[trigger] es@[i]).origin < bs@.len() && (ses[i].custom
                    ==> bs@[es@[i].origin as int].modifier is Custom),
            deps.deep_view() == spec_graph(ses),
            wf_deps(deps.deep_view(), n as int),
            valid_topo(deps.deep_view(), order@),
            0 <= k <= on,
            records@.len() == n,
            forall|p: int| 0 <= p < k ==> records@[(#[trigger] order@[p]) as int] is Some,
            forall|i: int|
                0 <= i < n && (#[trigger] records@[i]) is Some ==> order@.take(k as int).contains(
                    i as usize,
                ),
            forall|p: int|
                0 <= p < k ==> rec_ok_at(ses, fs, opt_view(records@), (#[trigger] order@[p]) as int),
            forall|p: int|
                0 <= p < k && ses[(#[trigger] order@[p]) as int].custom ==> custom_resolved_at(
                    bs@,
                    ses,
                    fs,
                    opt_view(records@),
                    es@[order@[p] as int].origin as int,
                    order@[p] as int,
                ),
        decreases on - k,
    {
        let id = order[k];
        let e = &es[id];
        proof {
            assert(entry_view(es@[id as int]) == ses[id as int]);
        }
        let raw: Vec<u8> = match &e.source {
            DataSource::File(p) => {
                match files.get(p.as_str()) {
                    Some(b) => copy_bytes(b),
                    None => {
                        proof {
                            assert(ses[id as int].source == SpecSource::File(p@));
                            assert(spec_raw(ses[id as int], fs) is None);
                        }
                        return Err(BuildError::ContentLoadFailure { fs_path: p.clone() });
                    },
                }
            },
            DataSource::Embedded(b) => copy_bytes(b),
        };
        proof {
            assert(Some(raw@) == spec_raw(ses[id as int], fs));
        }
        let ghost rawg = raw@;
        let row = &deps[id];
        proof {
            assert(deps.deep_view()[id as int] == dep_ids_of(ses, ses[id as int].deps));
            assert(deps.deep_view()[id as int] =~= row@);
            assert forall|t: int|
                0 <= t < row@.len() implies (#[trigger] row@[t]) < n && records@[row@[t] as int]
                is Some && row@[t] != id by {
                assert(deps.deep_view()[id as int][t] == row@[t]);
                assert(order@.take(k as int).contains(row@[t]));
                let p = choose|p: int|
                    0 <= p < k && #[trigger] order@.take(k as int)[p] == row@[t];
                assert(order@[p] == row@[t]);
                assert(records@[order@[p] as int] is Some);
                assert(order@[p] != order@[k as int]);
            }
        }
        let content: Vec<u8> = if e.custom {
            let ctx = gather_pairs(&records, row);
            match &bs[e.origin].modifier {
                Modifier::Custom { f, .. } => f.transform(raw, &ctx),
                _ => {
                    proof {
                        assert(ses[id as int].custom);
                        assert(false);
                    }
                    unreached()
                },
            }
        } else {
            let mut c = raw;
            let m = row.len();
            let mut t: usize = 0;
            proof {
                assert(row@.take(0) =~= Seq::<usize>::empty());
            }
            while t < m
                invariant
                    ses == views_of(es@),
                    fs == files.files@,
                    n == es@.len(),
                    records@.len() == n,
                    m == row@.len(),
                    0 <= t <= m,
                    forall|t2: int|
                        0 <= t2 < row@.len() ==> (#[trigger] row@[t2]) < n
                            && records@[row@[t2] as int] is Some,
                    c@ == sub_list(rawg, ses, opt_view(records@), row@.take(t as int)),
                decreases m - t,
            {
                let ti = row[t];
                let needle = es[ti].declared.as_str().as_bytes_vec();
                let repl = match &records[ti] {
                    Some(rec) => rec.path.as_str().as_bytes_vec(),
                    None => {
                        proof {
                            assert(false);
                        }
                        unreached()
                    },
                };
                proof {
                    assert(needle@ == encode_utf8(ses[ti as int].declared));
                    assert(repl@ == encode_utf8(opt_view(records@)[ti as int].path));
                }
                let c2 = substitute(&c, &needle, &repl);
                proof {
                    assert(row@.take(t + 1) =~= row@.take(t as int).push(row@[t as int]));
                    lemma_sub_list_snoc(
                        rawg,
                        ses,
                        opt_view(records@),
                        row@.take(t as int),
                        row@[t as int],
                    );
                }
                c = c2;
                t = t + 1;
            }
            proof {
                assert(row@.take(m as int) =~= row@);
            }
            c
        };
        let seg = compute_hash_segment(&content);
        let fp = match apply_path_hash(&e.policy, e.declared.as_str(), seg.as_str()) {
            Some(p2) => p2,
            None => {
                proof {
                    assert(spec_final_path(ses[id as int].policy, ses[id as int].declared, seg@)
                        is None);
                    assert(ses[id as int].policy matches PathHash::InBetween { prefix, suffix }
                        && !framed(ses[id as int].declared, prefix@, suffix@));
                    assert(!policies_framed(ses));
                    assert(ses[id as int].declared == e.declared@);
                }
                return Err(BuildError::MalformedHashInsertion { path: e.declared.clone() });
            },
        };
        let rec = ResolvedEntry { declared: e.declared.clone(), path: fp, content };
        let ghost rv0 = opt_view(records@);
        let ghost recg = rec@;
        records[id] = Some(rec);
        proof {
            let rv1 = opt_view(records@);
            assert(rv1 =~= rv0.update(id as int, recg));
            assert forall|i: int|
                0 <= i < n && (#[trigger] records@[i]) is Some implies order@.take(
                k + 1,
            ).contains(i as usize) by {
                if i == id as int {
                    assert(order@.take(k + 1)[k as int] == id);
                } else {
                    assert(order@.take(k as int).contains(i as usize));
                    let p = choose|p: int|
                        0 <= p < k && #[trigger] order@.take(k as int)[p] == i as usize;
                    assert(order@.take(k + 1)[p] == i as usize);
                }
            }
            assert forall|p: int|
                0 <= p < k + 1 implies rec_ok_at(ses, fs, rv1, (#[trigger] order@[p]) as int) by {
                let i = order@[p] as int;
                let ts = dep_ids_of(ses, ses[i].deps);
                assert(spec_graph(ses)[i] == ts);
                assert forall|t2: int|
                    0 <= t2 < ts.len() implies rv1[(#[trigger] ts[t2]) as int] == rv0[ts[t2] as int]
                    && ts[t2] < n by {
                    assert(deps.deep_view()[order@[p] as int][t2] == ts[t2]);
                    assert(order@.take(p).contains(ts[t2]));
                    let q = choose|q: int|
                        0 <= q < p && #[trigger] order@.take(p)[q] == ts[t2];
                    assert(order@[q] == ts[t2]);
                    assert(order@[q] != order@[k as int]);
                }
                lemma_sub_list_congr(spec_raw(ses[i], fs)->Some_0, ses, rv0, rv1, ts);
                assert(dep_pairs(rv1, ts) =~= dep_pairs(rv0, ts));
                if p < k {
                    assert(rec_ok_at(ses, fs, rv0, i));
                    assert(i != id as int);
                    assert(rv1[i] == rv0[i]);
                } else {
                    assert(i == id as int);
                    assert(rv1[i].content == recg.content);
                    if !ses[i].custom {
                        assert(rawg == spec_raw(ses[i], fs)->Some_0);
                        assert(ts == deps.deep_view()[id as int]);
                        assert(recg.content == sub_list(rawg, ses, rv0, ts));
                    }
                    assert(Some(rv1[i].path) == spec_final_path(
                        ses[i].policy,
                        ses[i].declared,
                        hash_segment(rv1[i].content),
                    ));
                }
            }
            assert forall|p: int|
                0 <= p < k + 1 && ses[(#[trigger] order@[p]) as int].custom implies custom_resolved_at(
                bs@,
                ses,
                fs,
                rv1,
                es@[order@[p] as int].origin as int,
                order@[p] as int,
            ) by {
                let i = order@[p] as int;
                let ts = dep_ids_of(ses, ses[i].deps);
                assert(spec_graph(ses)[i] == ts);
                assert forall|t2: int|
                    0 <= t2 < ts.len() implies rv1[(#[trigger] ts[t2]) as int] == rv0[ts[t2] as int] by {
                    assert(deps.deep_view()[order@[p] as int][t2] == ts[t2]);
                    assert(order@.take(p).contains(ts[t2]));
                    let q = choose|q: int|
                        0 <= q < p && #[trigger] order@.take(p)[q] == ts[t2];
                    assert(order@[q] == ts[t2]);
                    assert(order@[q] != order@[k as int]);
                }
                assert(dep_pairs(rv1, ts) =~= dep_pairs(rv0, ts));
                if p < k {
                    assert(custom_resolved_at(bs@, ses, fs, rv0, es@[i].origin as int, i));
                    assert(i != id as int);
                    assert(rv1[i] == rv0[i]);
                } else {
                    assert(i == id as int);
                    assert(rv1[i].content == recg.content);
                }
            }
        }
        k = k + 1;
    }
    proof {
        assert forall|i: int| 0 <= i < n implies (#[trigger] records@[i]) is Some by {
            lemma_permutation_complete(order@, i as usize);
            assert(order@.contains(i as usize));
            let p = choose|p: int| 0 <= p < order@.len() && order@[p] == i as usize;
            assert(records@[(order@[p]) as int] is Some);
        }
    }
    let mut rs: Vec<ResolvedEntry> = Vec::new();
    let mut i2: usize = 0;
    while i2 < n
        invariant
            records@.len() == n,
            forall|i: int| 0 <= i < n ==> (#[trigger] records@[i]) is Some,
            0 <= i2 <= n,
            rs@.len() == i2,
            forall|i: int| 0 <= i < i2 ==> (#[trigger] rs@[i])@ == records@[i]->Some_0@,
        decreases n - i2,
    {
        match &records[i2] {
            Some(rec) => rs.push(rec_dup(rec)),
            None => {
                proof {
                    assert(false);
                }
                unreached()
            },
        }
        i2 = i2 + 1;
    }
    proof {
        assert(recs_view(rs@) =~= opt_view(records@));
        assert forall|i: int| 0 <= i < n implies rec_ok_at(ses, fs, recs_view(rs@), i) by {
            lemma_permutation_complete(order@, i as usize);
            let p = choose|p: int| 0 <= p < order@.len() && order@[p] == i as usize;
            assert(order@.take(on as int) =~= order@);
            assert(rec_ok_at(ses, fs, opt_view(records@), order@[p] as int));
        }
        assert forall|i: int|
            0 <= i < n && ses[i].custom implies custom_resolved_at(
            bs@,
            ses,
            fs,
            recs_view(rs@),
            es@[i].origin as int,
            i,
        ) by {
            lemma_permutation_complete(order@, i as usize);
            let p = choose|p: int| 0 <= p < order@.len() && order@[p] == i as usize;
            assert(custom_resolved_at(bs@, ses, fs, opt_view(records@), es@[i].origin as int, i));
        }
    }
    Ok(rs)
}

proof fn lemma_table_from_recs(ses: Seq<SpecEntry>, fs: Seq<(String, Vec<u8>)>, rv: Seq<RRec>)
    requires
        rv.len() == ses.len(),
        forall|i: int| 0 <= i < ses.len() ==> rec_ok_at(ses, fs, rv, i),
    ensures
        table_ok(ses, fs, rv),
{
    assert forall|i: int| 0 <= i < ses.len() implies (#[trigger] rv[i]).declared
        == ses[i].declared by {
        assert(rec_ok_at(ses, fs, rv, i));
    }
    assert forall|i: int|
        0 <= i < ses.len() && !ses[i].custom implies (#[trigger] rv[i]).content == sub_list(
        spec_raw(ses[i], fs)->Some_0,
        ses,
        rv,
        dep_ids_of(ses, ses[i].deps),
    ) by {
        assert(rec_ok_at(ses, fs, rv, i));
    }
    assert forall|i: int| 0 <= i < ses.len() implies Some((#[trigger] rv[i]).path)
        == spec_final_path(ses[i].policy, ses[i].declared, hash_segment(rv[i].content)) by {
        assert(rec_ok_at(ses, fs, rv, i));
    }
}

fn find_declared_dup(es: &Vec<Entry>) -> (r: Option<usize>)
    ensures
        match r {
            Some(i) => i < es@.len() && !all_declared_unique(views_of(es@)) && exists|j: int|
                0 <= j < es@.len() && j != i && (#[trigger] views_of(es@)[j]).declared == views_of(
                    es@,
                )[i as int].declared,
            None => all_declared_unique(views_of(es@)),
        },
{
    let ghost ses = views_of(es@);
    let n = es.len();
    let mut i: usize = 0;
    while i < n
        invariant
            ses == views_of(es@),
            n == es@.len(),
            0 <= i <= n,
            forall|a: int, b: int|
                0 <= a < b < n && a < i ==> (#[trigger] ses[a]).declared != (
                #[trigger] ses[b]).declared,
        decreases n - i,
    {
        let mut j: usize = i + 1;
        while j < n
            invariant
                ses == views_of(es@),
                n == es@.len(),
                i < n,
                i < j <= n,
                forall|b: int| i < b < j ==> (#[trigger] ses[b]).declared != ses[i as int].declared,
            decreases n - j,
        {
            if es[i].declared == es[j].declared {
                proof {
                    assert(ses[i as int].declared == ses[j as int].declared);
                }
                return Some(i);
            }
            j = j + 1;
        }
        i = i + 1;
    }
    None
}

fn find_final_dup(rs: &Vec<ResolvedEntry>) -> (r: Option<usize>)
    ensures
        match r {
            Some(i) => i < rs@.len() && !finals_unique(recs_view(rs@)) && exists|j: int|
                0 <= j < rs@.len() && j != i && (#[trigger] recs_view(rs@)[j]).path == recs_view(
                    rs@,
                )[i as int].path,
            None => finals_unique(recs_view(rs@)),
        },
{
    let ghost rv = recs_view(rs@);
    let n = rs.len();
    let mut i: usize = 0;
    while i < n
        invariant
            rv == recs_view(rs@),
            n == rs@.len(),
            0 <= i <= n,
            forall|a: int, b: int|
                0 <= a < b < n && a < i ==> (#[trigger] rv[a]).path != (#[trigger] rv[b]).path,
        decreases n - i,
    {
        let mut j: usize = i + 1;
        while j < n
            invariant
                rv == recs_view(rs@),
                n == rs@.len(),
                i < n,
                i < j <= n,
                forall|b: int| i < b < j ==> (#[trigger] rv[b]).path != rv[i as int].path,
            decreases n - j,
        {
            if rs[i].path == rs[j].path {
                proof {
                    assert(rv[i as int].path == rv[j as int].path);
                }
                return Some(i);
            }
            j = j + 1;
        }
        i = i + 1;
    }
    None
}

impl<T: Transform> Builder<T> {
    /// Runs the whole resolution pipeline over the registered entries: they
    /// are expanded, the dependency graph over their declared dependency
    /// paths is built and ordered topologically, each entry's content is
    /// loaded from the store or its blob, modified, hashed, and given its
    /// final path, and the records are assembled into the immutable table.
    ///
    /// On success the table is a consistent resolution of the expanded
    /// entries with pairwise distinct declared and final paths; every error
    /// names its cause, and a build that could not have failed — unique
    /// declared paths, every dependency resolving, every file present, every
    /// hash insertion framing its path, no cycle, no caller-supplied
    /// transformation, and a collision-free resolution existing — succeeds.
    #[verifier::rlimit(100)]
    #[verifier::spinoff_prover]
    pub fn build(self, files: &FileStore) -> (r: Result<Assets, BuildError>)
        ensures
            ({
                let ses = spec_expand(self.assets@);
                let fs = files.files@;
                &&& match r {
                    Ok(a) => {
                        &&& table_ok(ses, fs, a@)
                        &&& finals_unique(a@)
                        &&& all_declared_unique(ses)
                        &&& all_deps_resolved(ses)
                        &&& sources_present(ses, fs)
                        &&& policies_framed(ses)
                        &&& acyclic(ses)
                        &&& forall|i: int|
                            0 <= i < ses.len() && (#[trigger] ses[i]).custom
                                ==> custom_resolved_at(
                                self.assets@,
                                ses,
                                fs,
                                a@,
                                spec_origins(self.assets@)[i],
                                i,
                            )
                    },
                    Err(e) => match e {
                        BuildError::UnresolvedDependency { dependent, path } => {
                            &&& !all_deps_resolved(ses)
                            &&& targets_for(ses, path@).len() == 0
                            &&& exists|i: int, d: int|
                                0 <= i < ses.len() && 0 <= d < ses[i].deps.len()
                                    && #[trigger] ses[i].deps[d] == path@ && ses[i].declared
                                    == dependent@
                        },
                        BuildError::CyclicDependency { cycle } => {
                            &&& !acyclic(ses)
                            &&& exists|ids: Seq<usize>|
                                is_cycle(spec_graph(ses), ids) && cycle.deep_view()
                                    == ids.map_values(|t: usize| ses[t as int].declared)
                        },
                        BuildError::ContentLoadFailure { fs_path } => {
                            &&& !sources_present(ses, fs)
                            &&& exists|i: int|
                                0 <= i < ses.len() && (#[trigger] ses[i]).source
                                    == SpecSource::File(fs_path@) && lookup_file(fs, fs_path@)
                                    is None
                        },
                        BuildError::PathCollision { path } => {
                            ||| exists|i: int, j: int|
                                #![trigger ses[i], ses[j]]
                                0 <= i < ses.len() && 0 <= j < ses.len() && i != j
                                    && ses[i].declared == ses[j].declared && ses[i].declared
                                    == path@
                            ||| exists|recs: Seq<RRec>|
                                table_ok(ses, fs, recs) && (exists|i: int, j: int|
                                    #![trigger recs[i], recs[j]]
                                    0 <= i < recs.len() && 0 <= j < recs.len() && i != j
                                        && recs[i].path == recs[j].path && recs[i].path == path@)
                        },
                        BuildError::MalformedHashInsertion { path } => {
                            &&& !policies_framed(ses)
                            &&& exists|i: int|
                                0 <= i < ses.len() && (#[trigger] ses[i]).declared == path@ && (
                                ses[i].policy matches PathHash::InBetween { prefix, suffix }
                                    && !framed(ses[i].declared, prefix@, suffix@))
                        },
                    },
                }
                &&& buildable(ses, fs) ==> r is Ok
            }),
    {
        let ghost fs = files.files@;
        let es = expand(&self.assets);
        let ghost ses = views_of(es@);
        proof {
            assert(ses == spec_expand(self.assets@));
        }
        if let Some(i) = find_declared_dup(&es) {
            proof {
                let j = choose|j: int|
                    0 <= j < es@.len() && j != i as int && (#[trigger] views_of(es@)[j]).declared
                        == views_of(es@)[i as int].declared;
                assert(ses[j].declared == ses[i as int].declared);
            }
            return Err(BuildError::PathCollision { path: es[i].declared.clone() });
        }
        let deps = match build_graph(&es) {
            Ok(d) => d,
            Err(e) => {
                return Err(e);
            },
        };
        let order = match topo_order(&deps) {
            Ok(o) => o,
            Err(cyc) => {
                let mut names: Vec<String> = Vec::new();
                let cn = cyc.len();
                let mut ci: usize = 0;
                proof {
                    assert(is_cycle(deps.deep_view(), cyc@));
                }
                while ci < cn
                    invariant
                        ses == views_of(es@),
                        cn == cyc@.len(),
                        0 <= ci <= cn,
                        forall|k: int| 0 <= k < cn ==> (#[trigger] cyc@[k]) < es@.len(),
                        names@.len() == ci,
                        forall|k: int|
                            0 <= k < ci ==> (#[trigger] names@[k])@ == ses[cyc@[k] as int].declared,
                    decreases cn - ci,
                {
                    names.push(es[cyc[ci]].declared.clone());
                    ci = ci + 1;
                }
                proof {
                    assert(names.deep_view() =~= cyc@.map_values(
                        |t: usize| ses[t as int].declared,
                    ));
                    assert forall|o: Seq<usize>| !valid_topo(spec_graph(ses), o) by {
                        if o.len() == spec_graph(ses).len() {
                            lemma_cycle_excludes_topo(spec_graph(ses), cyc@, o);
                        }
                    }
                }
                return Err(BuildError::CyclicDependency { cycle: names });
            },
        };
        let rs = match resolve_all(&self.assets, &es, &deps, &order, files) {
            Ok(rs) => rs,
            Err(e) => {
                return Err(e);
            },
        };
        proof {
            assert forall|i: int| 0 <= i < ses.len() implies spec_raw(
                #[trigger] ses[i],
                fs,
            ) is Some by {
                assert(rec_ok_at(ses, fs, recs_view(rs@), i));
            }
        }
        if let Some(i) = find_final_dup(&rs) {
            proof {
                lemma_table_from_recs(ses, fs, recs_view(rs@));
                let j = choose|j: int|
                    0 <= j < rs@.len() && j != i as int && (#[trigger] recs_view(rs@)[j]).path
                        == recs_view(rs@)[i as int].path;
                assert(recs_view(rs@)[j].path == recs_view(rs@)[i as int].path);
                if all_declared_unique(ses) && no_custom(ses) {
                    if exists|recs: Seq<RRec>| table_ok(ses, fs, recs) && finals_unique(recs) {
                        let recs = choose|recs: Seq<RRec>|
                            table_ok(ses, fs, recs) && finals_unique(recs);
                        lemma_resolution_deterministic(ses, fs, recs_view(rs@), recs, order@);
                        assert(!finals_unique(recs_view(rs@)));
                        assert(false);
                    }
                }
            }
            return Err(BuildError::PathCollision { path: rs[i].path.clone() });
        }
        let a = Assets { records: rs };
        proof {
            assert(valid_topo(spec_graph(ses), order@));
            assert(acyclic(ses));
            assert(a@ =~= recs_view(a.records@));
            lemma_table_from_recs(ses, fs, a@);
            assert forall|i: int|
                0 <= i < ses.len() && (#[trigger] ses[i]).custom implies custom_resolved_at(
                self.assets@,
                ses,
                fs,
                a@,
                spec_origins(self.assets@)[i],
                i,
            ) by {
                assert(custom_resolved_at(
                    self.assets@,
                    ses,
                    fs,
                    recs_view(a.records@),
                    es@[i].origin as int,
                    i,
                ));
                assert(es@[i].origin as int == spec_origins(self.assets@)[i]);
            }
            assert forall|i: int|
                0 <= i < ses.len() implies ((#[trigger] ses[i]).policy matches PathHash::InBetween {
                prefix,
                suffix,
            } ==> framed(ses[i].declared, prefix@, suffix@)) by {
                assert(rec_ok_at(ses, fs, a@, i));
                match ses[i].policy {
                    PathHash::InBetween { prefix, suffix } => {
                        if !framed(ses[i].declared, prefix@, suffix@) {
                            assert(spec_final_path(
                                ses[i].policy,
                                ses[i].declared,
                                hash_segment(a@[i].content),
                            ) is None);
                        }
                    },
                    _ => {},
                }
            }
        }
        Ok(a)
    }
}

} // verus!

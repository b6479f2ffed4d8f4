//! The mutable staging structure: entries are registered one by one (single
//! files, embedded files, embedded globs), each optionally given a hash
//! policy and a modifier, and the whole set is later consumed by the
//! resolution pipeline.

use vstd::prelude::*;
use vstd::string::StrSliceExecFns;
use vstd::string::StringExecFns;

use crate::paths::{glob_prefix_len, PathHash, SplitGlob};
use crate::substitute::copy_bytes;

verus! {

/// The mathematical view of a data source: the file path or the blob bytes.
pub ghost enum SpecSource {
    File(Seq<char>),
    Embedded(Seq<u8>),
}

/// Where an entry's raw bytes come from: a file on disk (read at resolution
/// time) or an embedded blob (already in memory).
#[derive(Debug)]
pub enum DataSource {
    File(String),
    Embedded(Vec<u8>),
}

impl DataSource {
    /// The view of this source.
    pub open spec fn view(&self) -> SpecSource {
        match *self {
            DataSource::File(p) => SpecSource::File(p@),
            DataSource::Embedded(b) => SpecSource::Embedded(b@),
        }
    }

    /// A copy with the same view.
    pub fn dup(&self) -> (r: Self)
        ensures
            r@ == self@,
    {
        match self {
            DataSource::File(p) => DataSource::File(p.clone()),
            DataSource::Embedded(b) => DataSource::Embedded(copy_bytes(b)),
        }
    }
}

/// An embedded file: its original path and its byte content.
#[derive(Debug)]
pub struct EmbeddedFile {
    pub path: String,
    pub content: Vec<u8>,
}

impl EmbeddedFile {
    /// The data source serving this file's bytes.
    pub fn data_source(&self) -> (r: DataSource)
        ensures
            r@ == SpecSource::Embedded(self.content@),
    {
        DataSource::Embedded(copy_bytes(&self.content))
    }
}

/// An embedded glob: the pattern it was declared with and the files that
/// matched it.
#[derive(Debug)]
pub struct EmbeddedGlob {
    pub pattern: String,
    pub files: Vec<EmbeddedFile>,
}

/// One embedded registration: a single file or a glob.
#[derive(Debug)]
pub enum EmbeddedEntry {
    Single(EmbeddedFile),
    Glob(EmbeddedGlob),
}

/// The read-only view a custom modifier receives: the final resolved paths
/// of exactly its declared dependencies, keyed by their declared paths.
#[derive(Debug)]
pub struct ModifierContext {
    pub pairs: Vec<(String, String)>,
}

impl ModifierContext {
    /// The pairs as mathematical values: one `(declared path, final path)`
    /// per dependency, in dependency order.
    pub open spec fn pairs_view(&self) -> Seq<(Seq<char>, Seq<char>)> {
        Seq::new(self.pairs@.len(), |k: int| (self.pairs@[k].0@, self.pairs@[k].1@))
    }

    /// The final path resolved for the dependency declared under `declared`:
    /// the second component of the first pair whose first component is equal
    /// to it, if any.
    pub fn resolve_path(&self, declared: &str) -> (r: Option<&String>)
        ensures
            match r {
                Some(f) => exists|i: int|
                    0 <= i < self.pairs@.len() && self.pairs@[i].0@ == declared@ && f
                        == &self.pairs@[i].1 && forall|j: int|
                        0 <= j < i ==> self.pairs@[j].0@ != declared@,
                None => forall|i: int|
                    0 <= i < self.pairs@.len() ==> self.pairs@[i].0@ != declared@,
            },
    {
        let d = declared.to_owned();
        let n = self.pairs.len();
        let mut i: usize = 0;
        while i < n
            invariant
                n == self.pairs@.len(),
                0 <= i <= n,
                forall|j: int| 0 <= j < i ==> self.pairs@[j].0@ != declared@,
            decreases n - i,
        {
            if self.pairs[i].0 == d {
                return Some(&self.pairs[i].1);
            }
            i = i + 1;
        }
        None
    }
}

/// The capability a custom modifier supplies: a pure mapping from an entry's
/// raw bytes and the final paths of its declared dependencies to its new
/// bytes.  `transform_rel` is the relation an implementation promises
/// between the raw bytes, the `(declared path, final path)` pairs it is
/// handed, and its result; it defaults to the trivial relation, so plain
/// implementations stay honest, and an implementation verified with this
/// crate can strengthen it.  The pipeline's contract carries the relation,
/// over exactly the entry's raw bytes and its resolved dependency pairs, to
/// the entry's resolved content.
pub trait Transform {
    /// What this transformation promises of its result, given the entry's
    /// raw bytes and the dependency pairs it was handed.
    open spec fn transform_rel(
        &self,
        content: Seq<u8>,
        deps: Seq<(Seq<char>, Seq<char>)>,
        out: Seq<u8>,
    ) -> bool {
        true
    }

    /// Transforms the entry's bytes, given the final paths of its declared
    /// dependencies.
    fn transform(&self, content: Vec<u8>, ctx: &ModifierContext) -> (r: Vec<u8>)
        ensures
            self.transform_rel(content@, ctx.pairs_view(), r@),
    ;
}

/// The content transformation attached to an entry.
#[derive(Debug)]
pub enum Modifier<T> {
    /// Bytes pass through unchanged; no dependencies.
    Plain,
    /// Every occurrence of a dependency's declared path in the entry's bytes
    /// is replaced by that dependency's final path.
    PathFixup(Vec<String>),
    /// A caller-supplied transformation, invoked with the entry's bytes and
    /// the final paths of the declared dependencies.
    Custom { f: T, deps: Vec<String> },
}

/// One file matched by a glob: the path suffix below the glob's literal
/// prefix, and the source of its bytes.
#[derive(Debug)]
pub struct GlobFile {
    pub suffix: String,
    pub source: DataSource,
}

impl GlobFile {
    /// The declared HTTP path this file is mounted at under the given
    /// HTTP prefix.
    pub fn http_path(&self, http_prefix: &str) -> (r: String)
        ensures
            r@ == http_prefix@ + self.suffix@,
    {
        let mut s = http_prefix.to_owned();
        s.append(self.suffix.as_str());
        s
    }
}

/// The shape of one registration: a single declared path, or a glob whose
/// files each mount at prefix-plus-suffix.
#[derive(Debug)]
pub enum EntryBuilderKind {
    Single { http_path: String, source: DataSource },
    Glob { http_prefix: String, glob: SplitGlob, files: Vec<GlobFile> },
}

/// One registered entry: its shape, its hash policy and its modifier.
#[derive(Debug)]
pub struct EntryBuilder<T> {
    pub kind: EntryBuilderKind,
    pub path_hash: PathHash,
    pub modifier: Modifier<T>,
}

impl<T> EntryBuilder<T> {
    /// Attaches the automatic hash policy: the content hash is inserted
    /// before the last path segment's extension.
    pub fn with_hash(&mut self)
        ensures
            final(self).kind == old(self).kind,
            final(self).modifier == old(self).modifier,
            final(self).path_hash == PathHash::Auto,
    {
        self.path_hash = PathHash::Auto;
    }

    /// Like [`Self::with_hash`], but the hash is inserted between the given
    /// prefix and suffix, which must frame the declared path.
    pub fn with_hash_between(&mut self, prefix: &str, suffix: &str)
        ensures
            final(self).kind == old(self).kind,
            final(self).modifier == old(self).modifier,
            final(self).path_hash matches PathHash::InBetween { prefix: p, suffix: s }
                && p@ == prefix@ && s@ == suffix@,
    {
        self.path_hash = PathHash::InBetween {
            prefix: prefix.to_owned(),
            suffix: suffix.to_owned(),
        };
    }

    /// Attaches a path-fixup modifier: every occurrence of one of the given
    /// declared paths in this entry's content is replaced by that entry's
    /// final path.
    pub fn with_path_fixup(&mut self, paths: Vec<String>)
        ensures
            final(self).kind == old(self).kind,
            final(self).path_hash == old(self).path_hash,
            final(self).modifier == Modifier::<T>::PathFixup(paths),
    {
        self.modifier = Modifier::PathFixup(paths);
    }

    /// Attaches a custom modifier with its declared dependency paths.
    pub fn with_modifier(&mut self, dependencies: Vec<String>, modifier: T)
        ensures
            final(self).kind == old(self).kind,
            final(self).path_hash == old(self).path_hash,
            final(self).modifier == (Modifier::Custom { f: modifier, deps: dependencies }),
    {
        self.modifier = Modifier::Custom { f: modifier, deps: dependencies };
    }

    /// All declared (unhashed) HTTP paths mounted by this entry; useful as
    /// dependencies of another entry's modifier.
    pub fn http_paths(&self) -> (r: Vec<String>)
        ensures
            match self.kind {
                EntryBuilderKind::Single { http_path, .. } => r@.len() == 1 && r@[0]@
                    == http_path@,
                EntryBuilderKind::Glob { http_prefix, files, .. } => r@.len() == files@.len()
                    && forall|k: int|
                    0 <= k < files@.len() ==> r@[k]@ == http_prefix@ + files@[k].suffix@,
            },
    {
        match &self.kind {
            EntryBuilderKind::Single { http_path, .. } => {
                let mut r: Vec<String> = Vec::new();
                r.push(http_path.clone());
                r
            },
            EntryBuilderKind::Glob { http_prefix, files, .. } => {
                let mut r: Vec<String> = Vec::new();
                let n = files.len();
                let mut i: usize = 0;
                while i < n
                    invariant
                        n == files@.len(),
                        0 <= i <= n,
                        r@.len() == i,
                        forall|k: int|
                            0 <= k < i ==> r@[k]@ == http_prefix@ + files@[k].suffix@,
                    decreases n - i,
                {
                    r.push(files[i].http_path(http_prefix.as_str()));
                    i = i + 1;
                }
                r
            },
        }
    }

    /// The single declared HTTP path of this entry, or `None` if it mounts
    /// more or fewer than one.
    pub fn single_http_path(&self) -> (r: Option<String>)
        ensures
            match self.kind {
                EntryBuilderKind::Single { http_path, .. } => r matches Some(p) && p@
                    == http_path@,
                EntryBuilderKind::Glob { http_prefix, files, .. } => {
                    if files@.len() == 1 {
                        r matches Some(p) && p@ == http_prefix@ + files@[0].suffix@
                    } else {
                        r is None
                    }
                },
            },
    {
        match &self.kind {
            EntryBuilderKind::Single { http_path, .. } => Some(http_path.clone()),
            EntryBuilderKind::Glob { http_prefix, files, .. } => {
                if files.len() == 1 {
                    Some(files[0].http_path(http_prefix.as_str()))
                } else {
                    None
                }
            },
        }
    }
}

/// Whether the entries of `new` are those of `old` with one single-path
/// entry appended: declared path `hp`, source `src`, no hash, no modifier.
pub open spec fn pushed_single<T>(
    old: Seq<EntryBuilder<T>>,
    new: Seq<EntryBuilder<T>>,
    hp: Seq<char>,
    src: SpecSource,
) -> bool {
    &&& new.len() == old.len() + 1
    &&& forall|j: int| 0 <= j < old.len() ==> new[j] == old[j]
    &&& new.last().kind matches EntryBuilderKind::Single { http_path, source } && http_path@
        == hp && source@ == src
    &&& new.last().path_hash == PathHash::Plain
    &&& new.last().modifier == Modifier::<T>::Plain
}

/// Whether the entries of `new` are those of `old` with one glob entry
/// appended for `g`, mounted under `hp`: one file per matched file, each
/// with the path suffix below the glob's literal prefix, no hash and no
/// modifier.
pub open spec fn pushed_glob<T>(
    old: Seq<EntryBuilder<T>>,
    new: Seq<EntryBuilder<T>>,
    hp: Seq<char>,
    g: EmbeddedGlob,
) -> bool {
    &&& new.len() == old.len() + 1
    &&& forall|j: int| 0 <= j < old.len() ==> new[j] == old[j]
    &&& new.last().kind matches EntryBuilderKind::Glob { http_prefix, glob, files }
        && http_prefix@ == hp && glob.prefix@ == g.pattern@.take(glob_prefix_len(g.pattern@))
        && glob.rest@ == g.pattern@.skip(glob_prefix_len(g.pattern@)) && files@.len()
        == g.files@.len() && forall|k: int|
        0 <= k < files@.len() ==> files@[k].suffix@ == g.files@[k].path@.skip(
            glob_prefix_len(g.pattern@),
        ) && files@[k].source@ == SpecSource::Embedded(g.files@[k].content@)
    &&& new.last().path_hash == PathHash::Plain
    &&& new.last().modifier == Modifier::<T>::Plain
}

/// Whether every file of the glob lies under the glob's literal prefix.
pub open spec fn glob_files_under_prefix(g: EmbeddedGlob) -> bool {
    forall|k: int|
        0 <= k < g.files@.len() ==> glob_prefix_len(g.pattern@) <= (
        #[trigger] g.files@[k]).path@.len() && g.files@[k].path@.take(glob_prefix_len(g.pattern@))
            == g.pattern@.take(glob_prefix_len(g.pattern@))
}

/// Builds the set of entries the resolution pipeline consumes.
#[derive(Debug)]
pub struct Builder<T> {
    pub assets: Vec<EntryBuilder<T>>,
}

impl<T> Builder<T> {
    /// An empty builder.
    pub fn new() -> (r: Self)
        ensures
            r.assets@.len() == 0,
    {
        Builder { assets: Vec::new() }
    }

    /// Registers a single file read from disk at resolution time, mounted at
    /// the given HTTP path.  Returns the entry's index, through which a hash
    /// policy or modifier can be attached.
    pub fn add_file(&mut self, http_path: &str, fs_path: &str) -> (i: usize)
        ensures
            i == old(self).assets@.len(),
            pushed_single(
                old(self).assets@,
                final(self).assets@,
                http_path@,
                SpecSource::File(fs_path@),
            ),
    {
        let i = self.assets.len();
        self.assets.push(
            EntryBuilder {
                kind: EntryBuilderKind::Single {
                    http_path: http_path.to_owned(),
                    source: DataSource::File(fs_path.to_owned()),
                },
                path_hash: PathHash::Plain,
                modifier: Modifier::Plain,
            },
        );
        i
    }

    /// Registers a single embedded file, mounted at the given HTTP path.
    /// Returns the entry's index.
    pub fn add_embedded_file(&mut self, http_path: &str, file: &EmbeddedFile) -> (i: usize)
        ensures
            i == old(self).assets@.len(),
            pushed_single(
                old(self).assets@,
                final(self).assets@,
                http_path@,
                SpecSource::Embedded(file.content@),
            ),
    {
        let i = self.assets.len();
        self.assets.push(
            EntryBuilder {
                kind: EntryBuilderKind::Single {
                    http_path: http_path.to_owned(),
                    source: file.data_source(),
                },
                path_hash: PathHash::Plain,
                modifier: Modifier::Plain,
            },
        );
        i
    }

    /// Registers an embedded glob, mounted under the given HTTP prefix: each
    /// matched file mounts at the prefix plus its path below the glob's
    /// literal prefix.  Returns the entry's index.
    pub fn add_embedded_glob(&mut self, http_path: &str, glob: &EmbeddedGlob) -> (i: usize)
        requires
            glob_files_under_prefix(*glob),
        ensures
            i == old(self).assets@.len(),
            pushed_glob(old(self).assets@, final(self).assets@, http_path@, *glob),
    {
        let split_glob = SplitGlob::new(glob.pattern.as_str());
        let plen = split_glob.prefix.unicode_len();
        let mut files: Vec<GlobFile> = Vec::new();
        let n = glob.files.len();
        let mut k: usize = 0;
        while k < n
            invariant
                glob_files_under_prefix(*glob),
                n == glob.files@.len(),
                plen as int == glob_prefix_len(glob.pattern@),
                0 <= k <= n,
                files@.len() == k,
                forall|j: int|
                    0 <= j < k ==> files@[j].suffix@ == glob.files@[j].path@.skip(plen as int)
                        && files@[j].source@ == SpecSource::Embedded(glob.files@[j].content@),
            decreases n - k,
        {
            let f = &glob.files[k];
            let flen = f.path.unicode_len();
            let suffix = f.path.substring_char(plen, flen).to_owned();
            files.push(GlobFile { suffix, source: f.data_source() });
            k = k + 1;
        }
        let i = self.assets.len();
        self.assets.push(
            EntryBuilder {
                kind: EntryBuilderKind::Glob {
                    http_prefix: http_path.to_owned(),
                    glob: split_glob,
                    files,
                },
                path_hash: PathHash::Plain,
                modifier: Modifier::Plain,
            },
        );
        i
    }

    /// Registers an embedded entry of either shape, mounted at the given
    /// HTTP path or prefix.  Returns the entry's index.
    pub fn add_embedded(&mut self, http_path: &str, entry: &EmbeddedEntry) -> (i: usize)
        requires
            *entry matches EmbeddedEntry::Glob(g) ==> glob_files_under_prefix(g),
        ensures
            i == old(self).assets@.len(),
            match *entry {
                EmbeddedEntry::Single(f) => pushed_single(
                    old(self).assets@,
                    final(self).assets@,
                    http_path@,
                    SpecSource::Embedded(f.content@),
                ),
                EmbeddedEntry::Glob(g) => pushed_glob(
                    old(self).assets@,
                    final(self).assets@,
                    http_path@,
                    g,
                ),
            },
    {
        match entry {
            EmbeddedEntry::Single(file) => self.add_embedded_file(http_path, file),
            EmbeddedEntry::Glob(glob) => self.add_embedded_glob(http_path, glob),
        }
    }
}

} // verus!

//! The compile-time description of a static asset list: a table of asset
//! definitions together with a map from declared HTTP path to asset id.

use vstd::prelude::*;
use vstd::string::StringExecFns;

verus! {

/// Simple id referring to one asset of a [`Setup`].
#[derive(Debug, Clone, Copy, PartialEq, Eq, Structural)]
pub struct AssetId(pub u32);

/// One asset of a static asset list: its declared path and the flags that
/// govern how it is served and resolved.
#[derive(Debug, Clone)]
pub struct AssetDef {
    pub path: String,
    pub serve: bool,
    pub dynamic: bool,
    pub hash: bool,
    pub template: bool,
    pub append: Option<String>,
    pub prepend: Option<String>,
}

/// Maps a declared HTTP path to the id of the asset registered under it.
/// The id of a path is its index in the path table.
#[derive(Debug, Clone)]
pub struct PathToIdMap(pub Vec<String>);

/// A whole static asset list: the definitions, the path-to-id map and the
/// base path the list was declared relative to.
#[derive(Debug, Clone)]
pub struct Setup {
    pub assets: Vec<AssetDef>,
    pub path_map: PathToIdMap,
    pub base_path: String,
}

impl Setup {
    /// Looks up the definition registered under the given declared path:
    /// the definition at the index `path_to_id` reports, if any.
    pub fn asset_by_path(&self, path: &str) -> (r: Option<&AssetDef>)
        requires
            self.path_map.0@.len() <= self.assets@.len(),
            self.path_map.0@.len() <= u32::MAX as int,
        ensures
            match r {
                Some(d) => exists|i: int|
                    0 <= i < self.path_map.0@.len() && (#[trigger] self.path_map.0@[i])@ == path@
                        && (forall|j: int| 0 <= j < i ==> self.path_map.0@[j]@ != path@) && d
                        == &self.assets@[i],
                None => forall|i: int|
                    0 <= i < self.path_map.0@.len() ==> self.path_map.0@[i]@ != path@,
            },
    {
        match self.path_to_id(path) {
            Some(id) => {
                let d = self.def(id);
                proof {
                    assert(self.path_map.0@[id.0 as int]@ == path@);
                }
                Some(d)
            },
            None => None,
        }
    }

    /// The id registered for the given declared path: the index of the first
    /// entry of the path table equal to it, if any.
    pub fn path_to_id(&self, path: &str) -> (r: Option<AssetId>)
        requires
            self.path_map.0@.len() <= u32::MAX as int,
        ensures
            match r {
                Some(id) => 0 <= id.0 < self.path_map.0@.len()
                    && self.path_map.0@[id.0 as int]@ == path@ && forall|j: int|
                    0 <= j < id.0 as int ==> self.path_map.0@[j]@ != path@,
                None => forall|j: int|
                    0 <= j < self.path_map.0@.len() ==> self.path_map.0@[j]@ != path@,
            },
    {
        let p = path.to_owned();
        let n = self.path_map.0.len();
        let mut i: usize = 0;
        while i < n
            invariant
                0 <= i <= n,
                forall|j: int| 0 <= j < i ==> self.path_map.0@[j]@ != path@,
            decreases n - i,
        {
            if self.path_map.0[i] == p {
                return Some(AssetId(i as u32));
            }
            i = i + 1;
        }
        None
    }

    /// The definition belonging to an id handed out for this setup.
    pub fn def(&self, id: AssetId) -> (r: &AssetDef)
        requires
            id.0 < self.assets@.len(),
        ensures
            r == &self.assets@[id.0 as int],
    {
        &self.assets[id.0 as usize]
    }
}

/// The on-disk location of a declared asset path: below `base` inside the
/// project directory where a base is set, the path itself otherwise.  The
/// project directory is handed in by the caller, who knows the build
/// environment.
pub fn resolve_path(project_dir: &str, base: &Option<String>, path: &str) -> (r: String)
    ensures
        match base {
            Some(b) => r@ == project_dir@ + seq!['/'] + b@ + seq!['/'] + path@,
            None => r@ == path@,
        },
{
    match base {
        Some(b) => {
            let mut s = project_dir.to_owned();
            s.append("/");
            s.append(b.as_str());
            s.append("/");
            s.append(path);
            proof {
                reveal_strlit("/");
                assert(s@ =~= project_dir@ + seq!['/'] + b@ + seq!['/'] + path@);
            }
            s
        },
        None => path.to_owned(),
    }
}

} // verus!

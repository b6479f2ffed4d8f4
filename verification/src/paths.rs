//! Final-path computation: where a content hash segment is inserted into a
//! declared HTTP path, and how a glob pattern splits into its literal prefix
//! and remaining wildcard pattern.

use vstd::prelude::*;
use vstd::string::StrSliceExecFns;
use vstd::string::StringExecFns;

verus! {

/// The rule governing whether and where a hash segment is inserted into an
/// entry's declared path.
#[derive(Debug)]
pub enum PathHash {
    /// The declared path is used unchanged.
    Plain,
    /// The hash is inserted immediately before the last path segment's
    /// extension; a last segment without an extension has the hash appended.
    Auto,
    /// The path is rebuilt as `prefix + hash + suffix`; the declared path
    /// must begin with `prefix` and end with `suffix`.
    InBetween { prefix: String, suffix: String },
}

impl PathHash {
    /// A structurally equal copy.
    pub fn dup(&self) -> (r: Self)
        ensures
            r == *self,
    {
        match self {
            PathHash::Plain => PathHash::Plain,
            PathHash::Auto => PathHash::Auto,
            PathHash::InBetween { prefix, suffix } => PathHash::InBetween {
                prefix: prefix.clone(),
                suffix: suffix.clone(),
            },
        }
    }
}

/// The position of the last path segment's extension dot: the index of the
/// last `'.'` that stands after the last `'/'`, if any.
pub open spec fn auto_split_at(p: Seq<char>) -> Option<int>
    decreases p.len(),
{
    if p.len() == 0 {
        None
    } else if p.last() == '/' {
        None
    } else if p.last() == '.' {
        Some(p.len() - 1)
    } else {
        auto_split_at(p.drop_last())
    }
}

/// The declared path with the hash segment inserted before the extension of
/// its last segment, or appended after a dot if that segment has none.
pub open spec fn auto_hashed_path(p: Seq<char>, seg: Seq<char>) -> Seq<char> {
    match auto_split_at(p) {
        Some(i) => p.take(i) + seq!['.'] + seg + p.skip(i),
        None => p + seq!['.'] + seg,
    }
}

/// Whether `pre` and `suf` frame the path `p`: `p` begins with `pre`, ends
/// with `suf`, and is long enough to hold both.
pub open spec fn framed(p: Seq<char>, pre: Seq<char>, suf: Seq<char>) -> bool {
    &&& pre.len() + suf.len() <= p.len()
    &&& p.take(pre.len() as int) == pre
    &&& p.skip(p.len() - suf.len()) == suf
}

/// The final path an entry is served at, given its declared path, its hash
/// policy and the hash segment of its final content.  `None` marks a
/// malformed insertion: an `InBetween` policy that does not frame the path.
pub open spec fn spec_final_path(ph: PathHash, declared: Seq<char>, seg: Seq<char>) -> Option<
    Seq<char>,
> {
    match ph {
        PathHash::Plain => Some(declared),
        PathHash::Auto => Some(auto_hashed_path(declared, seg)),
        PathHash::InBetween { prefix, suffix } => if framed(declared, prefix@, suffix@) {
            Some(prefix@ + seg + suffix@)
        } else {
            None
        },
    }
}

fn find_auto_split(p: &str) -> (r: Option<usize>)
    ensures
        match r {
            Some(i) => auto_split_at(p@) == Some(i as int) && i < p@.len(),
            None => auto_split_at(p@) is None,
        },
{
    let n = p.unicode_len();
    let mut i: usize = n;
    proof {
        assert(p@.take(n as int) =~= p@);
    }
    while i > 0
        invariant
            0 <= i <= n,
            n == p@.len(),
            auto_split_at(p@) == auto_split_at(p@.take(i as int)),
        decreases i,
    {
        let c = p.get_char(i - 1);
        proof {
            let t = p@.take(i as int);
            assert(t.last() == p@[i - 1]);
            assert(t.drop_last() =~= p@.take(i - 1));
        }
        if c == '/' {
            return None;
        }
        if c == '.' {
            return Some(i - 1);
        }
        i = i - 1;
    }
    proof {
        assert(p@.take(0) =~= Seq::<char>::empty());
    }
    None
}

/// Computes the final path for a declared path under a hash policy, with the
/// given hash segment; reports a malformed `InBetween` insertion as `None`.
pub fn apply_path_hash(ph: &PathHash, declared: &str, seg: &str) -> (r: Option<String>)
    ensures
        match r {
            Some(s) => spec_final_path(*ph, declared@, seg@) == Some(s@),
            None => spec_final_path(*ph, declared@, seg@) is None,
        },
{
    match ph {
        PathHash::Plain => Some(declared.to_owned()),
        PathHash::Auto => {
            let n = declared.unicode_len();
            let mut out = String::new();
            match find_auto_split(declared) {
                Some(i) => {
                    out.append(declared.substring_char(0, i));
                    out.append(".");
                    out.append(seg);
                    out.append(declared.substring_char(i, n));
                    proof {
                        reveal_strlit(".");
                        assert(out@ =~= auto_hashed_path(declared@, seg@));
                    }
                    Some(out)
                },
                None => {
                    out.append(declared);
                    out.append(".");
                    out.append(seg);
                    proof {
                        reveal_strlit(".");
                        assert(out@ =~= auto_hashed_path(declared@, seg@));
                    }
                    Some(out)
                },
            }
        },
        PathHash::InBetween { prefix, suffix } => {
            if is_framed(declared, prefix.as_str(), suffix.as_str()) {
                let mut out = String::new();
                out.append(prefix.as_str());
                out.append(seg);
                out.append(suffix.as_str());
                proof {
                    assert(out@ =~= prefix@ + seg@ + suffix@);
                }
                Some(out)
            } else {
                None
            }
        },
    }
}

/// Decides whether `pre` and `suf` frame the path `p`.
pub fn is_framed(p: &str, pre: &str, suf: &str) -> (r: bool)
    ensures
        r == framed(p@, pre@, suf@),
{
    let n = p.unicode_len();
    let np = pre.unicode_len();
    let ns = suf.unicode_len();
    if np > n || ns > n - np {
        return false;
    }
    let mut i: usize = 0;
    while i < np
        invariant
            n == p@.len(),
            np == pre@.len(),
            ns == suf@.len(),
            np + ns <= n,
            0 <= i <= np,
            forall|k: int| 0 <= k < i ==> p@[k] == pre@[k],
        decreases np - i,
    {
        if p.get_char(i) != pre.get_char(i) {
            proof {
                assert(p@.take(np as int)[i as int] == p@[i as int]);
            }
            return false;
        }
        i = i + 1;
    }
    let off = n - ns;
    let mut j: usize = 0;
    while j < ns
        invariant
            n == p@.len(),
            np == pre@.len(),
            ns == suf@.len(),
            np + ns <= n,
            off == n - ns,
            0 <= j <= ns,
            forall|k: int| 0 <= k < i ==> p@[k] == pre@[k],
            i == np,
            forall|k: int| 0 <= k < j ==> p@[off + k] == suf@[k],
        decreases ns - j,
    {
        if p.get_char(off + j) != suf.get_char(j) {
            proof {
                assert(p@.skip(off as int)[j as int] == p@[off + j]);
            }
            return false;
        }
        j = j + 1;
    }
    proof {
        assert(p@.take(np as int) =~= pre@);
        assert(p@.skip(off as int) =~= suf@);
    }
    true
}

/// Whether a character is a glob wildcard.
pub open spec fn is_wildcard(c: char) -> bool {
    c == '*' || c == '?' || c == '['
}

/// The length of the longest wildcard-free prefix of a pattern.
pub open spec fn glob_prefix_len(p: Seq<char>) -> int
    decreases p.len(),
{
    if p.len() == 0 {
        0
    } else if is_wildcard(p.first()) {
        0
    } else {
        1 + glob_prefix_len(p.drop_first())
    }
}

/// The literal prefix is never longer than the pattern.
pub proof fn lemma_glob_prefix_len_bounds(p: Seq<char>)
    ensures
        0 <= glob_prefix_len(p) <= p.len(),
    decreases p.len(),
{
    if p.len() != 0 && !is_wildcard(p.first()) {
        lemma_glob_prefix_len_bounds(p.drop_first());
    }
}

proof fn lemma_glob_prefix_len(p: Seq<char>, i: int)
    requires
        0 <= i <= p.len(),
        forall|j: int| 0 <= j < i ==> !is_wildcard(p[j]),
        i == p.len() || is_wildcard(p[i]),
    ensures
        glob_prefix_len(p) == i,
    decreases i,
{
    if i == 0 {
    } else {
        assert(!is_wildcard(p.first()));
        lemma_glob_prefix_len(p.drop_first(), i - 1);
    }
}

fn wildcard_at(p: &str, i: usize) -> (r: bool)
    requires
        i < p@.len(),
    ensures
        r == is_wildcard(p@[i as int]),
{
    let c = p.get_char(i);
    c == '*' || c == '?' || c == '['
}

/// A glob pattern split into its longest literal prefix and the remaining
/// wildcard pattern.  A pattern without wildcards is all prefix.
#[derive(Debug)]
pub struct SplitGlob {
    pub prefix: String,
    pub rest: String,
}

impl SplitGlob {
    /// Splits a pattern at its first wildcard character.
    pub fn new(pattern: &str) -> (r: SplitGlob)
        ensures
            r.prefix@ == pattern@.take(glob_prefix_len(pattern@)),
            r.rest@ == pattern@.skip(glob_prefix_len(pattern@)),
            r.prefix@.len() == glob_prefix_len(pattern@),
    {
        let n = pattern.unicode_len();
        let mut i: usize = 0;
        while i < n && !wildcard_at(pattern, i)
            invariant
                n == pattern@.len(),
                0 <= i <= n,
                forall|j: int| 0 <= j < i ==> !is_wildcard(pattern@[j]),
            decreases n - i,
        {
            i = i + 1;
        }
        proof {
            lemma_glob_prefix_len(pattern@, i as int);
        }
        let prefix = pattern.substring_char(0, i).to_owned();
        let rest = pattern.substring_char(i, n).to_owned();
        SplitGlob { prefix, rest }
    }
}

} // verus!

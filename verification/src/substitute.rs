//! Literal substitution inside byte content: every occurrence of a needle
//! (an entry's declared path, as bytes) is replaced by a replacement (the
//! entry's final path, as bytes), leftmost first and without overlap.

use vstd::prelude::*;

verus! {

/// The result of replacing, leftmost first and without overlap, every
/// occurrence of `needle` in `s` by `repl`.  An empty needle leaves `s`
/// unchanged.
pub open spec fn replace_all(s: Seq<u8>, needle: Seq<u8>, repl: Seq<u8>) -> Seq<u8>
    decreases s.len(),
{
    if needle.len() == 0 || s.len() < needle.len() {
        s
    } else if s.take(needle.len() as int) == needle {
        repl + replace_all(s.skip(needle.len() as int), needle, repl)
    } else {
        seq![s[0]] + replace_all(s.skip(1), needle, repl)
    }
}

/// An element-wise copy of a byte vector.
pub fn copy_bytes(v: &Vec<u8>) -> (r: Vec<u8>)
    ensures
        r@ == v@,
{
    let mut r: Vec<u8> = Vec::new();
    let mut i: usize = 0;
    while i < v.len()
        invariant
            0 <= i <= v@.len(),
            r@ =~= v@.take(i as int),
        decreases v@.len() - i,
    {
        r.push(v[i]);
        i = i + 1;
    }
    proof {
        assert(v@.take(v@.len() as int) =~= v@);
    }
    r
}

/// Whether the bytes of `needle` stand in `hay` at offset `at`.
fn matches_at(hay: &Vec<u8>, at: usize, needle: &Vec<u8>) -> (r: bool)
    requires
        at + needle@.len() <= hay@.len(),
    ensures
        r <==> hay@.subrange(at as int, at + needle@.len()) == needle@,
{
    let n = needle.len();
    let hl = hay.len();
    let mut j: usize = 0;
    while j < n
        invariant
            at + n <= hl,
            hl == hay@.len(),
            n == needle@.len(),
            0 <= j <= n,
            forall|k: int| 0 <= k < j ==> hay@[at + k] == needle@[k],
        decreases n - j,
    {
        if hay[at + j] != needle[j] {
            proof {
                assert(hay@.subrange(at as int, at + needle@.len())[j as int] == hay@[at + j]);
            }
            return false;
        }
        j = j + 1;
    }
    proof {
        assert(hay@.subrange(at as int, at + needle@.len()) =~= needle@);
    }
    true
}

/// Replaces every occurrence of `needle` in `content` by `repl`, leftmost
/// first and without overlap.
pub fn substitute(content: &Vec<u8>, needle: &Vec<u8>, repl: &Vec<u8>) -> (out: Vec<u8>)
    ensures
        out@ == replace_all(content@, needle@, repl@),
{
    let mut out: Vec<u8> = Vec::new();
    if needle.len() == 0 {
        let mut i: usize = 0;
        while i < content.len()
            invariant
                0 <= i <= content@.len(),
                out@ =~= content@.take(i as int),
            decreases content@.len() - i,
        {
            out.push(content[i]);
            i = i + 1;
        }
        proof {
            assert(content@.take(content@.len() as int) =~= content@);
        }
        return out;
    }
    let n = needle.len();
    let cl = content.len();
    let mut i: usize = 0;
    proof {
        assert(content@.skip(0) =~= content@);
        assert(out@ + replace_all(content@, needle@, repl@) =~= replace_all(
            content@,
            needle@,
            repl@,
        ));
    }
    while n <= cl && i <= cl - n
        invariant
            needle@.len() == n,
            cl == content@.len(),
            n >= 1,
            0 <= i <= content@.len(),
            replace_all(content@, needle@, repl@) == out@ + replace_all(
                content@.skip(i as int),
                needle@,
                repl@,
            ),
        decreases content@.len() - i,
    {
        let ghost rest = content@.skip(i as int);
        if matches_at(content, i, needle) {
            let ghost out0 = out@;
            let mut j: usize = 0;
            while j < repl.len()
                invariant
                    0 <= j <= repl@.len(),
                    out@ =~= out0 + repl@.take(j as int),
                decreases repl@.len() - j,
            {
                out.push(repl[j]);
                j = j + 1;
            }
            proof {
                assert(repl@.take(repl@.len() as int) =~= repl@);
                assert(rest.take(n as int) =~= content@.subrange(i as int, i + n));
                assert(rest.skip(n as int) =~= content@.skip(i + n));
            }
            i = i + n;
        } else {
            out.push(content[i]);
            proof {
                assert(rest.take(n as int) =~= content@.subrange(i as int, i + n));
                assert(rest[0] == content@[i as int]);
                assert(seq![rest[0]] + replace_all(rest.skip(1), needle@, repl@)
                    == replace_all(rest, needle@, repl@));
                assert(rest.skip(1) =~= content@.skip(i + 1));
            }
            i = i + 1;
        }
    }
    while i < content.len()
        invariant
            needle@.len() == n,
            cl == content@.len(),
            n >= 1,
            0 <= i <= content@.len(),
            content@.len() - i < n,
            replace_all(content@, needle@, repl@) == out@ + replace_all(
                content@.skip(i as int),
                needle@,
                repl@,
            ),
        decreases content@.len() - i,
    {
        out.push(content[i]);
        proof {
            let rest = content@.skip(i as int);
            assert(rest.len() < n);
            assert(replace_all(rest, needle@, repl@) == rest);
            assert(rest[0] == content@[i as int]);
            assert(content@.skip(i + 1) =~= rest.skip(1));
            assert(replace_all(content@.skip(i + 1), needle@, repl@) == content@.skip(i + 1));
            assert(rest =~= seq![rest[0]] + rest.skip(1));
        }
        i = i + 1;
    }
    proof {
        assert(content@.skip(content@.len() as int) =~= Seq::<u8>::empty());
        assert(replace_all(Seq::<u8>::empty(), needle@, repl@) =~= Seq::<u8>::empty());
        assert(out@ =~= out@ + Seq::<u8>::empty());
    }
    out
}

} // verus!

//! Deriving the result file name from a source file name.
//!
//! The directory part (up to the last slash) is kept, the extension of
//! the file name (from its last dot, unless that dot is the leading
//! byte) is dropped, and `.result` is appended.

use vstd::prelude::*;

verus! {

/// Index just past the last slash, or zero if there is none.
pub open spec fn dir_end(p: Seq<u8>) -> int
    decreases p.len(),
{
    if p.len() == 0 {
        0
    } else if p.last() == 47 {
        p.len() as int
    } else {
        dir_end(p.drop_last())
    }
}

/// Index of the last dot of a file name, or zero if there is none; a
/// dot in the leading position does not start an extension.
pub open spec fn last_dot(name: Seq<u8>) -> int
    decreases name.len(),
{
    if name.len() == 0 {
        0
    } else if name.last() == 46 {
        name.len() - 1
    } else {
        last_dot(name.drop_last())
    }
}

/// The stem of a file name: everything before its extension.
pub open spec fn stem_of(name: Seq<u8>) -> Seq<u8> {
    if last_dot(name) > 0 {
        name.take(last_dot(name))
    } else {
        name
    }
}

/// The bytes of the `.result` marker.
pub open spec fn result_marker() -> Seq<u8> {
    seq![46u8, 114u8, 101u8, 115u8, 117u8, 108u8, 116u8]
}

/// The derived result path: directory kept, extension replaced.
pub open spec fn result_path_spec(p: Seq<u8>) -> Seq<u8> {
    p.take(dir_end(p)) + stem_of(p.skip(dir_end(p))) + result_marker()
}

/// The path of the file a result is persisted to, derived from the path
/// the tree was loaded from.
#[verifier::rlimit(60)]
pub fn insert_result_suffix(path: &Vec<u8>) -> (r: Vec<u8>)
    ensures
        r@ == result_path_spec(path@),
{
    // locate the end of the directory part
    let mut d: usize = path.len();
    proof {
        assert(path@.take(d as int) =~= path@);
    }
    while d > 0 && path[d - 1] != 47
        invariant
            d <= path@.len(),
            dir_end(path@) == dir_end(path@.take(d as int)),
        decreases d,
    {
        proof {
            assert(path@.take(d as int).drop_last() =~= path@.take(d - 1int));
            assert(path@.take(d as int).last() == path@[d - 1int]);
        }
        d -= 1;
    }
    proof {
        if d > 0 {
            assert(path@.take(d as int).last() == path@[d - 1int]);
        }
        assert(dir_end(path@) == d);
    }
    let ghost name = path@.skip(d as int);
    // locate the last dot of the file name
    let mut q: usize = path.len();
    proof {
        assert(name.take((q - d) as int) =~= name);
    }
    while q > d && path[q - 1] != 46
        invariant
            d <= q <= path@.len(),
            name == path@.skip(d as int),
            last_dot(name) == last_dot(name.take((q - d) as int)),
        decreases q,
    {
        proof {
            assert(name.take((q - d) as int).drop_last() =~= name.take(q - d - 1int));
            assert(name.take((q - d) as int).last() == name[q - d - 1int]);
            assert(name[q - d - 1int] == path@[q - 1int]);
        }
        q -= 1;
    }
    proof {
        if q > d {
            assert(name.take((q - d) as int).last() == name[q - d - 1int]);
            assert(name[q - d - 1int] == path@[q - 1int]);
        }
        assert(last_dot(name) == if q > d {
            q - d - 1int
        } else {
            0int
        });
    }
    // everything before the extension survives
    let keep: usize = if q > d && q - 1 - d > 0 {
        q - 1
    } else {
        path.len()
    };
    let mut r: Vec<u8> = Vec::new();
    let mut i: usize = 0;
    while i < keep
        invariant
            i <= keep <= path@.len(),
            r@ == path@.take(i as int),
        decreases keep - i,
    {
        r.push(path[i]);
        proof {
            assert(r@ =~= path@.take(i + 1int));
        }
        i += 1;
    }
    r.push(46u8);
    r.push(114u8);
    r.push(101u8);
    r.push(115u8);
    r.push(117u8);
    r.push(108u8);
    r.push(116u8);
    proof {
        if q > d && q - 1 - d > 0 {
            assert(path@.take(keep as int) =~= path@.take(dir_end(path@)) + name.take(
                last_dot(name),
            ));
        } else {
            assert(path@.take(keep as int) =~= path@.take(dir_end(path@)) + name);
        }
        assert(r@ =~= path@.take(keep as int) + result_marker());
    }
    r
}

} // verus!

use vstd::prelude::*;

verus! {

/// The byte value of `/`, the canonical path separator used inside
/// archives.
pub const SEPARATOR: u8 = 47;

/// The byte value of `.`.
pub const DOT: u8 = 46;

/// The `/`-separated segment beginning at position `i` of `p` is exactly
/// `..`: two dots bounded by the start of the path or a separator on the
/// left, and by the end of the path or a separator on the right.
pub open spec fn dot_dot_segment_at(p: Seq<u8>, i: int) -> bool {
    &&& 0 <= i
    &&& i + 2 <= p.len()
    &&& p[i] == DOT
    &&& p[i + 1] == DOT
    &&& (i == 0 || p[i - 1] == SEPARATOR)
    &&& (i + 2 == p.len() || p[i + 2] == SEPARATOR)
}

/// A stored relative path would resolve outside the directory it is joined
/// onto: it is absolute, or some segment of it is `..`.  Joining a path for
/// which this is false onto a root can only name locations at or beneath
/// that root.
pub open spec fn path_escapes(p: Seq<u8>) -> bool {
    ||| p.len() > 0 && p[0] == SEPARATOR
    ||| exists|i: int| dot_dot_segment_at(p, i)
}

/// Decide whether a decoded relative path must be rejected because joining
/// it onto an output root could name a location outside that root.
pub fn path_escapes_root(p: &Vec<u8>) -> (r: bool)
    ensures
        r == path_escapes(p@),
{
    let len = p.len();
    if len > 0 && p[0] == SEPARATOR {
        return true;
    }
    if len < 2 {
        proof {
            assert(forall|i: int| !dot_dot_segment_at(p@, i));
        }
        return false;
    }
    let mut i: usize = 0;
    while i <= len - 2
        invariant
            len == p@.len(),
            len >= 2,
            i <= len,
            forall|j: int| j < i ==> !dot_dot_segment_at(p@, j),
        decreases len - i,
    {
        if p[i] == DOT && p[i + 1] == DOT && (i == 0 || p[i - 1] == SEPARATOR) && (i + 2 == len
            || p[i + 2] == SEPARATOR) {
            proof {
                assert(dot_dot_segment_at(p@, i as int));
            }
            return true;
        }
        i = i + 1;
    }
    proof {
        assert(forall|j: int| j >= i ==> !dot_dot_segment_at(p@, j));
    }
    false
}

} // verus!

//! File names and their extensions, read from paths as bytes with `/`
//! between the components.

use vstd::prelude::*;
use vstd::slice::slice_subrange;

verus! {

/// The byte `/`, which parts the components of a path.
pub const SLASH: u8 = 0x2f;

/// The byte `.`.
pub const DOT: u8 = 0x2e;

/// Where the last component of `path` ends: before any `/` and any
/// component `.` that end the path.
pub open spec fn name_end(path: Seq<u8>) -> int
    decreases path.len(),
{
    if path.len() == 0 {
        0
    } else if path.last() == SLASH {
        name_end(path.drop_last())
    } else if path.len() >= 2 && path.last() == DOT && path[path.len() - 2] == SLASH {
        name_end(path.take(path.len() - 2))
    } else {
        path.len() as int
    }
}

/// Index of the last `b` in `s`, or -1 where `s` has none.
pub open spec fn last_index_of(s: Seq<u8>, b: u8) -> int
    decreases s.len(),
{
    if s.len() == 0 {
        -1
    } else if s.last() == b {
        s.len() - 1
    } else {
        last_index_of(s.drop_last(), b)
    }
}

/// The file name of `path`: its last component, unless the path has none or
/// ends in `.` or `..`.
pub open spec fn file_name(path: Seq<u8>) -> Option<Seq<u8>> {
    let head = path.take(name_end(path));
    let name = head.skip(last_index_of(head, SLASH) + 1);
    if name.len() == 0 || name == seq![DOT] || name == seq![DOT, DOT] {
        None
    } else {
        Some(name)
    }
}

/// The extension of `path`: what follows the last `.` of its file name, unless
/// there is no file name, no `.` in it, or only one at its start.
pub open spec fn extension(path: Seq<u8>) -> Option<Seq<u8>> {
    match file_name(path) {
        None => None,
        Some(name) => if last_index_of(name, DOT) <= 0 {
            None
        } else {
            Some(name.skip(last_index_of(name, DOT) + 1))
        },
    }
}

/// The index `i` is `last_index_of(s, b)` where a `b` stands at it, or it is
/// -1, and no `b` stands after it.
pub proof fn lemma_last_index_is(s: Seq<u8>, b: u8, i: int)
    requires
        -1 <= i < s.len(),
        i >= 0 ==> s[i] == b,
        forall|j: int| i < j < s.len() ==> s[j] != b,
    ensures
        last_index_of(s, b) == i,
    decreases s.len(),
{
    if s.len() > 0 && s.last() != b {
        lemma_last_index_is(s.drop_last(), b, i);
    }
}

/// Tests whether two byte strings are the same.
pub fn same_bytes(a: &[u8], b: &[u8]) -> (r: bool)
    ensures
        r == (a@ == b@),
{
    if a.len() != b.len() {
        return false;
    }
    let mut i: usize = 0;
    while i < a.len()
        invariant
            a@.len() == b@.len(),
            i <= a@.len(),
            forall|j: int| 0 <= j < i ==> a@[j] == b@[j],
        decreases a@.len() - i,
    {
        if a[i] != b[i] {
            return false;
        }
        i = i + 1;
    }
    proof {
        assert(a@ =~= b@);
    }
    true
}

/// The extension of `path`.
pub fn path_extension(path: &[u8]) -> (r: Option<&[u8]>)
    ensures
        match r {
            Some(e) => extension(path@) == Some(e@),
            None => extension(path@) is None,
        },
{
    let mut end: usize = path.len();
    proof {
        assert(path@.take(end as int) =~= path@);
    }
    loop
        invariant
            end <= path@.len(),
            name_end(path@) == name_end(path@.take(end as int)),
        ensures
            end <= path@.len(),
            name_end(path@) == end,
        decreases end,
    {
        let ghost head = path@.take(end as int);
        if end == 0 {
            break ;
        }
        if path[end - 1] == SLASH {
            proof {
                assert(head.drop_last() =~= path@.take(end - 1));
            }
            end = end - 1;
        } else if end >= 2 && path[end - 1] == DOT && path[end - 2] == SLASH {
            proof {
                assert(head.take(head.len() - 2) =~= path@.take(end - 2));
            }
            end = end - 2;
        } else {
            break ;
        }
    }
    let ghost head = path@.take(end as int);
    let mut start: usize = end;
    while start > 0 && path[start - 1] != SLASH
        invariant
            start <= end <= path@.len(),
            head == path@.take(end as int),
            forall|j: int| start <= j < end ==> head[j] != SLASH,
        decreases start,
    {
        start = start - 1;
    }
    proof {
        lemma_last_index_is(head, SLASH, start as int - 1);
    }
    let name = slice_subrange(path, start, end);
    proof {
        assert(name@ =~= head.skip(start as int));
    }
    let n = name.len();
    if n == 0 || (n == 1 && name[0] == DOT) || (n == 2 && name[0] == DOT && name[1] == DOT) {
        proof {
            if n == 1 {
                assert(name@ =~= seq![DOT]);
            }
            if n == 2 {
                assert(name@ =~= seq![DOT, DOT]);
            }
        }
        return None;
    }
    proof {
        if name@ == seq![DOT] {
            assert(seq![DOT].len() == 1);
        }
        if name@ == seq![DOT, DOT] {
            assert(seq![DOT, DOT].len() == 2);
            assert(seq![DOT, DOT][0] == DOT);
            assert(seq![DOT, DOT][1] == DOT);
        }
    }
    let mut dot: usize = n;
    while dot > 0 && name[dot - 1] != DOT
        invariant
            dot <= n == name@.len(),
            forall|j: int| dot <= j < n ==> name@[j] != DOT,
        decreases dot,
    {
        dot = dot - 1;
    }
    proof {
        lemma_last_index_is(name@, DOT, dot as int - 1);
    }
    if dot <= 1 {
        return None;
    }
    let ext = slice_subrange(name, dot, n);
    proof {
        assert(ext@ =~= name@.skip(dot as int));
    }
    Some(ext)
}

} // verus!

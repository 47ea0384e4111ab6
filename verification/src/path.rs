//! Room paths. A room is named by the segments of its path, so a path is
//! brought into one form before it is used as a key: a slash before each
//! segment, none behind the last, and `/` alone where there is no segment.

use vstd::prelude::*;
use vstd::string::{StrSliceExecFns, StringExecFns};

verus! {

/// Each segment of `raw` with one slash before it; empty where `raw` has no
/// segment.
pub open spec fn squeezed(raw: Seq<char>) -> Seq<char>
    decreases raw.len(),
{
    if raw.len() == 0 {
        Seq::empty()
    } else {
        let before = squeezed(raw.drop_last());
        let c = raw.last();
        if c == '/' {
            before
        } else if raw.len() == 1 || raw[raw.len() - 2] == '/' {
            before.push('/').push(c)
        } else {
            before.push(c)
        }
    }
}

/// The form under which the room that `raw` names is kept.
pub open spec fn canonical(raw: Seq<char>) -> Seq<char> {
    if squeezed(raw).len() == 0 {
        seq!['/']
    } else {
        squeezed(raw)
    }
}

/// `path` starts with a slash and holds no two slashes in a row.
pub open spec fn tidy(path: Seq<char>) -> bool {
    &&& path.len() > 0 ==> path[0] == '/'
    &&& forall|i: int| 0 <= i < path.len() - 1 ==> !(path[i] == '/' && #[trigger] path[i + 1] == '/')
}

/// Squeezing gives a tidy path that does not end in a slash.
pub proof fn lemma_squeezed_is_tidy(raw: Seq<char>)
    ensures
        tidy(squeezed(raw)),
        squeezed(raw).len() > 0 ==> squeezed(raw).last() != '/',
    decreases raw.len(),
{
    if raw.len() > 0 {
        lemma_squeezed_is_tidy(raw.drop_last());
    }
}

/// Squeezing a tidy path only takes a slash from its end.
pub proof fn lemma_squeezed_of_tidy(path: Seq<char>)
    requires
        tidy(path),
    ensures
        squeezed(path) == if path.len() > 0 && path.last() == '/' {
            path.drop_last()
        } else {
            path
        },
    decreases path.len(),
{
    if path.len() > 0 {
        let shorter = path.drop_last();
        assert forall|i: int| 0 <= i < shorter.len() - 1 implies !(shorter[i] == '/'
            && #[trigger] shorter[i + 1] == '/') by {
            assert(shorter[i] == path[i] && shorter[i + 1] == path[i + 1]);
        }
        lemma_squeezed_of_tidy(shorter);
        if path.last() == '/' {
            if shorter.len() > 0 {
                assert(path[shorter.len() - 1 + 1] == '/');
                assert(shorter.last() != '/');
            }
        } else {
            assert(path.len() > 1);
            if path[path.len() - 2] == '/' {
                assert(shorter.last() == '/');
                assert(shorter.drop_last().push('/').push(path.last()) =~= path);
            } else {
                assert(shorter.push(path.last()) =~= path);
            }
        }
    }
}

/// The canonical form starts with a slash, holds no two slashes in a row,
/// and ends in a slash only where it is the root.
pub proof fn lemma_canonical_shape(raw: Seq<char>)
    ensures
        tidy(canonical(raw)),
        canonical(raw).len() > 0,
        canonical(raw) == seq!['/'] || canonical(raw).last() != '/',
{
    lemma_squeezed_is_tidy(raw);
}

/// A canonical path is its own canonical form.
pub proof fn lemma_canonical_is_idempotent(raw: Seq<char>)
    ensures
        canonical(canonical(raw)) == canonical(raw),
{
    lemma_squeezed_is_tidy(raw);
    lemma_squeezed_of_tidy(canonical(raw));
    if squeezed(raw).len() == 0 {
        assert(seq!['/'].drop_last() =~= Seq::<char>::empty());
    }
}

/// The canonical form of `raw`.
pub fn canonical_path(raw: &str) -> (path: String)
    ensures
        path@ == canonical(raw@),
{
    let n = raw.unicode_len();
    let mut out = String::new();
    let mut any = false;
    let mut at_start = true;
    let mut i: usize = 0;
    proof {
        reveal_strlit("/");
        assert(raw@.take(0) =~= Seq::<char>::empty());
    }
    while i < n
        invariant
            i <= n,
            n == raw@.len(),
            out@ == squeezed(raw@.take(i as int)),
            any == (out@.len() > 0),
            at_start == (i == 0 || raw@[i - 1] == '/'),
            "/"@ =~= seq!['/'],
        decreases n - i,
    {
        let c = raw.get_char(i);
        proof {
            let next = raw@.take(i + 1);
            assert(next.drop_last() =~= raw@.take(i as int));
            assert(next.last() == c);
            if i > 0 {
                assert(next[next.len() - 2] == raw@[i - 1]);
            }
        }
        if c != '/' {
            let ghost before = out@;
            if at_start {
                out.append("/");
                assert(out@ =~= before.push('/'));
            }
            let ghost slashed = out@;
            out.append(raw.substring_char(i, i + 1));
            assert(out@ =~= slashed.push(c));
            any = true;
        }
        at_start = c == '/';
        i += 1;
    }
    assert(raw@.take(i as int) =~= raw@);
    if any {
        out
    } else {
        let root = "/".to_owned();
        assert(root@ =~= seq!['/']);
        root
    }
}

} // verus!

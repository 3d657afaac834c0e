//! Root-confined resolution of untrusted candidate paths.
//!
//! `resolve` turns an arbitrary candidate path into an absolute path that
//! is the trusted root or one of its descendants, or rejects it. The
//! resolution is purely lexical: `.` and empty segments vanish, `..` pops
//! the previous segment, and a `..` that would climb above the root, or an
//! absolute candidate that does not lie under the root, is rejected. No
//! filesystem access takes place, so the candidate need not exist.

use vstd::prelude::*;
use vstd::string::*;
use crate::outcome::PathError;

verus! {

/// The root directories this crate trusts: absolute, at least one
/// component, no trailing separator.
pub open spec fn is_storage_root(root: Seq<char>) -> bool {
    &&& root.len() >= 2
    &&& root[0] == '/'
    &&& root.last() != '/'
}

/// `p` is `root` itself or lies strictly below it.
pub open spec fn is_descendant_of(p: Seq<char>, root: Seq<char>) -> bool {
    ||| p == root
    ||| (p.len() > root.len() && p.take(root.len() as int) == root && p[root.len() as int] == '/')
}

/// Split on `sep` exactly as `str::split` does: `n` separators yield
/// `n + 1` pieces, empty pieces included.
pub open spec fn spec_split(s: Seq<char>, sep: char) -> Seq<Seq<char>>
    decreases s.len(),
{
    if s.len() == 0 {
        seq![Seq::<char>::empty()]
    } else if s[0] == sep {
        seq![Seq::<char>::empty()] + spec_split(s.skip(1), sep)
    } else {
        let rest = spec_split(s.skip(1), sep);
        seq![seq![s[0]] + rest[0]] + rest.skip(1)
    }
}

pub open spec fn is_dot(seg: Seq<char>) -> bool {
    seg.len() == 1 && seg[0] == '.'
}

pub open spec fn is_dot_dot(seg: Seq<char>) -> bool {
    seg.len() == 2 && seg[0] == '.' && seg[1] == '.'
}

/// Left fold over raw segments: empty segments and `.` vanish, `..` pops
/// the segment before it, anything else is kept. `None` means a `..`
/// tried to climb above the root.
pub open spec fn spec_normalize(segs: Seq<Seq<char>>) -> Option<Seq<Seq<char>>>
    decreases segs.len(),
{
    if segs.len() == 0 {
        Some(Seq::empty())
    } else {
        match spec_normalize(segs.drop_last()) {
            None => None,
            Some(stack) => {
                let last = segs.last();
                if last.len() == 0 || is_dot(last) {
                    Some(stack)
                } else if is_dot_dot(last) {
                    if stack.len() == 0 {
                        None
                    } else {
                        Some(stack.drop_last())
                    }
                } else {
                    Some(stack.push(last))
                }
            },
        }
    }
}

/// `root` with every segment appended behind a separator.
pub open spec fn spec_join(root: Seq<char>, segs: Seq<Seq<char>>) -> Seq<char>
    decreases segs.len(),
{
    if segs.len() == 0 {
        root
    } else {
        spec_join(root, segs.drop_last()) + seq!['/'] + segs.last()
    }
}

/// The part of `cand` that is to be resolved relative to `root`: a
/// relative candidate as it stands, an absolute candidate only if it is
/// `root` or lexically below it, with the root prefix removed.
pub open spec fn spec_strip_root(root: Seq<char>, cand: Seq<char>) -> Option<Seq<char>> {
    if cand.len() > 0 && cand[0] == '/' {
        if cand == root {
            Some(Seq::empty())
        } else if cand.len() > root.len() && cand.take(root.len() as int) == root && cand[
            root.len() as int
        ] == '/' {
            Some(cand.skip(root.len() as int + 1))
        } else {
            None
        }
    } else {
        Some(cand)
    }
}

/// The whole resolution, as a function of the two inputs alone. `None`
/// means the candidate cannot be confined to the root.
pub open spec fn spec_resolve(root: Seq<char>, cand: Seq<char>) -> Option<Seq<char>> {
    match spec_strip_root(root, cand) {
        None => None,
        Some(rel) => match spec_normalize(spec_split(rel, '/')) {
            None => None,
            Some(segs) => Some(spec_join(root, segs)),
        },
    }
}

pub proof fn lemma_split_len(s: Seq<char>, sep: char)
    ensures
        spec_split(s, sep).len() >= 1,
    decreases s.len(),
{
    if s.len() != 0 {
        lemma_split_len(s.skip(1), sep);
    }
}

/// A string without the separator splits into itself alone.
pub proof fn lemma_split_no_sep(s: Seq<char>, sep: char)
    requires
        forall|i: int| 0 <= i < s.len() ==> s[i] != sep,
    ensures
        spec_split(s, sep) == seq![s],
    decreases s.len(),
{
    if s.len() == 0 {
        assert(s =~= Seq::<char>::empty());
        assert(spec_split(s, sep) =~= seq![s]);
    } else {
        lemma_split_no_sep(s.skip(1), sep);
        lemma_split_len(s.skip(1), sep);
        let rest = spec_split(s.skip(1), sep);
        assert(rest[0] == s.skip(1));
        assert(seq![s[0]] + rest[0] =~= s);
        assert(rest.skip(1) =~= Seq::<Seq<char>>::empty());
        assert(spec_split(s, sep) =~= seq![s]);
    }
}

/// Splitting at the first separator peels off one piece.
pub proof fn lemma_split_at_first_sep(s: Seq<char>, sep: char, j: int)
    requires
        0 <= j < s.len(),
        s[j] == sep,
        forall|i: int| 0 <= i < j ==> s[i] != sep,
    ensures
        spec_split(s, sep) == seq![s.take(j)] + spec_split(s.skip(j + 1), sep),
    decreases j,
{
    if j == 0 {
        assert(s.take(0) =~= Seq::<char>::empty());
        assert(spec_split(s, sep) =~= seq![s.take(0)] + spec_split(s.skip(1), sep));
    } else {
        let t = s.skip(1);
        assert(t[j - 1] == sep);
        assert(forall|i: int| 0 <= i < j - 1 ==> t[i] != sep);
        lemma_split_at_first_sep(t, sep, j - 1);
        lemma_split_len(t.skip(j), sep);
        let rest = spec_split(t, sep);
        assert(rest == seq![t.take(j - 1)] + spec_split(t.skip(j), sep));
        assert(rest[0] == t.take(j - 1));
        assert(seq![s[0]] + rest[0] =~= s.take(j));
        assert(rest.skip(1) =~= spec_split(t.skip(j), sep));
        assert(t.skip(j) =~= s.skip(j + 1));
        assert(spec_split(s, sep) =~= seq![s.take(j)] + spec_split(s.skip(j + 1), sep));
    }
}

/// Once a prefix of the segments fails to normalize, the whole list does.
pub proof fn lemma_normalize_none_extends(segs: Seq<Seq<char>>, i: int)
    requires
        0 <= i <= segs.len(),
        spec_normalize(segs.take(i)) is None,
    ensures
        spec_normalize(segs) is None,
    decreases segs.len() - i,
{
    if i < segs.len() {
        assert(segs.take(i + 1).drop_last() =~= segs.take(i));
        assert(spec_normalize(segs.take(i + 1)) is None);
        lemma_normalize_none_extends(segs, i + 1);
    } else {
        assert(segs.take(i) =~= segs);
    }
}

/// Everything the join builds stays at or below a well-formed root.
pub proof fn lemma_join_confined(root: Seq<char>, segs: Seq<Seq<char>>)
    requires
        is_storage_root(root),
    ensures
        is_descendant_of(spec_join(root, segs), root),
    decreases segs.len(),
{
    if segs.len() > 0 {
        lemma_join_confined(root, segs.drop_last());
        let q = spec_join(root, segs.drop_last());
        let p = spec_join(root, segs);
        assert(p == q + seq!['/'] + segs.last());
        if q == root {
            assert(p.take(root.len() as int) =~= root);
        } else {
            assert(q.take(root.len() as int) == root);
            assert(p.take(root.len() as int) =~= q.take(root.len() as int));
        }
    }
}

/// The resolver never hands back a path outside the root.
pub proof fn lemma_resolve_confined(root: Seq<char>, cand: Seq<char>)
    requires
        is_storage_root(root),
        spec_resolve(root, cand) is Some,
    ensures
        is_descendant_of(spec_resolve(root, cand)->Some_0, root),
{
    let rel = spec_strip_root(root, cand)->Some_0;
    let segs = spec_normalize(spec_split(rel, '/'))->Some_0;
    lemma_join_confined(root, segs);
}

/// Whether `root` has the shape the resolver trusts: absolute, more than
/// the bare separator, and no trailing separator.
pub fn check_storage_root(root: &str) -> (b: bool)
    ensures
        b == is_storage_root(root@),
{
    let n = root.unicode_len();
    if n < 2 {
        return false;
    }
    root.get_char(0) == '/' && root.get_char(n - 1) != '/'
}

/// Split `s` on `sep`, as `str::split` does.
pub fn split_char(s: &str, sep: char) -> (r: Vec<String>)
    ensures
        r.deep_view() == spec_split(s@, sep),
    decreases s@.len(),
{
    let n = s.unicode_len();
    let mut j: usize = 0;
    while j < n && s.get_char(j) != sep
        invariant
            n == s@.len(),
            j <= n,
            forall|i: int| 0 <= i < j ==> s@[i] != sep,
        decreases n - j,
    {
        j = j + 1;
    }
    if j == n {
        proof {
            lemma_split_no_sep(s@, sep);
        }
        let mut r: Vec<String> = Vec::new();
        r.push(s.to_owned());
        proof {
            assert(r.deep_view() =~= seq![s@]);
        }
        r
    } else {
        let head = s.substring_char(0, j);
        let tail = s.substring_char(j + 1, n);
        proof {
            lemma_split_at_first_sep(s@, sep, j as int);
            assert(tail@ =~= s@.skip(j + 1));
            assert(head@ =~= s@.take(j as int));
        }
        let mut r = split_char(tail, sep);
        r.insert(0, head.to_owned());
        proof {
            assert(r.deep_view() =~= seq![s@.take(j as int)] + spec_split(s@.skip(j + 1), sep));
        }
        r
    }
}

/// Confine `candidate` to `root`.
///
/// On success the result is exactly what the lexical model
/// [`spec_resolve`] prescribes, and in particular the root itself or a
/// descendant of it; a candidate that cannot be confined — an absolute
/// path outside the root, or `..` segments that climb past it — is
/// rejected and nothing is returned.
pub fn resolve(root: &str, candidate: &str) -> (r: Result<String, PathError>)
    requires
        is_storage_root(root@),
    ensures
        match r {
            Ok(p) => spec_resolve(root@, candidate@) == Some(p@) && is_descendant_of(p@, root@),
            Err(e) => spec_resolve(root@, candidate@) is None && e == PathError::OutsideRoot,
        },
{
    let cl = candidate.unicode_len();
    let rl = root.unicode_len();

    // Reduce the candidate to a path relative to the root.
    let rel: &str;
    if cl > 0 && candidate.get_char(0) == '/' {
        let mut i: usize = 0;
        while i < rl && i < cl && root.get_char(i) == candidate.get_char(i)
            invariant
                rl == root@.len(),
                cl == candidate@.len(),
                i <= rl,
                i <= cl,
                forall|k: int| 0 <= k < i ==> root@[k] == candidate@[k],
            decreases rl - i,
        {
            i = i + 1;
        }
        if i == rl && cl == rl {
            // The candidate is the root itself.
            rel = candidate.substring_char(0, 0);
            proof {
                assert(candidate@ =~= root@);
                assert(rel@ =~= Seq::<char>::empty());
            }
        } else if i == rl && cl > rl && candidate.get_char(rl) == '/' {
            rel = candidate.substring_char(rl + 1, cl);
            proof {
                assert(candidate@.take(rl as int) =~= root@);
                assert(candidate@ != root@);
                assert(rel@ =~= candidate@.skip(rl as int + 1));
            }
        } else {
            proof {
                if candidate@ == root@ {
                    assert(cl == rl);
                    assert(i < rl);
                    assert(candidate@[i as int] == root@[i as int]);
                    assert(false);
                }
                if cl > rl && candidate@.take(rl as int) == root@ && candidate@[rl as int]
                    == '/' {
                    assert(forall|k: int|
                        0 <= k < rl ==> candidate@.take(rl as int)[k] == candidate@[k]);
                    assert(i == rl) by {
                        if i < rl {
                            assert(candidate@.take(rl as int)[i as int] == root@[i as int]);
                            assert(false);
                        }
                    };
                    assert(false);
                }
            }
            return Err(PathError::OutsideRoot);
        }
    } else {
        rel = candidate;
    }
    let ghost rel_view = rel@;
    assert(spec_strip_root(root@, candidate@) == Some(rel_view));

    // Fold the raw segments, letting `..` pop and rejecting an escape.
    let segs = split_char(rel, '/');
    let ghost raw = segs.deep_view();
    let mut stack: Vec<String> = Vec::new();
    let mut i: usize = 0;
    while i < segs.len()
        invariant
            raw == segs.deep_view(),
            raw == spec_split(rel_view, '/'),
            spec_strip_root(root@, candidate@) == Some(rel_view),
            i <= segs.len(),
            spec_normalize(raw.take(i as int)) == Some(stack.deep_view()),
        decreases segs.len() - i,
    {
        proof {
            assert(raw.take(i + 1).drop_last() =~= raw.take(i as int));
            assert(raw.take(i + 1).last() == raw[i as int]);
        }
        let seg = &segs[i];
        let sl = seg.as_str().unicode_len();
        if sl == 0 || (sl == 1 && seg.as_str().get_char(0) == '.') {
            // An empty or `.` segment changes nothing.
            proof {
                assert(spec_normalize(raw.take(i + 1)) == Some(stack.deep_view()));
            }
        } else if sl == 2 && seg.as_str().get_char(0) == '.' && seg.as_str().get_char(1) == '.' {
            if stack.len() == 0 {
                proof {
                    assert(spec_normalize(raw.take(i + 1)) is None);
                    lemma_normalize_none_extends(raw, i + 1);
                    assert(raw.take(raw.len() as int) =~= raw);
                }
                return Err(PathError::OutsideRoot);
            }
            let ghost before = stack.deep_view();
            stack.pop();
            proof {
                assert(stack.deep_view() =~= before.drop_last());
            }
        } else {
            let ghost before = stack.deep_view();
            stack.push(seg.clone());
            proof {
                assert(!is_dot(raw[i as int]) && !is_dot_dot(raw[i as int]));
                assert(stack.deep_view() =~= before.push(raw[i as int]));
            }
        }
        i = i + 1;
    }
    proof {
        assert(raw.take(segs.len() as int) =~= raw);
    }

    // Reattach the surviving segments under the root.
    let ghost kept = stack.deep_view();
    let mut out: String = root.to_owned();
    let mut k: usize = 0;
    while k < stack.len()
        invariant
            kept == stack.deep_view(),
            k <= stack.len(),
            out@ == spec_join(root@, kept.take(k as int)),
        decreases stack.len() - k,
    {
        proof {
            reveal_strlit("/");
            assert("/"@ =~= seq!['/']);
            assert(kept.take(k + 1).drop_last() =~= kept.take(k as int));
            assert(kept.take(k + 1).last() == kept[k as int]);
        }
        out.append("/");
        out.append(stack[k].as_str());
        k = k + 1;
    }
    proof {
        assert(kept.take(stack.len() as int) =~= kept);
        lemma_resolve_confined(root@, candidate@);
    }
    Ok(out)
}

} // verus!

//! Path strings: normalization, splitting into segments, and the rule
//! that decides whether a segment is a placeholder.

use vstd::prelude::*;
use vstd::string::*;

verus! {

/// Index of the first `/` in `p` at or after position `i`, or `p.len()`
/// if none follows.
pub open spec fn seg_end(p: Seq<char>, i: int) -> int
    decreases p.len() - i when 0 <= i <= p.len()
{
    if i >= p.len() {
        i
    } else if p[i] == '/' {
        i
    } else {
        seg_end(p, i + 1)
    }
}

pub proof fn lemma_seg_end(p: Seq<char>, i: int)
    requires
        0 <= i <= p.len(),
    ensures
        i <= seg_end(p, i) <= p.len(),
        i < p.len() && p[i] != '/' ==> i < seg_end(p, i),
        seg_end(p, i) < p.len() ==> p[seg_end(p, i)] == '/',
        forall|j: int| i <= j < seg_end(p, i) ==> p[j] != '/',
    decreases p.len() - i,
{
    if i < p.len() && p[i] != '/' {
        lemma_seg_end(p, i + 1);
    }
}

/// The non-empty segments of `p`, reading from position `i` on and
/// splitting at every `/`.
pub open spec fn split_from(p: Seq<char>, i: int) -> Seq<Seq<char>>
    decreases p.len() - i when 0 <= i <= p.len()
    via split_from_dec
{
    if i >= p.len() {
        Seq::empty()
    } else if p[i] == '/' {
        split_from(p, i + 1)
    } else {
        seq![p.subrange(i, seg_end(p, i))] + split_from(p, seg_end(p, i))
    }
}

#[via_fn]
proof fn split_from_dec(p: Seq<char>, i: int) {
    if 0 <= i < p.len() && p[i] != '/' {
        lemma_seg_end(p, i);
    }
}

/// The ordered non-empty segments of a path.
pub open spec fn split_segments(p: Seq<char>) -> Seq<Seq<char>> {
    split_from(p, 0)
}

/// A request path with exactly one trailing `/` removed; an empty result
/// (and the empty path) becomes `/`.
pub open spec fn norm_path(p: Seq<char>) -> Seq<char> {
    let q = if p.len() > 0 && p[p.len() - 1] == '/' {
        p.take(p.len() - 1)
    } else {
        p
    };
    if q.len() == 0 {
        seq!['/']
    } else {
        q
    }
}

/// A segment stands for a declared parameter exactly when it is wrapped
/// in braces and the name inside is one of the declared parameter names.
pub open spec fn is_placeholder_seg(seg: Seq<char>, params: Seq<Seq<char>>) -> bool {
    &&& seg.len() >= 2
    &&& seg[0] == '{'
    &&& seg[seg.len() - 1] == '}'
    &&& params.contains(seg.subrange(1, seg.len() - 1))
}

/// Character-for-character string equality.
pub fn str_eq(a: &str, b: &str) -> (r: bool)
    ensures
        r == (a@ == b@),
{
    let la = a.unicode_len();
    let lb = b.unicode_len();
    if la != lb {
        return false;
    }
    let mut i: usize = 0;
    while i < la
        invariant
            la == a@.len(),
            la == b@.len(),
            i <= la,
            forall|j: int| 0 <= j < i ==> a@[j] == b@[j],
        decreases la - i,
    {
        if a.get_char(i) != b.get_char(i) {
            return false;
        }
        i = i + 1;
    }
    proof {
        assert(a@ =~= b@);
    }
    true
}

/// Normalizes a request path: strips exactly one trailing `/`, and maps
/// an empty result (or an empty input) to `/`.
pub fn normalize_path(p: &str) -> (r: String)
    ensures
        r@ == norm_path(p@),
{
    proof {
        reveal_strlit("/");
    }
    let n = p.unicode_len();
    if n == 0 {
        String::from_str("/")
    } else if p.get_char(n - 1) == '/' {
        if n == 1 {
            String::from_str("/")
        } else {
            String::from_str(p.substring_char(0, n - 1))
        }
    } else {
        String::from_str(p)
    }
}

/// Splits a path into its non-empty segments, in order.
pub fn split_path(p: &str) -> (r: Vec<String>)
    ensures
        r.deep_view() == split_segments(p@),
{
    let n = p.unicode_len();
    let mut out: Vec<String> = Vec::new();
    let mut i: usize = 0;
    while i < n
        invariant
            n == p@.len(),
            i <= n,
            split_from(p@, 0) == out.deep_view() + split_from(p@, i as int),
        decreases n - i,
    {
        if p.get_char(i) == '/' {
            i = i + 1;
        } else {
            let mut j: usize = i + 1;
            proof {
                assert(seg_end(p@, i as int) == seg_end(p@, i + 1));
            }
            while j < n && p.get_char(j) != '/'
                invariant
                    n == p@.len(),
                    i < j <= n,
                    seg_end(p@, i as int) == seg_end(p@, j as int),
                decreases n - j,
            {
                j = j + 1;
            }
            proof {
                assert(seg_end(p@, j as int) == j);
                assert(seg_end(p@, i as int) == j);
            }
            let ghost pre = out.deep_view();
            let seg = String::from_str(p.substring_char(i, j));
            out.push(seg);
            proof {
                assert(out.deep_view() =~= pre + seq![p@.subrange(i as int, j as int)]);
            }
            i = j;
        }
    }
    proof {
        assert(split_from(p@, n as int) =~= Seq::<Seq<char>>::empty());
        assert(out.deep_view() =~= out.deep_view() + split_from(p@, n as int));
    }
    out
}

/// Applies the placeholder rule to one segment against the declared
/// parameter names.
pub fn seg_is_placeholder(seg: &str, params: &Vec<String>) -> (r: bool)
    ensures
        r == is_placeholder_seg(seg@, params.deep_view()),
{
    let n = seg.unicode_len();
    if n < 2 {
        return false;
    }
    if seg.get_char(0) != '{' {
        return false;
    }
    if seg.get_char(n - 1) != '}' {
        return false;
    }
    let inner = seg.substring_char(1, n - 1);
    let ghost target = seg@.subrange(1, seg@.len() - 1);
    let mut i: usize = 0;
    while i < params.len()
        invariant
            seg@.len() >= 2,
            seg@[0] == '{',
            seg@[seg@.len() - 1] == '}',
            target == seg@.subrange(1, seg@.len() - 1),
            inner@ == target,
            i <= params.len(),
            forall|j: int| 0 <= j < i ==> params.deep_view()[j] != target,
        decreases params.len() - i,
    {
        if str_eq(params[i].as_str(), inner) {
            proof {
                assert(params.deep_view()[i as int] == target);
                assert(params.deep_view().contains(target));
            }
            return true;
        }
        i = i + 1;
    }
    proof {
        assert(!params.deep_view().contains(target)) by {
            if params.deep_view().contains(target) {
                let j = choose|j: int|
                    0 <= j < params.deep_view().len() && params.deep_view()[j] == target;
                assert(params.deep_view()[j] != target);
            }
        }
    }
    false
}

} // verus!

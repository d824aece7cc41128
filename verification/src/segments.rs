//! Byte-level path handling.
//!
//! Request paths and path rules are matched segment-wise: a segment boundary
//! is a run of one or more separator bytes (`/`), and empty segments are
//! ignored for matching. When a matched prefix is stripped, the remainder
//! keeps its raw bytes (consecutive separators included), and a query suffix
//! (from the first `?` on) is never part of the matched path.

use vstd::prelude::*;

verus! {

/// Path segment separator, the byte `/`.
pub const SEP: u8 = 47;

/// Start of the query component, the byte `?`.
pub const QMARK: u8 = 63;

/// Length of the run of non-separator bytes at the start of `p`.
pub open spec fn first_seg_len(p: Seq<u8>) -> nat
    decreases p.len(),
{
    if p.len() == 0 || p[0] == SEP {
        0
    } else {
        1 + first_seg_len(p.drop_first())
    }
}

pub proof fn lemma_first_seg_len_bound(p: Seq<u8>)
    ensures
        first_seg_len(p) <= p.len(),
    decreases p.len(),
{
    if p.len() > 0 && p[0] != SEP {
        lemma_first_seg_len_bound(p.drop_first());
    }
}

/// The non-empty segments of `p`, in order: maximal runs of non-separator
/// bytes.
pub open spec fn segments_of(p: Seq<u8>) -> Seq<Seq<u8>>
    decreases p.len(),
    via segments_of_dec
{
    if p.len() == 0 {
        Seq::empty()
    } else if p[0] == SEP {
        segments_of(p.drop_first())
    } else {
        let k = 1 + first_seg_len(p.drop_first());
        seq![p.take(k as int)] + segments_of(p.skip(k as int))
    }
}

#[via_fn]
proof fn segments_of_dec(p: Seq<u8>) {
    if p.len() > 0 && p[0] != SEP {
        lemma_first_seg_len_bound(p.drop_first());
    }
}

/// The raw byte suffix of `p` that follows its first `k` segments: the
/// remainder after a matched `k`-segment prefix is stripped.
pub open spec fn after_segments(p: Seq<u8>, k: nat) -> Seq<u8>
    decreases p.len(),
    via after_segments_dec
{
    if k == 0 || p.len() == 0 {
        p
    } else if p[0] == SEP {
        after_segments(p.drop_first(), k)
    } else {
        let n = 1 + first_seg_len(p.drop_first());
        after_segments(p.skip(n as int), (k - 1) as nat)
    }
}

#[via_fn]
proof fn after_segments_dec(p: Seq<u8>, k: nat) {
    if k > 0 && p.len() > 0 && p[0] != SEP {
        lemma_first_seg_len_bound(p.drop_first());
    }
}

/// Index of the first `QMARK` in `p`, or `p.len()` if there is none.
pub open spec fn query_start(p: Seq<u8>) -> int
    decreases p.len(),
{
    if p.len() == 0 {
        0
    } else if p[0] == QMARK {
        0
    } else {
        1 + query_start(p.drop_first())
    }
}

/// The view of a sequence of byte vectors, element by element.
pub open spec fn view_segs(v: Seq<Vec<u8>>) -> Seq<Seq<u8>> {
    Seq::new(v.len(), |i: int| v[i]@)
}

proof fn lemma_first_seg_len_at(s: Seq<u8>, k: nat)
    requires
        k <= s.len(),
        forall|t: int| 0 <= t < k ==> s[t] != SEP,
        k == s.len() || s[k as int] == SEP,
    ensures
        first_seg_len(s) == k,
    decreases k,
{
    if k > 0 {
        lemma_first_seg_len_at(s.drop_first(), (k - 1) as nat);
    }
}

proof fn lemma_query_start_at(s: Seq<u8>, k: nat)
    requires
        k <= s.len(),
        forall|t: int| 0 <= t < k ==> s[t] != QMARK,
        k == s.len() || s[k as int] == QMARK,
    ensures
        query_start(s) == k,
    decreases k,
{
    if k > 0 {
        lemma_query_start_at(s.drop_first(), (k - 1) as nat);
    }
}

/// Byte-wise equality of two slices.
#[verifier::loop_isolation(false)]
pub fn bytes_eq(a: &[u8], b: &[u8]) -> (r: bool)
    ensures
        r <==> a@ == b@,
{
    if a.len() != b.len() {
        return false;
    }
    let mut i: usize = 0;
    while i < a.len()
        invariant
            i <= a@.len(),
            a@.len() == b@.len(),
            forall|j: int| 0 <= j < i ==> a@[j] == b@[j],
        decreases a@.len() - i,
    {
        if a[i] != b[i] {
            return false;
        }
        i = i + 1;
    }
    proof {
        assert(a@ =~= b@);
    }
    true
}

/// Copy of a byte vector.
pub fn clone_bytes(v: &Vec<u8>) -> (r: Vec<u8>)
    ensures
        r@ == v@,
{
    vstd::slice::slice_to_vec(v.as_slice())
}

/// Splits `p` into its non-empty segments.
#[verifier::loop_isolation(false)]
pub fn split_segments(p: &[u8]) -> (r: Vec<Vec<u8>>)
    ensures
        view_segs(r@) == segments_of(p@),
{
    let mut r: Vec<Vec<u8>> = Vec::new();
    let mut i: usize = 0;
    proof {
        assert(p@.skip(0) =~= p@);
        assert(view_segs(r@) + segments_of(p@) =~= segments_of(p@));
    }
    while i < p.len()
        invariant
            i <= p@.len(),
            segments_of(p@) == view_segs(r@) + segments_of(p@.skip(i as int)),
        decreases p@.len() - i,
    {
        if p[i] == SEP {
            proof {
                assert(p@.skip(i as int).drop_first() =~= p@.skip(i + 1));
            }
            i = i + 1;
        } else {
            let start = i;
            let mut j: usize = i + 1;
            while j < p.len() && p[j] != SEP
                invariant
                    start < j <= p@.len(),
                    forall|t: int| start <= t < j ==> p@[t] != SEP,
                decreases p@.len() - j,
            {
                j = j + 1;
            }
            let seg = vstd::slice::slice_to_vec(vstd::slice::slice_subrange(p, start, j));
            proof {
                let rest = p@.skip(start as int);
                lemma_first_seg_len_at(rest, (j - start) as nat);
                assert(rest.take((j - start) as int) =~= p@.subrange(start as int, j as int));
                assert(rest.skip((j - start) as int) =~= p@.skip(j as int));
                assert(view_segs(r@.push(seg)) =~= view_segs(r@) + seq![seg@]);
                assert(segments_of(p@) == view_segs(r@.push(seg)) + segments_of(p@.skip(j as int)));
            }
            r.push(seg);
            i = j;
        }
    }
    proof {
        assert(p@.skip(i as int) =~= Seq::<u8>::empty());
        assert(view_segs(r@) + segments_of(p@.skip(i as int)) =~= view_segs(r@));
    }
    r
}

/// The raw remainder of `p` after its first `k` segments.
#[verifier::loop_isolation(false)]
pub fn strip_segments(p: &[u8], k: usize) -> (r: Vec<u8>)
    requires
        k <= segments_of(p@).len(),
    ensures
        r@ == after_segments(p@, k as nat),
{
    let mut i: usize = 0;
    let mut c: usize = 0;
    proof {
        assert(p@.skip(0) =~= p@);
    }
    while c < k
        invariant
            c <= k,
            i <= p@.len(),
            k - c <= segments_of(p@.skip(i as int)).len(),
            after_segments(p@, k as nat) == after_segments(p@.skip(i as int), (k - c) as nat),
        decreases k - c,
    {
        // skip the separator run before the next segment
        while i < p.len() && p[i] == SEP
            invariant
                i <= p@.len(),
                c < k,
                k - c <= segments_of(p@.skip(i as int)).len(),
                after_segments(p@, k as nat) == after_segments(p@.skip(i as int), (k - c) as nat),
            decreases p@.len() - i,
        {
            proof {
                assert(p@.skip(i as int).drop_first() =~= p@.skip(i + 1));
            }
            i = i + 1;
        }
        // a segment must start here: there are still segments left
        proof {
            if i == p.len() {
                assert(p@.skip(i as int) =~= Seq::<u8>::empty());
                assert(segments_of(Seq::<u8>::empty()).len() == 0);
                assert(false);
            }
        }
        let start = i;
        let mut j: usize = i + 1;
        while j < p.len() && p[j] != SEP
            invariant
                start < j <= p@.len(),
                forall|t: int| start <= t < j ==> p@[t] != SEP,
            decreases p@.len() - j,
        {
            j = j + 1;
        }
        proof {
            let rest = p@.skip(start as int);
            lemma_first_seg_len_at(rest, (j - start) as nat);
            assert(rest.skip((j - start) as int) =~= p@.skip(j as int));
            assert(segments_of(rest) == seq![rest.take((j - start) as int)] + segments_of(
                p@.skip(j as int),
            ));
            assert(after_segments(rest, (k - c) as nat) == after_segments(
                p@.skip(j as int),
                (k - c - 1) as nat,
            ));
        }
        i = j;
        c = c + 1;
    }
    let r = vstd::slice::slice_to_vec(vstd::slice::slice_subrange(p, i, p.len()));
    proof {
        assert(r@ =~= p@.skip(i as int));
    }
    r
}

/// Index of the first `?` in `p`, or `p.len()` if there is none.
#[verifier::loop_isolation(false)]
pub fn find_query(p: &[u8]) -> (r: usize)
    ensures
        r as int == query_start(p@),
        r <= p@.len(),
{
    let mut i: usize = 0;
    while i < p.len() && p[i] != QMARK
        invariant
            i <= p@.len(),
            forall|t: int| 0 <= t < i ==> p@[t] != QMARK,
        decreases p@.len() - i,
    {
        i = i + 1;
    }
    proof {
        lemma_query_start_at(p@, i as nat);
    }
    i
}

} // verus!

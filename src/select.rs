use vstd::prelude::*;

verus! {

/// The images under `f` of the elements of `s` that `keep` accepts, in their order.
pub open spec fn select<A, B>(s: Seq<A>, keep: spec_fn(A) -> bool, f: spec_fn(A) -> B) -> Seq<B>
    decreases s.len(),
{
    if s.len() == 0 {
        Seq::empty()
    } else {
        let prev = select(s.drop_last(), keep, f);
        if keep(s.last()) {
            prev.push(f(s.last()))
        } else {
            prev
        }
    }
}

/// The sum of a sequence of marks.
pub open spec fn sum_marks(s: Seq<u8>) -> nat
    decreases s.len(),
{
    if s.len() == 0 {
        0
    } else {
        sum_marks(s.drop_last()) + s.last() as nat
    }
}

pub proof fn lemma_sum_bound(s: Seq<u8>)
    ensures
        sum_marks(s) <= 255 * s.len(),
    decreases s.len(),
{
    if s.len() > 0 {
        lemma_sum_bound(s.drop_last());
    }
}

/// Extending the window `[lo, i)` by the element at `i`.
pub proof fn lemma_select_step<A, B>(
    s: Seq<A>,
    lo: int,
    i: int,
    keep: spec_fn(A) -> bool,
    f: spec_fn(A) -> B,
)
    requires
        0 <= lo <= i < s.len(),
    ensures
        select(s.subrange(lo, i + 1), keep, f) == (if keep(s[i]) {
            select(s.subrange(lo, i), keep, f).push(f(s[i]))
        } else {
            select(s.subrange(lo, i), keep, f)
        }),
{
    let t = s.subrange(lo, i + 1);
    assert(t.drop_last() =~= s.subrange(lo, i));
    assert(t.last() == s[i]);
}

proof fn lemma_select_concat<A, B>(a: Seq<A>, b: Seq<A>, keep: spec_fn(A) -> bool, f: spec_fn(A) -> B)
    ensures
        select(a + b, keep, f) == select(a, keep, f) + select(b, keep, f),
    decreases b.len(),
{
    if b.len() == 0 {
        assert(a + b =~= a);
        assert(select(a, keep, f) + select(b, keep, f) =~= select(a, keep, f));
    } else {
        assert((a + b).drop_last() =~= a + b.drop_last());
        assert((a + b).last() == b.last());
        lemma_select_concat(a, b.drop_last(), keep, f);
        if keep(b.last()) {
            assert(select(a, keep, f) + select(b.drop_last(), keep, f).push(f(b.last())) =~= (
            select(a, keep, f) + select(b.drop_last(), keep, f)).push(f(b.last())));
        }
    }
}

/// When `keep` rejects every element, nothing is selected.
pub proof fn lemma_select_none<A, B>(s: Seq<A>, keep: spec_fn(A) -> bool, f: spec_fn(A) -> B)
    requires
        forall|i: int| 0 <= i < s.len() ==> !keep(#[trigger] s[i]),
    ensures
        select(s, keep, f) == Seq::<B>::empty(),
    decreases s.len(),
{
    if s.len() > 0 {
        assert(!keep(s[s.len() - 1]));
        lemma_select_none(s.drop_last(), keep, f);
    }
}

/// When `keep` rejects everything outside `[lo, hi)`, selecting from that window is selecting
/// from the whole sequence.
pub proof fn lemma_select_window<A, B>(
    s: Seq<A>,
    lo: int,
    hi: int,
    keep: spec_fn(A) -> bool,
    f: spec_fn(A) -> B,
)
    requires
        0 <= lo <= hi <= s.len(),
        forall|i: int| 0 <= i < lo ==> !keep(#[trigger] s[i]),
        forall|i: int| hi <= i < s.len() ==> !keep(#[trigger] s[i]),
    ensures
        select(s, keep, f) == select(s.subrange(lo, hi), keep, f),
{
    let a = s.subrange(0, lo);
    let m = s.subrange(lo, hi);
    let b = s.subrange(hi, s.len() as int);
    assert(s =~= a + m + b);
    lemma_select_concat(a + m, b, keep, f);
    lemma_select_concat(a, m, keep, f);
    assert forall|i: int| 0 <= i < a.len() implies !keep(#[trigger] a[i]) by {
        assert(a[i] == s[i]);
    }
    assert forall|i: int| 0 <= i < b.len() implies !keep(#[trigger] b[i]) by {
        assert(b[i] == s[hi + i]);
    }
    lemma_select_none(a, keep, f);
    lemma_select_none(b, keep, f);
    assert(Seq::<B>::empty() + select(m, keep, f) + Seq::<B>::empty() =~= select(m, keep, f));
}

} // verus!

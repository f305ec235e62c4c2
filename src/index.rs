use crate::model::{LocationVisit, UserVisit};
use vstd::prelude::*;

verus! {

/// An entry of a date-sorted visit index.
pub trait Dated {
    /// The date of the visit that the entry stands for.
    spec fn date(&self) -> i32;

    /// Reads the date.
    fn date_key(&self) -> (r: i32)
        ensures
            r == self.date(),
    ;
}

impl Dated for UserVisit {
    open spec fn date(&self) -> i32 {
        self.visited_at
    }

    fn date_key(&self) -> (r: i32) {
        self.visited_at
    }
}

impl Dated for LocationVisit {
    open spec fn date(&self) -> i32 {
        self.visited_at
    }

    fn date_key(&self) -> (r: i32) {
        self.visited_at
    }
}

/// Dates never decrease along `s`.
pub open spec fn sorted_by_date<T: Dated>(s: Seq<T>) -> bool {
    forall|i: int, j: int| 0 <= i <= j < s.len() ==> #[trigger] s[i].date() <= #[trigger] s[j].date()
}

/// The entries before `p` are dated before `d`, the others not.
pub open spec fn splits_before<T: Dated>(s: Seq<T>, p: int, d: i32) -> bool {
    &&& 0 <= p <= s.len()
    &&& forall|i: int| 0 <= i < p ==> #[trigger] s[i].date() < d
    &&& forall|i: int| p <= i < s.len() ==> #[trigger] s[i].date() >= d
}

/// The entries before `p` are dated no later than `d`, the others after it.
pub open spec fn splits_after<T: Dated>(s: Seq<T>, p: int, d: i32) -> bool {
    &&& 0 <= p <= s.len()
    &&& forall|i: int| 0 <= i < p ==> #[trigger] s[i].date() <= d
    &&& forall|i: int| p <= i < s.len() ==> #[trigger] s[i].date() > d
}

/// Where an entry dated `d` goes into the sorted `s`: the first position whose date is not
/// before `d` (found from the back), so that it lands ahead of the entries that share its date.
pub open spec fn insertion_point<T: Dated>(s: Seq<T>, d: i32) -> int
    decreases s.len(),
{
    if s.len() == 0 {
        0
    } else if s.last().date() < d {
        s.len() as int
    } else {
        insertion_point(s.drop_last(), d)
    }
}

proof fn lemma_split_exists<T: Dated>(s: Seq<T>, d: i32)
    requires
        sorted_by_date(s),
    ensures
        splits_before(s, insertion_point(s, d), d),
    decreases s.len(),
{
    if s.len() == 0 {
        assert(splits_before(s, 0, d));
    } else {
        let t = s.drop_last();
        assert forall|i: int, j: int| 0 <= i <= j < t.len() implies #[trigger] t[i].date()
            <= #[trigger] t[j].date() by {
            assert(s[i].date() <= s[j].date());
        }
        lemma_split_exists(t, d);
        let q = insertion_point(t, d);
        if s.last().date() < d {
            assert(splits_before(s, s.len() as int, d)) by {
                assert forall|i: int| 0 <= i < s.len() implies #[trigger] s[i].date() < d by {
                    if i < t.len() {
                        assert(s[i].date() <= s[s.len() - 1].date());
                    }
                }
            }
        } else {
            assert(splits_before(s, q, d)) by {
                assert forall|i: int| 0 <= i < q implies #[trigger] s[i].date() < d by {
                    assert(s[i] == t[i]);
                }
                assert forall|i: int| q <= i < s.len() implies #[trigger] s[i].date() >= d by {
                    if i < t.len() {
                        assert(s[i] == t[i]);
                    }
                }
            }
        }
    }
}

/// A split position is unique.
proof fn lemma_split_unique<T: Dated>(s: Seq<T>, p: int, q: int, d: i32)
    requires
        splits_before(s, p, d),
        splits_before(s, q, d),
    ensures
        p == q,
{
    if p < q {
        assert(s[p].date() >= d);
        assert(s[p].date() < d);
    } else if q < p {
        assert(s[q].date() >= d);
        assert(s[q].date() < d);
    }
}

/// `new` is the sorted index `old` with `e` inserted at its insertion point: it is sorted, and
/// `e` stands ahead of every entry that already had its date.
pub open spec fn inserted_first<T: Dated>(old: Seq<T>, new: Seq<T>, e: T) -> bool {
    let p = insertion_point(old, e.date());
    &&& 0 <= p <= old.len()
    &&& new == old.insert(p, e)
    &&& sorted_by_date(new)
    &&& new[p] == e
    &&& forall|i: int|
        0 <= i < old.len() && #[trigger] old[i].date() == e.date() ==> p <= i && new[i + 1]
            == old[i]
}

/// Inserting an entry at its insertion point keeps a sorted index sorted, and puts the entry
/// ahead of every entry that already had its date: of two entries of one date, the one
/// inserted last comes first.
pub proof fn lemma_insert_sorted<T: Dated>(s: Seq<T>, e: T)
    requires
        sorted_by_date(s),
    ensures
        inserted_first(s, s.insert(insertion_point(s, e.date()), e), e),
{
    let d = e.date();
    lemma_split_exists(s, d);
    let p = insertion_point(s, d);
    let t = s.insert(p, e);
    assert forall|i: int, j: int| 0 <= i <= j < t.len() implies #[trigger] t[i].date()
        <= #[trigger] t[j].date() by {
        if j < p {
            assert(s[i].date() <= s[j].date());
        } else if j == p {
            if i < p {
                assert(t[i] == s[i]);
            }
        } else if i < p {
            assert(s[i].date() < d);
            assert(s[j - 1].date() >= d);
        } else if i == p {
            assert(s[j - 1].date() >= d);
        } else {
            assert(s[i - 1].date() <= s[j - 1].date());
        }
    }
}

/// The first position whose entry is not dated before `d`.
pub fn first_not_before<T: Dated>(v: &Vec<T>, d: i32) -> (r: usize)
    requires
        sorted_by_date(v@),
    ensures
        splits_before(v@, r as int, d),
        r == insertion_point(v@, d),
{
    let mut lo: usize = 0;
    let mut hi: usize = v.len();
    while lo < hi
        invariant
            0 <= lo <= hi <= v@.len(),
            sorted_by_date(v@),
            forall|i: int| 0 <= i < lo ==> #[trigger] v@[i].date() < d,
            forall|i: int| hi <= i < v@.len() ==> #[trigger] v@[i].date() >= d,
        decreases hi - lo,
    {
        let mid = lo + (hi - lo) / 2;
        if v[mid].date_key() < d {
            assert forall|i: int| 0 <= i <= mid implies #[trigger] v@[i].date() < d by {
                assert(v@[i].date() <= v@[mid as int].date());
            }
            lo = mid + 1;
        } else {
            assert forall|i: int| mid <= i < v@.len() implies #[trigger] v@[i].date() >= d by {
                assert(v@[mid as int].date() <= v@[i].date());
            }
            hi = mid;
        }
    }
    proof {
        lemma_split_exists(v@, d);
        lemma_split_unique(v@, lo as int, insertion_point(v@, d), d);
    }
    lo
}

/// The first position whose entry is dated after `d`.
pub fn first_after<T: Dated>(v: &Vec<T>, d: i32) -> (r: usize)
    requires
        sorted_by_date(v@),
    ensures
        splits_after(v@, r as int, d),
{
    let mut lo: usize = 0;
    let mut hi: usize = v.len();
    while lo < hi
        invariant
            0 <= lo <= hi <= v@.len(),
            sorted_by_date(v@),
            forall|i: int| 0 <= i < lo ==> #[trigger] v@[i].date() <= d,
            forall|i: int| hi <= i < v@.len() ==> #[trigger] v@[i].date() > d,
        decreases hi - lo,
    {
        let mid = lo + (hi - lo) / 2;
        if v[mid].date_key() <= d {
            assert forall|i: int| 0 <= i <= mid implies #[trigger] v@[i].date() <= d by {
                assert(v@[i].date() <= v@[mid as int].date());
            }
            lo = mid + 1;
        } else {
            assert forall|i: int| mid <= i < v@.len() implies #[trigger] v@[i].date() > d by {
                assert(v@[mid as int].date() <= v@[i].date());
            }
            hi = mid;
        }
    }
    lo
}

/// Inserts `e` into the sorted index `v` at its insertion point.
pub fn insert_sorted<T: Dated>(v: &mut Vec<T>, e: T)
    requires
        sorted_by_date(old(v)@),
    ensures
        final(v)@ == old(v)@.insert(insertion_point(old(v)@, e.date()), e),
        sorted_by_date(final(v)@),
{
    let p = first_not_before(v, e.date_key());
    proof {
        lemma_insert_sorted(v@, e);
    }
    v.insert(p, e);
}

} // verus!

use std::collections::HashMap;
use vstd::prelude::*;
use vstd::std_specs::hash::lemma_hashmap_deepview_dom;

verus! {

/// True when no string occurs twice in `d`.
pub open spec fn distinct(d: Seq<Seq<char>>) -> bool {
    forall|i: int, j: int| 0 <= i < d.len() && 0 <= j < d.len() && i != j ==> d[i] != d[j]
}

/// The position of `s` in `d` (meaningful when `d` contains `s`).
pub open spec fn id_in(d: Seq<Seq<char>>, s: Seq<char>) -> int {
    choose|i: int| 0 <= i < d.len() && d[i] == s
}

/// What `put` does to a dictionary whose strings are `d`: the strings afterwards, and the id
/// handed back. A known string keeps its id; a new one is appended with the next id.
pub open spec fn put_result(d: Seq<Seq<char>>, s: Seq<char>) -> (Seq<Seq<char>>, int) {
    if d.contains(s) {
        (d, id_in(d, s))
    } else {
        (d.push(s), d.len() as int)
    }
}

/// Putting the same string twice hands back the same id and leaves the second time nothing
/// changed; the id always leads back to the string.
pub proof fn lemma_put_stable(d: Seq<Seq<char>>, s: Seq<char>)
    requires
        distinct(d),
    ensures
        put_result(put_result(d, s).0, s) == put_result(d, s),
        0 <= put_result(d, s).1 < put_result(d, s).0.len(),
        put_result(d, s).0[put_result(d, s).1] == s,
        distinct(put_result(d, s).0),
{
    let (d1, i1) = put_result(d, s);
    if d.contains(s) {
        let k = choose|k: int| 0 <= k < d.len() && d[k] == s;
        assert(0 <= i1 < d.len() && d[i1] == s);
    } else {
        assert(d1[d.len() as int] == s);
        assert(d1.contains(s));
        assert forall|i: int, j: int|
            0 <= i < d1.len() && 0 <= j < d1.len() && i != j implies d1[i] != d1[j] by {
            if i < d.len() && j < d.len() {
            } else if i < d.len() {
                assert(d1[i] == d[i]);
                assert(d.contains(d[i]));
            } else {
                assert(d1[j] == d[j]);
                assert(d.contains(d[j]));
            }
        }
        let i2 = id_in(d1, s);
        assert(0 <= i2 < d1.len() && d1[i2] == s);
        if i2 != i1 {
            assert(d1[i2] != d1[i1]);
        }
    }
}

/// Relies on HashMap::get: the id stored under the key with the characters of `key`, if any.
#[verifier::external_body]
fn index_get(index: &HashMap<String, usize>, key: &str) -> (r: Option<usize>)
    ensures
        r == (if index.deep_view().contains_key(key@) {
            Some(index.deep_view()[key@])
        } else {
            None::<usize>
        }),
{
    index.get(key).copied()
}

/// Relies on HashMap::insert: afterwards `key` maps to `value`, and every other key keeps its
/// value.
#[verifier::external_body]
fn index_insert(index: &mut HashMap<String, usize>, key: String, value: usize)
    ensures
        final(index).deep_view() == old(index).deep_view().insert(key@, value),
{
    index.insert(key, value);
}

/// A string interner: each distinct string gets a dense id, in first-seen order from 0.
pub struct Dict {
    map: HashMap<String, usize>,
    vec: Vec<String>,
}

impl View for Dict {
    type V = Seq<Seq<char>>;

    /// The interned strings, indexed by id.
    closed spec fn view(&self) -> Seq<Seq<char>> {
        self.vec@.map_values(|s: String| s@)
    }
}

impl Dict {
    /// The lookup table and the id-ordered strings agree.
    pub closed spec fn wf(&self) -> bool {
        let m = self.map.deep_view();
        &&& forall|i: int|
            0 <= i < self.vec@.len() ==> #[trigger] m.contains_key(self.vec@[i]@) && m[self.vec@[i]@]
                == i
        &&& forall|k: Seq<char>|
            #[trigger] m.contains_key(k) ==> m[k] < self.vec@.len() && self.vec@[m[k] as int]@ == k
    }

    proof fn lemma_wf_distinct(&self)
        requires
            self.wf(),
        ensures
            distinct(self@),
    {
        assert forall|i: int, j: int|
            0 <= i < self@.len() && 0 <= j < self@.len() && i != j implies self@[i] != self@[j] by {
            assert(self@[i] == self.vec@[i]@);
            assert(self@[j] == self.vec@[j]@);
            assert(self.map.deep_view().contains_key(self.vec@[i]@));
            assert(self.map.deep_view().contains_key(self.vec@[j]@));
        }
    }

    /// An empty dictionary.
    pub fn new() -> (r: Dict)
        ensures
            r.wf(),
            r@ == Seq::<Seq<char>>::empty(),
    {
        let r = Dict { map: HashMap::new(), vec: Vec::new() };
        proof {
            lemma_hashmap_deepview_dom(r.map);
            assert(r.map.deep_view().dom() =~= Set::empty());
            assert(r@ =~= Seq::<Seq<char>>::empty());
        }
        r
    }

    /// The number of interned strings.
    pub fn len(&self) -> (r: usize)
        ensures
            r == self@.len(),
    {
        self.vec.len()
    }

    /// Returns the id of `key`, interning it first if it is new.
    pub fn put(&mut self, key: String) -> (r: usize)
        requires
            old(self).wf(),
        ensures
            final(self).wf(),
            distinct(final(self)@),
            final(self)@ == put_result(old(self)@, key@).0,
            r == put_result(old(self)@, key@).1,
            r < final(self)@.len() && final(self)@[r as int] == key@,
    {
        proof {
            self.lemma_wf_distinct();
        }
        match index_get(&self.map, key.as_str()) {
            Some(i) => {
                proof {
                    let m = self.map.deep_view();
                    assert(m.contains_key(key@));
                    assert(self@[i as int] == key@);
                    assert(self@.contains(key@));
                    lemma_put_stable(self@, key@);
                    let j = id_in(self@, key@);
                    if j != i {
                        assert(self@[j] != self@[i as int]);
                    }
                }
                i
            },
            None => {
                let i = self.vec.len();
                proof {
                    if self@.contains(key@) {
                        let k = choose|k: int| 0 <= k < self@.len() && self@[k] == key@;
                        assert(self.vec@[k]@ == key@);
                        assert(self.map.deep_view().contains_key(self.vec@[k]@));
                    }
                }
                let ghost old_vec = self.vec@;
                let ghost old_m = self.map.deep_view();
                self.vec.push(key.clone());
                index_insert(&mut self.map, key, i);
                proof {
                    let m = self.map.deep_view();
                    assert(self@ =~= put_result(old(self)@, key@).0);
                    assert forall|j: int| 0 <= j < self.vec@.len() implies #[trigger] m.contains_key(
                        self.vec@[j]@,
                    ) && m[self.vec@[j]@] == j by {
                        if j < i {
                            assert(self.vec@[j] == old_vec[j]);
                            assert(old_m.contains_key(old_vec[j]@));
                            assert(old_vec[j]@ != key@) by {
                                assert(old(self)@[j] == old_vec[j]@);
                            }
                        }
                    }
                    assert forall|k: Seq<char>| #[trigger] m.contains_key(k) implies m[k]
                        < self.vec@.len() && self.vec@[m[k] as int]@ == k by {
                        if k != key@ {
                            assert(old_m.contains_key(k));
                        }
                    }
                    lemma_put_stable(old(self)@, key@);
                }
                i
            },
        }
    }

    /// The string with id `idx`.
    pub fn string_at(&self, idx: usize) -> (r: String)
        requires
            idx < self@.len(),
        ensures
            r@ == self@[idx as int],
    {
        self.vec[idx].clone()
    }

    /// The string with id `idx`, or `None` when no string has that id.
    pub fn get_by_idx(&self, idx: usize) -> (r: Option<String>)
        ensures
            match r {
                Some(s) => idx < self@.len() && s@ == self@[idx as int],
                None => idx >= self@.len(),
            },
    {
        if idx < self.vec.len() {
            Some(self.string_at(idx))
        } else {
            None
        }
    }

    /// The id of `s`, when it has been interned.
    pub fn id_of(&self, s: &str) -> (r: Option<usize>)
        requires
            self.wf(),
        ensures
            match r {
                Some(i) => i < self@.len() && self@[i as int] == s@,
                None => !self@.contains(s@),
            },
    {
        let r = index_get(&self.map, s);
        proof {
            if r.is_none() && self@.contains(s@) {
                let k = choose|k: int| 0 <= k < self@.len() && self@[k] == s@;
                assert(self.vec@[k]@ == s@);
                assert(self.map.deep_view().contains_key(self.vec@[k]@));
            }
        }
        r
    }

    /// Whether `s` has been interned.
    pub fn exist(&self, s: &str) -> (r: bool)
        requires
            self.wf(),
        ensures
            r == self@.contains(s@),
    {
        match self.id_of(s) {
            Some(i) => {
                assert(self@[i as int] == s@);
                true
            },
            None => false,
        }
    }
}

} // verus!

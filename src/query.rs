use crate::index::{
    first_after, first_not_before, sorted_by_date, splits_after, splits_before, Dated,
};
use crate::model::{
    gender_of, token_of, Gender, LocationAvgParams, LocationJSON, LocationVisit, UserJSON,
    UserVisit, UserVisitJSON, UserVisitsJSON, UserVisitsParams, VisitJSON,
};
use crate::select::{lemma_select_step, lemma_select_window, lemma_sum_bound, select, sum_marks};
use crate::storage::{location_entry_ok, store_ok, user_entry_ok, Storage, StoreView};
use vstd::prelude::*;

verus! {

/// Why a query has no answer.
#[derive(Clone, Copy, Debug, PartialEq, Eq, Structural)]
pub enum QueryError {
    /// The id is outside its table, or a filter names a country that is not known.
    NotFound,
    /// A filter value is malformed.
    BadRequest,
}

/// `j` is traveller `id` of `v`, with its names and gender written out.
pub open spec fn user_json_of(j: UserJSON, v: StoreView, id: int) -> bool {
    let u = v.users[id];
    &&& j.id == id as u32
    &&& j.email@ == u.email
    &&& j.first_name@ == v.first_names[u.first_name as int]
    &&& j.last_name@ == v.last_names[u.last_name as int]
    &&& j.gender@ == token_of(u.gender)
    &&& j.birth_date == u.birth_date
}

/// `j` is place `id` of `v`, with its names written out.
pub open spec fn location_json_of(j: LocationJSON, v: StoreView, id: int) -> bool {
    let l = v.locations[id];
    &&& j.id == id as u32
    &&& j.country@ == v.countries[l.country as int]
    &&& j.city@ == v.cities[l.city as int]
    &&& j.place@ == v.places[l.place as int]
    &&& j.distance == l.distance
}

/// One line of a traveller's visit list.
pub struct VisitRow {
    pub mark: u8,
    pub visited_at: i32,
    pub place: Seq<char>,
}

/// Whether an entry of a traveller's index passes the filters `p`: dated strictly between
/// the two dates, at a place in the country, strictly closer than the distance.
pub open spec fn user_keep(v: StoreView, p: UserVisitsParams) -> spec_fn(UserVisit) -> bool {
    |e: UserVisit|
        {
            let l = v.locations[e.location as int];
            &&& (p.from_date is Some ==> e.visited_at > p.from_date->Some_0)
            &&& (p.to_date is Some ==> e.visited_at < p.to_date->Some_0)
            &&& (p.country is Some ==> v.countries[l.country as int] == p.country->Some_0@)
            &&& (p.to_distance is Some ==> l.distance < p.to_distance->Some_0)
        }
}

/// The line that an entry of a traveller's index gives.
pub open spec fn user_row(v: StoreView) -> spec_fn(UserVisit) -> VisitRow {
    |e: UserVisit|
        {
            let w = v.visits[e.id as int];
            VisitRow {
                mark: w.mark,
                visited_at: w.visited_at,
                place: v.places[v.locations[e.location as int].place as int],
            }
        }
}

/// The visit list of traveller `id` under the filters `p`, in date order.
pub open spec fn user_visit_rows(v: StoreView, id: int, p: UserVisitsParams) -> Seq<VisitRow> {
    select(v.users[id].visits, user_keep(v, p), user_row(v))
}

/// Whether the visit list of traveller `id` under `p` can be given, and if not, why.
pub open spec fn user_visits_outcome(v: StoreView, id: int, p: UserVisitsParams) -> Result<
    (),
    QueryError,
> {
    if id >= v.users.len() {
        Err(QueryError::NotFound)
    } else if p.country is Some && p.country->Some_0@.len() == 0 {
        Err(QueryError::BadRequest)
    } else if p.country is Some && !v.countries.contains(p.country->Some_0@) {
        Err(QueryError::NotFound)
    } else {
        Ok(())
    }
}

/// The lines `out` are the rows `rows`.
pub open spec fn rows_match(out: Seq<UserVisitJSON>, rows: Seq<VisitRow>) -> bool {
    &&& out.len() == rows.len()
    &&& forall|i: int|
        0 <= i < out.len() ==> {
            &&& (#[trigger] out[i]).mark == rows[i].mark
            &&& out[i].visited_at == rows[i].visited_at
            &&& out[i].place@ == rows[i].place
        }
}

/// Whether an entry of a place's index passes the filters `p`: dated strictly between the two
/// dates, by a traveller strictly older than the one age and strictly younger than the other,
/// of the gender named.
pub open spec fn location_keep(v: StoreView, p: LocationAvgParams) -> spec_fn(LocationVisit) -> bool {
    |e: LocationVisit|
        {
            let u = v.users[v.visits[e.visit_id as int].user as int];
            &&& (p.from_date is Some ==> e.visited_at > p.from_date->Some_0)
            &&& (p.to_date is Some ==> e.visited_at < p.to_date->Some_0)
            &&& (p.from_age is Some ==> u.age > p.from_age->Some_0)
            &&& (p.to_age is Some ==> u.age < p.to_age->Some_0)
            &&& (p.gender is Some ==> gender_of(p.gender->Some_0@) == Some(u.gender))
        }
}

/// The mark of the visit that an entry of a place's index stands for.
pub open spec fn location_mark(v: StoreView) -> spec_fn(LocationVisit) -> u8 {
    |e: LocationVisit| v.visits[e.visit_id as int].mark
}

/// The marks of the visits to place `id` that pass the filters `p`.
pub open spec fn location_marks(v: StoreView, id: int, p: LocationAvgParams) -> Seq<u8> {
    select(v.locations[id].visits, location_keep(v, p), location_mark(v))
}

/// The mean of `marks` in hundred-thousandths, rounded to the nearest with halves away from
/// zero; 0 when there are no marks.
pub open spec fn rounded_mean(marks: Seq<u8>) -> int {
    if marks.len() == 0 {
        0
    } else {
        ((200000 * sum_marks(marks) + marks.len()) / (2 * marks.len())) as int
    }
}

/// A visit list is determined by the store and the query: two lists that both meet the contract
/// of `user_visits` for one store, traveller and filters agree line by line.
pub proof fn lemma_visit_lists_agree(
    v: StoreView,
    id: int,
    p: UserVisitsParams,
    a: Seq<UserVisitJSON>,
    b: Seq<UserVisitJSON>,
)
    requires
        rows_match(a, user_visit_rows(v, id, p)),
        rows_match(b, user_visit_rows(v, id, p)),
    ensures
        a.len() == b.len(),
        forall|i: int|
            0 <= i < a.len() ==> (#[trigger] a[i]).mark == b[i].mark && a[i].visited_at
                == b[i].visited_at && a[i].place@ == b[i].place@,
{
    assert forall|i: int| 0 <= i < a.len() implies (#[trigger] a[i]).mark == b[i].mark
        && a[i].visited_at == b[i].visited_at && a[i].place@ == b[i].place@ by {
        assert(a[i].mark == user_visit_rows(v, id, p)[i].mark);
        assert(b[i].mark == user_visit_rows(v, id, p)[i].mark);
    }
}

/// A traveller lookup is determined by the store and the id: two records that both meet the
/// contract of `get_user` agree field by field.
pub proof fn lemma_user_lookups_agree(v: StoreView, id: int, a: UserJSON, b: UserJSON)
    requires
        user_json_of(a, v, id),
        user_json_of(b, v, id),
    ensures
        a.id == b.id,
        a.email@ == b.email@,
        a.first_name@ == b.first_name@,
        a.last_name@ == b.last_name@,
        a.gender@ == b.gender@,
        a.birth_date == b.birth_date,
{
}

/// A place lookup is determined by the store and the id: two records that both meet the
/// contract of `get_location` agree field by field.
pub proof fn lemma_location_lookups_agree(v: StoreView, id: int, a: LocationJSON, b: LocationJSON)
    requires
        location_json_of(a, v, id),
        location_json_of(b, v, id),
    ensures
        a.id == b.id,
        a.country@ == b.country@,
        a.city@ == b.city@,
        a.place@ == b.place@,
        a.distance == b.distance,
{
}

impl Storage {
    /// Traveller `id`.
    pub fn get_user(&self, id: usize) -> (r: Result<UserJSON, QueryError>)
        requires
            self.wf(),
        ensures
            match r {
                Ok(j) => id < self@.users.len() && user_json_of(j, self@, id as int),
                Err(e) => id >= self@.users.len() && e == QueryError::NotFound,
            },
    {
        if id >= self.user_count() {
            return Err(QueryError::NotFound);
        }
        proof {
            self.lemma_store_ok();
        }
        let u = self.user(id);
        assert(self@.users[id as int].first_name < self@.first_names.len());
        let first_name = self.first_names().string_at(u.first_name);
        let last_name = self.last_names().string_at(u.last_name);
        Ok(
            UserJSON {
                id: id as u32,
                email: u.email.clone(),
                first_name,
                last_name,
                gender: u.gender.to_string(),
                birth_date: u.birth_date,
            },
        )
    }
    /// Visit `id`.
    pub fn get_visit(&self, id: usize) -> (r: Result<VisitJSON, QueryError>)
        ensures
            r == (if id < self@.visits.len() {
                let w = self@.visits[id as int];
                Ok(
                    VisitJSON {
                        id: id as u32,
                        user: w.user,
                        location: w.location,
                        mark: w.mark,
                        visited_at: w.visited_at,
                    },
                )
            } else {
                Err(QueryError::NotFound)
            }),
    {
        if id >= self.visit_count() {
            return Err(QueryError::NotFound);
        }
        let w = self.visit(id);
        Ok(
            VisitJSON {
                id: id as u32,
                user: w.user,
                location: w.location,
                mark: w.mark,
                visited_at: w.visited_at,
            },
        )
    }

    /// Place `id`.
    pub fn get_location(&self, id: usize) -> (r: Result<LocationJSON, QueryError>)
        requires
            self.wf(),
        ensures
            match r {
                Ok(j) => id < self@.locations.len() && location_json_of(j, self@, id as int),
                Err(e) => id >= self@.locations.len() && e == QueryError::NotFound,
            },
    {
        if id >= self.location_count() {
            return Err(QueryError::NotFound);
        }
        proof {
            self.lemma_store_ok();
        }
        let l = self.location(id);
        assert(self@.locations[id as int].country < self@.countries.len());
        let country = self.countries().string_at(l.country);
        let city = self.cities().string_at(l.city);
        let place = self.places().string_at(l.place);
        Ok(LocationJSON { id: id as u32, distance: l.distance, city, country, place })
    }
    /// The visits of traveller `id` that pass the filters `params`, in date order. The date
    /// window is found by binary search in the traveller's sorted index; the other filters are
    /// applied to each entry in it.
    pub fn user_visits(&self, id: usize, params: &UserVisitsParams) -> (r: Result<
        UserVisitsJSON,
        QueryError,
    >)
        requires
            self.wf(),
        ensures
            match r {
                Ok(j) => user_visits_outcome(self@, id as int, *params) is Ok && rows_match(
                    j.visits@,
                    user_visit_rows(self@, id as int, *params),
                ),
                Err(e) => user_visits_outcome(self@, id as int, *params) == Err::<(), QueryError>(e),
            },
    {
        if id >= self.user_count() {
            return Err(QueryError::NotFound);
        }
        proof {
            self.lemma_store_ok();
        }
        let ghost v = self@;
        let ghost p = *params;
        let mut country: Option<usize> = None;
        match &params.country {
            Some(c) => {
                if c.as_str().is_empty() {
                    return Err(QueryError::BadRequest);
                }
                match self.countries().id_of(c.as_str()) {
                    Some(k) => {
                        country = Some(k);
                    },
                    None => {
                        return Err(QueryError::NotFound);
                    },
                }
            },
            None => {},
        }
        let u = self.user(id);
        let ghost es = u.visits@;
        let ghost keep = user_keep(v, p);
        let ghost row = user_row(v);
        assert(sorted_by_date(es));
        let mut end: usize = u.visits.len();
        match params.to_date {
            Some(t) => {
                end = first_not_before(&u.visits, t);
            },
            None => {},
        }
        let mut lo: usize = 0;
        match params.from_date {
            Some(f) => {
                lo = first_after(&u.visits, f);
            },
            None => {},
        }
        let hi = if end < lo {
            lo
        } else {
            end
        };
        let mut out: Vec<UserVisitJSON> = Vec::new();
        let mut i: usize = lo;
        while i < hi
            invariant
                self.wf(),
                v == self@,
                p == *params,
                store_ok(v),
                (id as int) < v.users.len(),
                es == v.users[id as int].visits,
                u.visits@ == es,
                keep == user_keep(v, p),
                row == user_row(v),
                lo <= i <= hi <= es.len(),
                params.from_date is Some ==> splits_after(es, lo as int, params.from_date->Some_0),
                end <= hi,
                hi == end || hi == lo,
                params.to_date is Some ==> splits_before(es, end as int, params.to_date->Some_0),
                params.to_date is None ==> end == es.len(),
                params.country is Some <==> country is Some,
                country is Some ==> country->Some_0 < v.countries.len() && v.countries[country->Some_0 as int]
                    == params.country->Some_0@,
                rows_match(out@, select(es.subrange(lo as int, i as int), keep, row)),
            decreases hi - i,
        {
            let e = u.visits[i];
            proof {
                assert(user_entry_ok(v, id as int, es[i as int]));
                assert(v.visits[e.id as int].location < v.locations.len());
                assert(v.locations[e.location as int].country < v.countries.len());
            }
            let loc = self.location(e.location as usize);
            let mut kept = true;
            match country {
                Some(k) => {
                    if loc.country != k {
                        kept = false;
                        proof {
                            assert(v.countries[loc.country as int] != v.countries[k as int]);
                        }
                    }
                },
                None => {},
            }
            match params.to_distance {
                Some(d) => {
                    if loc.distance >= d {
                        kept = false;
                    }
                },
                None => {},
            }
            proof {
                assert(es[i as int] == e);
                assert(i < end);
                if params.from_date is Some {
                    assert(es[i as int].date() > params.from_date->Some_0);
                }
                if params.to_date is Some {
                    assert(es[i as int].date() < params.to_date->Some_0);
                }
            }
            assert(kept == keep(e));
            let ghost before = out@;
            if kept {
                let w = self.visit(e.id as usize);
                let place = self.places().string_at(loc.place);
                out.push(UserVisitJSON { mark: w.mark, visited_at: w.visited_at, place });
            }
            proof {
                lemma_select_step(es, lo as int, i as int, keep, row);
                let sel = select(es.subrange(lo as int, i as int + 1), keep, row);
                assert forall|j: int| 0 <= j < out@.len() implies {
                    &&& (#[trigger] out@[j]).mark == sel[j].mark
                    &&& out@[j].visited_at == sel[j].visited_at
                    &&& out@[j].place@ == sel[j].place
                } by {
                    if j < before.len() {
                        assert(out@[j] == before[j]);
                    }
                }
            }
            i = i + 1;
        }
        proof {
            assert forall|k: int| 0 <= k < lo implies !keep(#[trigger] es[k]) by {
                assert(es[k].date() <= params.from_date->Some_0);
            }
            assert forall|k: int| hi <= k < es.len() implies !keep(#[trigger] es[k]) by {
                assert(es[k].date() >= params.to_date->Some_0);
            }
            lemma_select_window(es, lo as int, hi as int, keep, row);
        }
        Ok(UserVisitsJSON { visits: out })
    }

    /// The mean mark of the visits to place `id` that pass the filters `params`, in
    /// hundred-thousandths, rounded half away from zero; 0 when no visit passes. The date
    /// window is found by binary search in the place's sorted index.
    pub fn location_avg(&self, id: usize, params: &LocationAvgParams) -> (r: Result<u64, QueryError>)
        requires
            self.wf(),
        ensures
            match r {
                Ok(a) => id < self@.locations.len() && a as int == rounded_mean(
                    location_marks(self@, id as int, *params),
                ),
                Err(e) => id >= self@.locations.len() && e == QueryError::NotFound,
            },
    {
        if id >= self.location_count() {
            return Err(QueryError::NotFound);
        }
        proof {
            self.lemma_store_ok();
        }
        let ghost v = self@;
        let ghost p = *params;
        let gender: Option<Option<Gender>> = match &params.gender {
            Some(g) => Some(Gender::from_token(g.as_str())),
            None => None,
        };
        let l = self.location(id);
        let ghost es = l.visits@;
        let ghost keep = location_keep(v, p);
        let ghost mark = location_mark(v);
        assert(sorted_by_date(es));
        let mut end: usize = l.visits.len();
        match params.to_date {
            Some(t) => {
                end = first_not_before(&l.visits, t);
            },
            None => {},
        }
        let mut lo: usize = 0;
        match params.from_date {
            Some(f) => {
                lo = first_after(&l.visits, f);
            },
            None => {},
        }
        let hi = if end < lo {
            lo
        } else {
            end
        };
        let mut total: u128 = 0;
        let mut count: u128 = 0;
        let mut i: usize = lo;
        while i < hi
            invariant
                self.wf(),
                v == self@,
                p == *params,
                store_ok(v),
                (id as int) < v.locations.len(),
                es == v.locations[id as int].visits,
                l.visits@ == es,
                keep == location_keep(v, p),
                mark == location_mark(v),
                lo <= i <= hi <= es.len(),
                end <= hi,
                hi == end || hi == lo,
                params.from_date is Some ==> splits_after(es, lo as int, params.from_date->Some_0),
                params.to_date is Some ==> splits_before(es, end as int, params.to_date->Some_0),
                params.to_date is None ==> end == es.len(),
                params.gender is Some <==> gender is Some,
                gender is Some ==> gender->Some_0 == gender_of(params.gender->Some_0@),
                count == select(es.subrange(lo as int, i as int), keep, mark).len(),
                total == sum_marks(select(es.subrange(lo as int, i as int), keep, mark)),
                count <= i - lo,
            decreases hi - i,
        {
            let e = l.visits[i];
            proof {
                assert(es[i as int] == e);
                assert(location_entry_ok(v, id as int, e));
                assert(v.visits[e.visit_id as int].user < v.users.len());
                assert(i < end);
                if params.from_date is Some {
                    assert(es[i as int].date() > params.from_date->Some_0);
                }
                if params.to_date is Some {
                    assert(es[i as int].date() < params.to_date->Some_0);
                }
            }
            let w = self.visit(e.visit_id as usize);
            let u = self.user(w.user as usize);
            let mut kept = true;
            match params.from_age {
                Some(a) => {
                    if u.age <= a {
                        kept = false;
                    }
                },
                None => {},
            }
            match params.to_age {
                Some(a) => {
                    if u.age >= a {
                        kept = false;
                    }
                },
                None => {},
            }
            match gender {
                Some(Some(g)) => {
                    if u.gender != g {
                        kept = false;
                    }
                },
                Some(None) => {
                    kept = false;
                },
                None => {},
            }
            assert(kept == keep(e));
            let ghost before = select(es.subrange(lo as int, i as int), keep, mark);
            proof {
                lemma_select_step(es, lo as int, i as int, keep, mark);
                lemma_sum_bound(before);
                assert(total <= 255 * count);
            }
            if kept {
                total = total + w.mark as u128;
                count = count + 1;
                proof {
                    let after = before.push(w.mark);
                    assert(after.drop_last() =~= before);
                }
            }
            i = i + 1;
        }
        proof {
            assert forall|k: int| 0 <= k < lo implies !keep(#[trigger] es[k]) by {
                assert(es[k].date() <= params.from_date->Some_0);
            }
            assert forall|k: int| hi <= k < es.len() implies !keep(#[trigger] es[k]) by {
                assert(es[k].date() >= params.to_date->Some_0);
            }
            lemma_select_window(es, lo as int, hi as int, keep, mark);
            lemma_sum_bound(select(es, keep, mark));
        }
        if count == 0 {
            return Ok(0);
        }
        let ghost n = count as int;
        let ghost t = total as int;
        assert(t <= 255 * n);
        assert(200000 * t + n <= 51000001 * n) by (nonlinear_arith)
            requires
                t <= 255 * n,
                n > 0,
        ;
        assert((200000 * t + n) / (2 * n) <= 25500001) by (nonlinear_arith)
            requires
                200000 * t + n <= 51000001 * n,
                n > 0,
                t >= 0,
        ;
        let avg = (200000 * total + count) / (2 * count);
        Ok(avg as u64)
    }

}

} // verus!

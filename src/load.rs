use crate::model::{gender_of, LocationJSON, UserJSON, VisitJSON};
use crate::storage::{
    user_outcome, visit_outcome, whole_years, with_location, with_user, with_visit, Storage,
    StoreError, StoreView,
};
use vstd::prelude::*;

verus! {

/// The table that a record belongs to.
#[derive(Clone, Copy, Debug, PartialEq, Eq, Structural)]
pub enum Table {
    Locations,
    Users,
    Visits,
}

/// A record that could not be stored while loading, and why.
#[derive(Clone, Copy, Debug, PartialEq, Eq, Structural)]
pub struct LoadError {
    pub table: Table,
    pub id: u32,
    pub error: StoreError,
}

/// Applies `step` to each record of `rs` in turn, stopping at the first failure.
pub open spec fn fold_records<R>(
    v: StoreView,
    rs: Seq<R>,
    step: spec_fn(StoreView, R) -> Result<StoreView, LoadError>,
) -> Result<StoreView, LoadError>
    decreases rs.len(),
{
    if rs.len() == 0 {
        Ok(v)
    } else {
        match fold_records(v, rs.drop_last(), step) {
            Ok(w) => step(w, rs.last()),
            Err(e) => Err(e),
        }
    }
}

/// Storing one place record.
pub open spec fn location_step() -> spec_fn(StoreView, LocationJSON) -> Result<StoreView, LoadError> {
    |w: StoreView, r: LocationJSON|
        if r.id as usize == w.locations.len() {
            Ok(with_location(w, r.country@, r.city@, r.place@, r.distance))
        } else {
            Err(LoadError { table: Table::Locations, id: r.id, error: StoreError::InvalidId })
        }
}

/// Storing one traveller record.
pub open spec fn user_step() -> spec_fn(StoreView, UserJSON) -> Result<StoreView, LoadError> {
    |w: StoreView, r: UserJSON|
        {
            let age = whole_years(r.birth_date as i64, w.timestamp);
            match user_outcome(w, r.id as usize, r.email@, r.gender@, age) {
                Ok(_) => Ok(
                    with_user(
                        w,
                        r.email@,
                        r.first_name@,
                        r.last_name@,
                        r.birth_date,
                        gender_of(r.gender@)->Some_0,
                        age->Some_0,
                    ),
                ),
                Err(e) => Err(LoadError { table: Table::Users, id: r.id, error: e }),
            }
        }
}

/// Storing one visit record.
pub open spec fn visit_step() -> spec_fn(StoreView, VisitJSON) -> Result<StoreView, LoadError> {
    |w: StoreView, r: VisitJSON|
        match visit_outcome(w, r.id, r.user, r.location) {
            Ok(_) => Ok(with_visit(w, r.id, r.user, r.location, r.visited_at, r.mark)),
            Err(e) => Err(LoadError { table: Table::Visits, id: r.id, error: e }),
        }
}

/// The store after loading: the reference time is set, then the places, the travellers and the
/// visits are stored in the order given; the first record that fails ends the load.
pub open spec fn load_outcome(
    v: StoreView,
    timestamp: i64,
    locations: Seq<LocationJSON>,
    users: Seq<UserJSON>,
    visits: Seq<VisitJSON>,
) -> Result<StoreView, LoadError> {
    match fold_records(StoreView { timestamp, ..v }, locations, location_step()) {
        Ok(a) => match fold_records(a, users, user_step()) {
            Ok(b) => fold_records(b, visits, visit_step()),
            Err(e) => Err(e),
        },
        Err(e) => Err(e),
    }
}

proof fn lemma_fold_prefix<R>(
    v: StoreView,
    rs: Seq<R>,
    i: int,
    step: spec_fn(StoreView, R) -> Result<StoreView, LoadError>,
)
    requires
        0 <= i < rs.len(),
    ensures
        fold_records(v, rs.subrange(0, i + 1), step) == match fold_records(
            v,
            rs.subrange(0, i),
            step,
        ) {
            Ok(w) => step(w, rs[i]),
            Err(e) => Err(e),
        },
{
    assert(rs.subrange(0, i + 1).drop_last() =~= rs.subrange(0, i));
}

proof fn lemma_fold_stops<R>(
    v: StoreView,
    rs: Seq<R>,
    i: int,
    step: spec_fn(StoreView, R) -> Result<StoreView, LoadError>,
)
    requires
        0 <= i <= rs.len(),
        fold_records(v, rs.subrange(0, i), step) is Err,
    ensures
        fold_records(v, rs, step) == fold_records(v, rs.subrange(0, i), step),
    decreases rs.len() - i,
{
    if i == rs.len() {
        assert(rs.subrange(0, i) =~= rs);
    } else {
        lemma_fold_prefix(v, rs, i, step);
        lemma_fold_stops(v, rs, i + 1, step);
    }
}

/// Loads the records into `storage`: sets the reference time, then stores the places, the
/// travellers and the visits in the order given, and stops at the first record that fails.
pub fn run(
    storage: &mut Storage,
    timestamp: i64,
    locations: &Vec<LocationJSON>,
    users: &Vec<UserJSON>,
    visits: &Vec<VisitJSON>,
) -> (r: Result<(), LoadError>)
    requires
        old(storage).wf(),
    ensures
        final(storage).wf(),
        match load_outcome(old(storage)@, timestamp, locations@, users@, visits@) {
            Ok(w) => r is Ok && final(storage)@ == w,
            Err(e) => r == Err::<(), LoadError>(e),
        },
{
    storage.set_timestamp(timestamp);
    let ghost start = storage@;
    let mut i: usize = 0;
    while i < locations.len()
        invariant
            storage.wf(),
            0 <= i <= locations@.len(),
            fold_records(start, locations@.subrange(0, i as int), location_step()) == Ok::<
                StoreView,
                LoadError,
            >(storage@),
            storage@.timestamp == timestamp,
            start == (StoreView { timestamp, ..old(storage)@ }),
        decreases locations@.len() - i,
    {
        let rec = &locations[i];
        proof {
            lemma_fold_prefix(start, locations@, i as int, location_step());
        }
        match storage.store_location(rec.id as usize, &rec.country, &rec.city, &rec.place, rec.distance) {
            Ok(()) => {},
            Err(e) => {
                let err = LoadError { table: Table::Locations, id: rec.id, error: e };
                proof {
                    assert(locations@[i as int] == *rec);
                    assert(location_step()(storage@, *rec) == Err::<StoreView, LoadError>(err));
                    lemma_fold_stops(start, locations@, i as int + 1, location_step());
                }
                return Err(err);
            },
        }
        i = i + 1;
    }
    assert(locations@.subrange(0, locations@.len() as int) =~= locations@);
    let ghost after_locations = storage@;
    let mut i: usize = 0;
    while i < users.len()
        invariant
            storage.wf(),
            0 <= i <= users@.len(),
            fold_records(after_locations, users@.subrange(0, i as int), user_step()) == Ok::<
                StoreView,
                LoadError,
            >(storage@),
            storage@.timestamp == timestamp,
            start == (StoreView { timestamp, ..old(storage)@ }),
            fold_records(start, locations@, location_step()) == Ok::<StoreView, LoadError>(
                after_locations,
            ),
        decreases users@.len() - i,
    {
        let rec = &users[i];
        proof {
            lemma_fold_prefix(after_locations, users@, i as int, user_step());
        }
        match storage.store_user(
            rec.id as usize,
            &rec.email,
            &rec.first_name,
            &rec.last_name,
            rec.birth_date,
            &rec.gender,
        ) {
            Ok(()) => {},
            Err(e) => {
                let err = LoadError { table: Table::Users, id: rec.id, error: e };
                proof {
                    assert(users@[i as int] == *rec);
                    assert(user_step()(storage@, *rec) == Err::<StoreView, LoadError>(err));
                    lemma_fold_stops(after_locations, users@, i as int + 1, user_step());
                }
                return Err(err);
            },
        }
        i = i + 1;
    }
    assert(users@.subrange(0, users@.len() as int) =~= users@);
    let ghost after_users = storage@;
    let mut i: usize = 0;
    while i < visits.len()
        invariant
            storage.wf(),
            0 <= i <= visits@.len(),
            fold_records(after_users, visits@.subrange(0, i as int), visit_step()) == Ok::<
                StoreView,
                LoadError,
            >(storage@),
            start == (StoreView { timestamp, ..old(storage)@ }),
            fold_records(start, locations@, location_step()) == Ok::<StoreView, LoadError>(
                after_locations,
            ),
            fold_records(after_locations, users@, user_step()) == Ok::<StoreView, LoadError>(
                after_users,
            ),
        decreases visits@.len() - i,
    {
        let rec = visits[i];
        proof {
            lemma_fold_prefix(after_users, visits@, i as int, visit_step());
        }
        match storage.store_visit(rec.id, rec.user, rec.location, rec.visited_at, rec.mark) {
            Ok(()) => {},
            Err(e) => {
                let err = LoadError { table: Table::Visits, id: rec.id, error: e };
                proof {
                    assert(visits@[i as int] == rec);
                    assert(visit_step()(storage@, rec) == Err::<StoreView, LoadError>(err));
                    lemma_fold_stops(after_users, visits@, i as int + 1, visit_step());
                }
                return Err(err);
            },
        }
        i = i + 1;
    }
    assert(visits@.subrange(0, visits@.len() as int) =~= visits@);
    Ok(())
}

} // verus!

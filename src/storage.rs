use crate::dict::{distinct, lemma_put_stable, put_result, Dict};
use crate::index::{
    insert_sorted, inserted_first, insertion_point, lemma_insert_sorted, sorted_by_date,
};
use crate::model::{gender_of, Gender, Location, LocationVisit, User, UserVisit, Visit};
use std::collections::HashSet;
use vstd::prelude::*;

verus! {

/// Why a record was not stored.
#[derive(Clone, Copy, Debug, PartialEq, Eq, Structural)]
pub enum StoreError {
    /// The id is not the current size of its table.
    InvalidId,
    /// Another traveller already has the email.
    DuplicateEmail,
    /// The gender token is neither "m" nor "f".
    InvalidGender,
    /// No whole number of years leads from the birth date to the reference time.
    InvalidBirthDate,
    /// The visit names a traveller or a place that does not exist.
    InvalidReference,
}

/// A traveller as the store sees it.
pub struct UserView {
    pub email: Seq<char>,
    pub first_name: usize,
    pub last_name: usize,
    pub birth_date: i32,
    pub age: u32,
    pub gender: Gender,
    pub visits: Seq<UserVisit>,
}

/// A place as the store sees it.
pub struct LocationView {
    pub country: usize,
    pub city: usize,
    pub place: usize,
    pub distance: u32,
    pub visits: Seq<LocationVisit>,
}

impl View for User {
    type V = UserView;

    open spec fn view(&self) -> UserView {
        UserView {
            email: self.email@,
            first_name: self.first_name,
            last_name: self.last_name,
            birth_date: self.birth_date,
            age: self.age,
            gender: self.gender,
            visits: self.visits@,
        }
    }
}

impl View for Location {
    type V = LocationView;

    open spec fn view(&self) -> LocationView {
        LocationView {
            country: self.country,
            city: self.city,
            place: self.place,
            distance: self.distance,
            visits: self.visits@,
        }
    }
}

/// The whole store: the three tables, the emails taken, the dictionaries and the reference
/// time for ages.
pub struct StoreView {
    pub users: Seq<UserView>,
    pub visits: Seq<Visit>,
    pub locations: Seq<LocationView>,
    pub emails: Set<Seq<char>>,
    pub first_names: Seq<Seq<char>>,
    pub last_names: Seq<Seq<char>>,
    pub countries: Seq<Seq<char>>,
    pub cities: Seq<Seq<char>>,
    pub places: Seq<Seq<char>>,
    pub timestamp: i64,
}

/// The texts of a set of strings.
pub open spec fn texts(s: Set<String>) -> Set<Seq<char>> {
    s.map(|k: String| k@)
}

/// Relies on HashSet::contains: whether a key with the characters of `email` is present.
#[verifier::external_body]
fn email_taken(set: &HashSet<String>, email: &str) -> (r: bool)
    ensures
        r == texts(set@).contains(email@),
{
    set.contains(email)
}

/// Relies on HashSet::insert: afterwards the key is present, along with all keys before.
#[verifier::external_body]
fn email_add(set: &mut HashSet<String>, email: String)
    ensures
        texts(final(set)@) == texts(old(set)@).insert(email@),
{
    set.insert(email);
}

/// Entry `e` of traveller `u`'s index points at a visit of `u` with the entry's place and date.
pub open spec fn user_entry_ok(v: StoreView, u: int, e: UserVisit) -> bool {
    &&& (e.id as int) < v.visits.len()
    &&& v.visits[e.id as int].user as int == u
    &&& v.visits[e.id as int].location == e.location
    &&& v.visits[e.id as int].visited_at == e.visited_at
}

/// Entry `e` of place `l`'s index points at a visit to `l` with the entry's date.
pub open spec fn location_entry_ok(v: StoreView, l: int, e: LocationVisit) -> bool {
    &&& (e.visit_id as int) < v.visits.len()
    &&& v.visits[e.visit_id as int].location as int == l
    &&& v.visits[e.visit_id as int].visited_at == e.visited_at
}

/// Each traveller's names are in the dictionaries, its index is sorted by date and points at
/// its own visits; emails are registered and no two travellers share one.
pub open spec fn users_ok(v: StoreView) -> bool {
    &&& forall|u: int|
        0 <= u < v.users.len() ==> {
            &&& (#[trigger] v.users[u]).first_name < v.first_names.len()
            &&& v.users[u].last_name < v.last_names.len()
            &&& sorted_by_date(v.users[u].visits)
            &&& v.emails.contains(v.users[u].email)
        }
    &&& forall|u: int, k: int|
        0 <= u < v.users.len() && 0 <= k < v.users[u].visits.len() ==> #[trigger] user_entry_ok(
            v,
            u,
            v.users[u].visits[k],
        )
    &&& forall|a: int, b: int|
        0 <= a < v.users.len() && 0 <= b < v.users.len() && a != b ==> #[trigger] v.users[a].email
            != #[trigger] v.users[b].email
}

/// Each place's names are in the dictionaries, its index is sorted by date and points at the
/// visits to it.
pub open spec fn locations_ok(v: StoreView) -> bool {
    &&& forall|l: int|
        0 <= l < v.locations.len() ==> {
            &&& (#[trigger] v.locations[l]).country < v.countries.len()
            &&& v.locations[l].city < v.cities.len()
            &&& v.locations[l].place < v.places.len()
            &&& sorted_by_date(v.locations[l].visits)
        }
    &&& forall|l: int, k: int|
        0 <= l < v.locations.len() && 0 <= k < v.locations[l].visits.len()
            ==> #[trigger] location_entry_ok(v, l, v.locations[l].visits[k])
}

/// Each visit names an existing traveller and place, and stands in both of their indices.
pub open spec fn visits_ok(v: StoreView) -> bool {
    forall|w: int|
        0 <= w < v.visits.len() ==> {
            &&& ((#[trigger] v.visits[w]).user as int) < v.users.len()
            &&& (v.visits[w].location as int) < v.locations.len()
            &&& exists|k: int|
                0 <= k < v.users[v.visits[w].user as int].visits.len() && (#[trigger] v.users[
                v.visits[w].user as int].visits[k]).id == w
            &&& exists|k: int|
                0 <= k < v.locations[v.visits[w].location as int].visits.len() && (
                #[trigger] v.locations[v.visits[w].location as int].visits[k]).visit_id == w
        }
}

/// The invariant of the store.
pub open spec fn store_ok(v: StoreView) -> bool {
    &&& users_ok(v)
    &&& locations_ok(v)
    &&& visits_ok(v)
    &&& distinct(v.first_names)
    &&& distinct(v.last_names)
    &&& distinct(v.countries)
    &&& distinct(v.cities)
    &&& distinct(v.places)
}

/// What storing a place does to a store `v`.
pub open spec fn with_location(
    v: StoreView,
    country: Seq<char>,
    city: Seq<char>,
    place: Seq<char>,
    distance: u32,
) -> StoreView {
    StoreView {
        locations: v.locations.push(
            LocationView {
                country: put_result(v.countries, country).1 as usize,
                city: put_result(v.cities, city).1 as usize,
                place: put_result(v.places, place).1 as usize,
                distance,
                visits: Seq::empty(),
            },
        ),
        countries: put_result(v.countries, country).0,
        cities: put_result(v.cities, city).0,
        places: put_result(v.places, place).0,
        ..v
    }
}

/// Storing a place keeps the invariant.
proof fn lemma_with_location_ok(
    v: StoreView,
    country: Seq<char>,
    city: Seq<char>,
    place: Seq<char>,
    distance: u32,
)
    requires
        store_ok(v),
    ensures
        store_ok(with_location(v, country, city, place, distance)),
{
    let n = with_location(v, country, city, place, distance);
    lemma_put_stable(v.countries, country);
    lemma_put_stable(v.cities, city);
    lemma_put_stable(v.places, place);
    assert(users_ok(n)) by {
        assert forall|u: int, k: int|
            0 <= u < n.users.len() && 0 <= k < n.users[u].visits.len() implies #[trigger] user_entry_ok(
            n,
            u,
            n.users[u].visits[k],
        ) by {
            assert(user_entry_ok(v, u, v.users[u].visits[k]));
        }
        assert forall|u: int| 0 <= u < n.users.len() implies (#[trigger] n.users[u]).first_name
            < n.first_names.len() && n.users[u].last_name < n.last_names.len() && sorted_by_date(
            n.users[u].visits,
        ) && n.emails.contains(n.users[u].email) by {
            assert(v.users[u] == n.users[u]);
        }
    }
    assert(locations_ok(n)) by {
        assert forall|l: int| 0 <= l < n.locations.len() implies (#[trigger] n.locations[l]).country
            < n.countries.len() && n.locations[l].city < n.cities.len() && n.locations[l].place
            < n.places.len() && sorted_by_date(n.locations[l].visits) by {
            if l < v.locations.len() {
                assert(n.locations[l] == v.locations[l]);
            }
        }
        assert forall|l: int, k: int|
            0 <= l < n.locations.len() && 0 <= k < n.locations[l].visits.len()
                implies #[trigger] location_entry_ok(n, l, n.locations[l].visits[k]) by {
            assert(l < v.locations.len());
            assert(n.locations[l] == v.locations[l]);
            assert(location_entry_ok(v, l, v.locations[l].visits[k]));
        }
    }
    assert(visits_ok(n)) by {
        assert forall|w: int| 0 <= w < n.visits.len() implies {
            &&& ((#[trigger] n.visits[w]).user as int) < n.users.len()
            &&& (n.visits[w].location as int) < n.locations.len()
            &&& exists|k: int|
                0 <= k < n.users[n.visits[w].user as int].visits.len() && (#[trigger] n.users[
                n.visits[w].user as int].visits[k]).id == w
            &&& exists|k: int|
                0 <= k < n.locations[n.visits[w].location as int].visits.len() && (
                #[trigger] n.locations[n.visits[w].location as int].visits[k]).visit_id == w
        } by {
            assert(v.visits[w] == n.visits[w]);
            let l = v.visits[w].location as int;
            assert(n.locations[l] == v.locations[l]);
        }
    }
}

/// The whole years from instant `birth` to instant `reference` (seconds since the epoch, UTC),
/// as chrono counts them; `None` when `birth` is later or either instant is out of its range.
pub uninterp spec fn whole_years(birth: i64, reference: i64) -> Option<u32>;

/// Relies on chrono's DateTime::from_timestamp, to read both instants as UTC date-times, and
/// DateTime::years_since, for the whole years between them.
#[verifier::external_body]
fn years_between(birth: i64, reference: i64) -> (r: Option<u32>)
    ensures
        r == whole_years(birth, reference),
{
    let b = chrono::DateTime::from_timestamp(birth, 0)?;
    let n = chrono::DateTime::from_timestamp(reference, 0)?;
    n.years_since(b)
}

/// The outcome of storing traveller `id` into `v`, with the given email, gender token and age.
pub open spec fn user_outcome(
    v: StoreView,
    id: usize,
    email: Seq<char>,
    gender: Seq<char>,
    age: Option<u32>,
) -> Result<(), StoreError> {
    if id != v.users.len() {
        Err(StoreError::InvalidId)
    } else if v.emails.contains(email) {
        Err(StoreError::DuplicateEmail)
    } else if gender_of(gender) is None {
        Err(StoreError::InvalidGender)
    } else if age is None {
        Err(StoreError::InvalidBirthDate)
    } else {
        Ok(())
    }
}

/// What storing a traveller does to a store `v`.
pub open spec fn with_user(
    v: StoreView,
    email: Seq<char>,
    first_name: Seq<char>,
    last_name: Seq<char>,
    birth_date: i32,
    gender: Gender,
    age: u32,
) -> StoreView {
    StoreView {
        users: v.users.push(
            UserView {
                email,
                first_name: put_result(v.first_names, first_name).1 as usize,
                last_name: put_result(v.last_names, last_name).1 as usize,
                birth_date,
                age,
                gender,
                visits: Seq::empty(),
            },
        ),
        emails: v.emails.insert(email),
        first_names: put_result(v.first_names, first_name).0,
        last_names: put_result(v.last_names, last_name).0,
        ..v
    }
}

/// Storing a traveller with a new email keeps the invariant.
proof fn lemma_with_user_ok(
    v: StoreView,
    email: Seq<char>,
    first_name: Seq<char>,
    last_name: Seq<char>,
    birth_date: i32,
    gender: Gender,
    age: u32,
)
    requires
        store_ok(v),
        !v.emails.contains(email),
    ensures
        store_ok(with_user(v, email, first_name, last_name, birth_date, gender, age)),
{
    let n = with_user(v, email, first_name, last_name, birth_date, gender, age);
    lemma_put_stable(v.first_names, first_name);
    lemma_put_stable(v.last_names, last_name);
    assert(users_ok(n)) by {
        assert forall|u: int| 0 <= u < n.users.len() implies (#[trigger] n.users[u]).first_name
            < n.first_names.len() && n.users[u].last_name < n.last_names.len() && sorted_by_date(
            n.users[u].visits,
        ) && n.emails.contains(n.users[u].email) by {
            if u < v.users.len() {
                assert(n.users[u] == v.users[u]);
            }
        }
        assert forall|u: int, k: int|
            0 <= u < n.users.len() && 0 <= k < n.users[u].visits.len() implies #[trigger] user_entry_ok(
            n,
            u,
            n.users[u].visits[k],
        ) by {
            assert(u < v.users.len());
            assert(n.users[u] == v.users[u]);
            assert(user_entry_ok(v, u, v.users[u].visits[k]));
        }
        assert forall|a: int, b: int|
            0 <= a < n.users.len() && 0 <= b < n.users.len() && a != b implies #[trigger] n.users[a].email
            != #[trigger] n.users[b].email by {
            if a < v.users.len() {
                assert(v.emails.contains(v.users[a].email));
            }
            if b < v.users.len() {
                assert(v.emails.contains(v.users[b].email));
            }
        }
    }
    assert(locations_ok(n)) by {
        assert forall|l: int, k: int|
            0 <= l < n.locations.len() && 0 <= k < n.locations[l].visits.len()
                implies #[trigger] location_entry_ok(n, l, n.locations[l].visits[k]) by {
            assert(location_entry_ok(v, l, v.locations[l].visits[k]));
        }
    }
    assert(visits_ok(n)) by {
        assert forall|w: int| 0 <= w < n.visits.len() implies {
            &&& ((#[trigger] n.visits[w]).user as int) < n.users.len()
            &&& (n.visits[w].location as int) < n.locations.len()
            &&& exists|k: int|
                0 <= k < n.users[n.visits[w].user as int].visits.len() && (#[trigger] n.users[
                n.visits[w].user as int].visits[k]).id == w
            &&& exists|k: int|
                0 <= k < n.locations[n.visits[w].location as int].visits.len() && (
                #[trigger] n.locations[n.visits[w].location as int].visits[k]).visit_id == w
        } by {
            assert(v.visits[w] == n.visits[w]);
            let u = v.visits[w].user as int;
            assert(n.users[u] == v.users[u]);
        }
    }
}

/// The outcome of storing visit `id` of traveller `user` to place `location` into `v`.
pub open spec fn visit_outcome(v: StoreView, id: u32, user: u32, location: u32) -> Result<
    (),
    StoreError,
> {
    if id as int != v.visits.len() {
        Err(StoreError::InvalidId)
    } else if user as int >= v.users.len() || location as int >= v.locations.len() {
        Err(StoreError::InvalidReference)
    } else {
        Ok(())
    }
}

/// What storing a visit does to a store `v`: the visit is appended, and an entry for it goes
/// into the traveller's and the place's index, each at its insertion point.
pub open spec fn with_visit(
    v: StoreView,
    id: u32,
    user: u32,
    location: u32,
    visited_at: i32,
    mark: u8,
) -> StoreView {
    let u = v.users[user as int];
    let l = v.locations[location as int];
    StoreView {
        visits: v.visits.push(Visit { user, location, mark, visited_at }),
        users: v.users.update(
            user as int,
            UserView {
                visits: u.visits.insert(
                    insertion_point(u.visits, visited_at),
                    UserVisit { id, location, visited_at },
                ),
                ..u
            },
        ),
        locations: v.locations.update(
            location as int,
            LocationView {
                visits: l.visits.insert(
                    insertion_point(l.visits, visited_at),
                    LocationVisit { visit_id: id, visited_at },
                ),
                ..l
            },
        ),
        ..v
    }
}

/// Storing a visit that passes its checks keeps the invariant.
proof fn lemma_with_visit_ok(
    v: StoreView,
    id: u32,
    user: u32,
    location: u32,
    visited_at: i32,
    mark: u8,
)
    requires
        store_ok(v),
        visit_outcome(v, id, user, location) is Ok,
    ensures
        store_ok(with_visit(v, id, user, location, visited_at, mark)),
{
    let n = with_visit(v, id, user, location, visited_at, mark);
    let ui = user as int;
    let li = location as int;
    let ue = UserVisit { id, location, visited_at };
    let le = LocationVisit { visit_id: id, visited_at };
    let us = v.users[ui].visits;
    let ls = v.locations[li].visits;
    let up = insertion_point(us, visited_at);
    let lp = insertion_point(ls, visited_at);
    lemma_insert_sorted(us, ue);
    lemma_insert_sorted(ls, le);
    assert(forall|w: int| 0 <= w < v.visits.len() ==> n.visits[w] == v.visits[w]);
    assert(users_ok(n)) by {
        assert forall|u: int| 0 <= u < n.users.len() implies (#[trigger] n.users[u]).first_name
            < n.first_names.len() && n.users[u].last_name < n.last_names.len() && sorted_by_date(
            n.users[u].visits,
        ) && n.emails.contains(n.users[u].email) by {
            assert(v.users[u].first_name < v.first_names.len());
        }
        assert forall|u: int, k: int|
            0 <= u < n.users.len() && 0 <= k < n.users[u].visits.len() implies #[trigger] user_entry_ok(
            n,
            u,
            n.users[u].visits[k],
        ) by {
            if u != ui {
                assert(user_entry_ok(v, u, v.users[u].visits[k]));
            } else if k < up {
                assert(user_entry_ok(v, u, us[k]));
            } else if k > up {
                assert(n.users[u].visits[k] == us[k - 1]);
                assert(user_entry_ok(v, u, v.users[u].visits[k - 1]));
            }
        }
        assert forall|a: int, b: int|
            0 <= a < n.users.len() && 0 <= b < n.users.len() && a != b implies #[trigger] n.users[a].email
            != #[trigger] n.users[b].email by {
            assert(v.users[a].email != v.users[b].email);
        }
    }
    assert(locations_ok(n)) by {
        assert forall|l: int| 0 <= l < n.locations.len() implies (#[trigger] n.locations[l]).country
            < n.countries.len() && n.locations[l].city < n.cities.len() && n.locations[l].place
            < n.places.len() && sorted_by_date(n.locations[l].visits) by {
            assert(v.locations[l].country < v.countries.len());
        }
        assert forall|l: int, k: int|
            0 <= l < n.locations.len() && 0 <= k < n.locations[l].visits.len()
                implies #[trigger] location_entry_ok(n, l, n.locations[l].visits[k]) by {
            if l != li {
                assert(location_entry_ok(v, l, v.locations[l].visits[k]));
            } else if k < lp {
                assert(location_entry_ok(v, l, ls[k]));
            } else if k > lp {
                assert(n.locations[l].visits[k] == ls[k - 1]);
                assert(location_entry_ok(v, l, v.locations[l].visits[k - 1]));
            }
        }
    }
    assert(visits_ok(n)) by {
        assert forall|w: int| 0 <= w < n.visits.len() implies {
            &&& ((#[trigger] n.visits[w]).user as int) < n.users.len()
            &&& (n.visits[w].location as int) < n.locations.len()
            &&& exists|k: int|
                0 <= k < n.users[n.visits[w].user as int].visits.len() && (#[trigger] n.users[
                n.visits[w].user as int].visits[k]).id == w
            &&& exists|k: int|
                0 <= k < n.locations[n.visits[w].location as int].visits.len() && (
                #[trigger] n.locations[n.visits[w].location as int].visits[k]).visit_id == w
        } by {
            if w == v.visits.len() {
                assert(n.users[ui].visits[up].id == w);
                assert(n.locations[li].visits[lp].visit_id == w);
            } else {
                let x = v.visits[w];
                assert(n.visits[w] == x);
                let a = x.user as int;
                let b = x.location as int;
                let ka = choose|k: int|
                    0 <= k < v.users[a].visits.len() && (#[trigger] v.users[a].visits[k]).id == w;
                let kb = choose|k: int|
                    0 <= k < v.locations[b].visits.len() && (#[trigger] v.locations[b].visits[
                    k]).visit_id == w;
                if a == ui {
                    let ka2 = if ka < up {
                        ka
                    } else {
                        ka + 1
                    };
                    assert(n.users[a].visits[ka2].id == w);
                } else {
                    assert(n.users[a].visits[ka].id == w);
                }
                if b == li {
                    let kb2 = if kb < lp {
                        kb
                    } else {
                        kb + 1
                    };
                    assert(n.locations[b].visits[kb2].visit_id == w);
                } else {
                    assert(n.locations[b].visits[kb].visit_id == w);
                }
            }
        }
    }
}

/// Storing a visit keeps both indices it enters sorted by date, and puts its entry ahead of
/// every entry that already had its date: of two visits of one date, the one stored last comes
/// first, in the traveller's index and in the place's.
pub proof fn lemma_visit_order(
    v: StoreView,
    id: u32,
    user: u32,
    location: u32,
    visited_at: i32,
    mark: u8,
)
    requires
        store_ok(v),
        visit_outcome(v, id, user, location) is Ok,
    ensures
        inserted_first(
            v.users[user as int].visits,
            with_visit(v, id, user, location, visited_at, mark).users[user as int].visits,
            UserVisit { id, location, visited_at },
        ),
        inserted_first(
            v.locations[location as int].visits,
            with_visit(v, id, user, location, visited_at, mark).locations[location as int].visits,
            LocationVisit { visit_id: id, visited_at },
        ),
{
    lemma_insert_sorted(v.users[user as int].visits, UserVisit { id, location, visited_at });
    lemma_insert_sorted(
        v.locations[location as int].visits,
        LocationVisit { visit_id: id, visited_at },
    );
}

/// The in-memory store of travellers, places and visits.
pub struct Storage {
    users: Vec<User>,
    visits: Vec<Visit>,
    locations: Vec<Location>,
    emails: HashSet<String>,
    last_names: Dict,
    first_names: Dict,
    countries: Dict,
    cities: Dict,
    places: Dict,
    /// The reference time against which ages are computed.
    timestamp: i64,
}

impl View for Storage {
    type V = StoreView;

    closed spec fn view(&self) -> StoreView {
        StoreView {
            users: self.users@.map_values(|u: User| u@),
            visits: self.visits@,
            locations: self.locations@.map_values(|l: Location| l@),
            emails: texts(self.emails@),
            first_names: self.first_names@,
            last_names: self.last_names@,
            countries: self.countries@,
            cities: self.cities@,
            places: self.places@,
            timestamp: self.timestamp,
        }
    }
}

impl Storage {
    /// The store's invariant holds.
    pub closed spec fn wf(&self) -> bool {
        &&& self.first_names.wf()
        &&& self.last_names.wf()
        &&& self.countries.wf()
        &&& self.cities.wf()
        &&& self.places.wf()
        &&& store_ok(self@)
    }

    /// An empty store, with reference time 0.
    pub fn new() -> (r: Storage)
        ensures
            r.wf(),
            r@.users.len() == 0,
            r@.visits.len() == 0,
            r@.locations.len() == 0,
            r@.emails.is_empty(),
            r@.first_names.len() == 0,
            r@.last_names.len() == 0,
            r@.countries.len() == 0,
            r@.cities.len() == 0,
            r@.places.len() == 0,
            r@.timestamp == 0,
    {
        let r = Storage {
            users: Vec::new(),
            visits: Vec::new(),
            locations: Vec::new(),
            emails: HashSet::new(),
            last_names: Dict::new(),
            first_names: Dict::new(),
            countries: Dict::new(),
            cities: Dict::new(),
            places: Dict::new(),
            timestamp: 0,
        };
        proof {
            assert(texts(r.emails@) =~= Set::empty());
        }
        r
    }

    /// Stores traveller `id`, whose age is `age` (`None` when it could not be computed). The
    /// id must be the next id of its table, the email new and the gender token "m" or "f";
    /// when one of these fails nothing changes.
    pub fn store_user_with_age(
        &mut self,
        id: usize,
        email: &str,
        first_name: &str,
        last_name: &str,
        birth_date: i32,
        gender: &str,
        age: Option<u32>,
    ) -> (r: Result<(), StoreError>)
        requires
            old(self).wf(),
        ensures
            final(self).wf(),
            r == user_outcome(old(self)@, id, email@, gender@, age),
            r is Ok ==> final(self)@ == with_user(
                old(self)@,
                email@,
                first_name@,
                last_name@,
                birth_date,
                gender_of(gender@)->Some_0,
                age->Some_0,
            ),
            r is Err ==> final(self)@ == old(self)@,
    {
        if id != self.users.len() {
            return Err(StoreError::InvalidId);
        }
        if email_taken(&self.emails, email) {
            return Err(StoreError::DuplicateEmail);
        }
        let g = match Gender::from_token(gender) {
            Some(g) => g,
            None => {
                return Err(StoreError::InvalidGender);
            },
        };
        let age = match age {
            Some(a) => a,
            None => {
                return Err(StoreError::InvalidBirthDate);
            },
        };
        let ghost v0 = self@;
        let first = self.first_names.put(String::from_str(first_name));
        let last = self.last_names.put(String::from_str(last_name));
        email_add(&mut self.emails, String::from_str(email));
        self.users.push(
            User {
                email: String::from_str(email),
                first_name: first,
                last_name: last,
                birth_date,
                age,
                gender: g,
                visits: Vec::new(),
            },
        );
        proof {
            let v = self@;
            let n = with_user(v0, email@, first_name@, last_name@, birth_date, g, age);
            assert(v.users =~= n.users);
            assert(v == n);
            lemma_with_user_ok(v0, email@, first_name@, last_name@, birth_date, g, age);
        }
        Ok(())
    }

    /// Stores traveller `id`, with its age taken from the birth date and the reference time.
    pub fn store_user(
        &mut self,
        id: usize,
        email: &str,
        first_name: &str,
        last_name: &str,
        birth_date: i32,
        gender: &str,
    ) -> (r: Result<(), StoreError>)
        requires
            old(self).wf(),
        ensures
            final(self).wf(),
            r == user_outcome(
                old(self)@,
                id,
                email@,
                gender@,
                whole_years(birth_date as i64, old(self)@.timestamp),
            ),
            r is Ok ==> final(self)@ == with_user(
                old(self)@,
                email@,
                first_name@,
                last_name@,
                birth_date,
                gender_of(gender@)->Some_0,
                whole_years(birth_date as i64, old(self)@.timestamp)->Some_0,
            ),
            r is Err ==> final(self)@ == old(self)@,
    {
        let age = years_between(birth_date as i64, self.timestamp);
        self.store_user_with_age(id, email, first_name, last_name, birth_date, gender, age)
    }

    /// Stores visit `id`, which must be the next id of its table, of an existing traveller to
    /// an existing place; both of their indices get an entry for it. When a check fails nothing
    /// changes.
    pub fn store_visit(
        &mut self,
        id: u32,
        user: u32,
        location: u32,
        visited_at: i32,
        mark: u8,
    ) -> (r: Result<(), StoreError>)
        requires
            old(self).wf(),
        ensures
            final(self).wf(),
            r == visit_outcome(old(self)@, id, user, location),
            r is Ok ==> final(self)@ == with_visit(old(self)@, id, user, location, visited_at, mark),
            r is Err ==> final(self)@ == old(self)@,
    {
        if id as usize != self.visits.len() {
            return Err(StoreError::InvalidId);
        }
        if user as usize >= self.users.len() || location as usize >= self.locations.len() {
            return Err(StoreError::InvalidReference);
        }
        let ghost v0 = self@;
        proof {
            let (ui, li) = (user as int, location as int);
            assert(v0.users[ui] == self.users@[ui]@);
            assert(v0.locations[li] == self.locations@[li]@);
            assert(sorted_by_date(self.users@[ui].visits@));
            assert(sorted_by_date(self.locations@[li].visits@));
        }
        self.visits.push(Visit { user, location, mark, visited_at });
        insert_sorted(&mut self.users[user as usize].visits, UserVisit { id, location, visited_at });
        insert_sorted(
            &mut self.locations[location as usize].visits,
            LocationVisit { visit_id: id, visited_at },
        );
        proof {
            let v = self@;
            let n = with_visit(v0, id, user, location, visited_at, mark);
            assert(v.users =~= n.users);
            assert(v.locations =~= n.locations);
            assert(v == n);
            lemma_with_visit_ok(v0, id, user, location, visited_at, mark);
        }
        Ok(())
    }

    /// The invariant, stated over the view.
    pub proof fn lemma_store_ok(&self)
        requires
            self.wf(),
        ensures
            store_ok(self@),
    {
    }

    /// Sets the reference time against which the ages of travellers stored from now on are
    /// computed.
    pub fn set_timestamp(&mut self, timestamp: i64)
        requires
            old(self).wf(),
        ensures
            final(self).wf(),
            final(self)@ == (StoreView { timestamp, ..old(self)@ }),
    {
        self.timestamp = timestamp;
        proof {
            let (a, b) = (old(self)@, self@);
            assert(b == StoreView { timestamp, ..a });
            assert(store_ok(b)) by {
                assert(users_ok(a) && locations_ok(a) && visits_ok(a));
                assert(users_ok(b)) by {
                    assert forall|u: int, k: int|
                        0 <= u < b.users.len() && 0 <= k < b.users[u].visits.len()
                            implies #[trigger] user_entry_ok(b, u, b.users[u].visits[k]) by {
                        assert(user_entry_ok(a, u, a.users[u].visits[k]));
                    }
                }
                assert(locations_ok(b)) by {
                    assert forall|l: int, k: int|
                        0 <= l < b.locations.len() && 0 <= k < b.locations[l].visits.len()
                            implies #[trigger] location_entry_ok(b, l, b.locations[l].visits[k]) by {
                        assert(location_entry_ok(a, l, a.locations[l].visits[k]));
                    }
                }
            }
        }
    }

    /// The reference time.
    pub fn timestamp(&self) -> (r: i64)
        ensures
            r == self@.timestamp,
    {
        self.timestamp
    }

    /// The number of travellers.
    pub fn user_count(&self) -> (r: usize)
        ensures
            r == self@.users.len(),
    {
        self.users.len()
    }

    /// The number of visits.
    pub fn visit_count(&self) -> (r: usize)
        ensures
            r == self@.visits.len(),
    {
        self.visits.len()
    }

    /// The number of places.
    pub fn location_count(&self) -> (r: usize)
        ensures
            r == self@.locations.len(),
    {
        self.locations.len()
    }

    /// Traveller `i`.
    pub fn user(&self, i: usize) -> (r: &User)
        requires
            i < self@.users.len(),
        ensures
            r@ == self@.users[i as int],
    {
        &self.users[i]
    }

    /// Visit `i`.
    pub fn visit(&self, i: usize) -> (r: &Visit)
        requires
            i < self@.visits.len(),
        ensures
            *r == self@.visits[i as int],
    {
        &self.visits[i]
    }

    /// Place `i`.
    pub fn location(&self, i: usize) -> (r: &Location)
        requires
            i < self@.locations.len(),
        ensures
            r@ == self@.locations[i as int],
    {
        &self.locations[i]
    }

    /// The dictionary of first names.
    pub fn first_names(&self) -> (r: &Dict)
        requires
            self.wf(),
        ensures
            r.wf(),
            r@ == self@.first_names,
    {
        &self.first_names
    }

    /// The dictionary of last names.
    pub fn last_names(&self) -> (r: &Dict)
        requires
            self.wf(),
        ensures
            r.wf(),
            r@ == self@.last_names,
    {
        &self.last_names
    }

    /// The dictionary of countries.
    pub fn countries(&self) -> (r: &Dict)
        requires
            self.wf(),
        ensures
            r.wf(),
            r@ == self@.countries,
    {
        &self.countries
    }

    /// The dictionary of cities.
    pub fn cities(&self) -> (r: &Dict)
        requires
            self.wf(),
        ensures
            r.wf(),
            r@ == self@.cities,
    {
        &self.cities
    }

    /// The dictionary of place names.
    pub fn places(&self) -> (r: &Dict)
        requires
            self.wf(),
        ensures
            r.wf(),
            r@ == self@.places,
    {
        &self.places
    }

    /// Stores place `id`, which must be the next id of its table.
    pub fn store_location(
        &mut self,
        id: usize,
        country: &str,
        city: &str,
        place: &str,
        distance: u32,
    ) -> (r: Result<(), StoreError>)
        requires
            old(self).wf(),
        ensures
            final(self).wf(),
            r == (if id == old(self)@.locations.len() {
                Ok::<(), StoreError>(())
            } else {
                Err(StoreError::InvalidId)
            }),
            r is Ok ==> final(self)@ == with_location(old(self)@, country@, city@, place@, distance),
            r is Err ==> final(self)@ == old(self)@,
    {
        if id != self.locations.len() {
            return Err(StoreError::InvalidId);
        }
        let ghost v0 = self@;
        let country_id = self.countries.put(String::from_str(country));
        let city_id = self.cities.put(String::from_str(city));
        let place_id = self.places.put(String::from_str(place));
        self.locations.push(
            Location {
                country: country_id,
                city: city_id,
                place: place_id,
                distance,
                visits: Vec::new(),
            },
        );
        proof {
            let v = self@;
            assert(v.locations =~= with_location(v0, country@, city@, place@, distance).locations);
            assert(v == with_location(v0, country@, city@, place@, distance));
            lemma_with_location_ok(v0, country@, city@, place@, distance);
        }
        Ok(())
    }
}

} // verus!

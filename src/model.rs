use vstd::prelude::*;

verus! {

/// The two recognised genders.
#[derive(Clone, Copy, Debug, PartialEq, Eq, Structural)]
pub enum Gender {
    Male,
    Female,
}

/// The gender that a token names: "m" and "f", nothing else.
pub open spec fn gender_of(s: Seq<char>) -> Option<Gender> {
    if s == seq!['m'] {
        Some(Gender::Male)
    } else if s == seq!['f'] {
        Some(Gender::Female)
    } else {
        None
    }
}

/// The token of a gender.
pub open spec fn token_of(g: Gender) -> Seq<char> {
    match g {
        Gender::Male => seq!['m'],
        Gender::Female => seq!['f'],
    }
}

impl Gender {
    /// Reads a gender token; any other text names no gender.
    pub fn from_token(s: &str) -> (r: Option<Gender>)
        ensures
            r == gender_of(s@),
    {
        if s.unicode_len() != 1 {
            return None;
        }
        let c = s.get_char(0);
        if c == 'm' {
            assert(s@ =~= seq!['m']);
            Some(Gender::Male)
        } else if c == 'f' {
            assert(s@ =~= seq!['f']);
            Some(Gender::Female)
        } else {
            assert(s@ != seq!['m'] && s@ != seq!['f']) by {
                assert(seq!['m'][0] == 'm');
                assert(seq!['f'][0] == 'f');
            }
            None
        }
    }

    /// The token of this gender.
    pub fn to_string(&self) -> (r: String)
        ensures
            r@ == token_of(*self),
            gender_of(r@) == Some(*self),
    {
        match self {
            Gender::Male => {
                proof {
                    reveal_strlit("m");
                }
                let r = String::from_str("m");
                assert(r@ =~= seq!['m']);
                r
            },
            Gender::Female => {
                proof {
                    reveal_strlit("f");
                }
                let r = String::from_str("f");
                assert(r@ =~= seq!['f']);
                assert(seq!['f'] != seq!['m']) by {
                    assert(seq!['f'][0] != seq!['m'][0]);
                }
                r
            },
        }
    }
}

/// A traveller. Names are ids in the store's name dictionaries.
pub struct User {
    pub email: String,
    pub first_name: usize,
    pub last_name: usize,
    pub birth_date: i32,
    /// Whole years from the birth date to the store's reference time.
    pub age: u32,
    pub gender: Gender,
    /// The traveller's visits, sorted by date.
    pub visits: Vec<UserVisit>,
}

/// A visit of a traveller to a place.
#[derive(Clone, Copy, Debug, PartialEq, Eq, Structural)]
pub struct Visit {
    pub user: u32,
    pub location: u32,
    pub mark: u8,
    pub visited_at: i32,
}

/// An entry of a traveller's visit index.
#[derive(Clone, Copy, Debug, PartialEq, Eq, Structural)]
pub struct UserVisit {
    pub id: u32,
    pub location: u32,
    pub visited_at: i32,
}

/// A place. Country, city and place name are ids in the store's dictionaries.
pub struct Location {
    pub country: usize,
    pub city: usize,
    pub place: usize,
    pub distance: u32,
    /// The visits to this place, sorted by date.
    pub visits: Vec<LocationVisit>,
}

/// An entry of a place's visit index.
#[derive(Clone, Copy, Debug, PartialEq, Eq, Structural)]
pub struct LocationVisit {
    pub visit_id: u32,
    pub visited_at: i32,
}

/// A traveller record as it is exchanged.
#[derive(Clone, Debug)]
pub struct UserJSON {
    pub id: u32,
    pub email: String,
    pub first_name: String,
    pub last_name: String,
    pub gender: String,
    pub birth_date: i32,
}

/// A batch of traveller records.
#[derive(Clone, Debug)]
pub struct UsersDataJSON {
    pub users: Vec<UserJSON>,
}

/// A visit record as it is exchanged.
#[derive(Clone, Copy, Debug, PartialEq, Eq, Structural)]
pub struct VisitJSON {
    pub id: u32,
    pub user: u32,
    pub location: u32,
    pub mark: u8,
    pub visited_at: i32,
}

/// A batch of visit records.
#[derive(Clone, Debug)]
pub struct VisitsDataJSON {
    pub visits: Vec<VisitJSON>,
}

/// A place record as it is exchanged.
#[derive(Clone, Debug)]
pub struct LocationJSON {
    pub id: u32,
    pub distance: u32,
    pub city: String,
    pub country: String,
    pub place: String,
}

/// A batch of place records.
#[derive(Clone, Debug)]
pub struct LocationsDataJSON {
    pub locations: Vec<LocationJSON>,
}

/// The filters of a traveller's visit list; each one that is `None` is not applied.
#[derive(Clone, Debug)]
pub struct UserVisitsParams {
    pub from_date: Option<i32>,
    pub to_date: Option<i32>,
    pub country: Option<String>,
    pub to_distance: Option<u32>,
}

/// The filters of a place's average mark; each one that is `None` is not applied.
#[derive(Clone, Debug)]
pub struct LocationAvgParams {
    pub from_date: Option<i32>,
    pub to_date: Option<i32>,
    pub from_age: Option<u32>,
    pub to_age: Option<u32>,
    pub gender: Option<String>,
}

/// One line of a traveller's visit list.
#[derive(Clone, Debug)]
pub struct UserVisitJSON {
    pub mark: u8,
    pub visited_at: i32,
    pub place: String,
}

/// A traveller's visit list, in date order.
#[derive(Clone, Debug)]
pub struct UserVisitsJSON {
    pub visits: Vec<UserVisitJSON>,
}

} // verus!

use travels::dict::Dict;
use travels::load::{run, LoadError, Table};
use travels::model::{
    Gender, LocationAvgParams, LocationJSON, UserJSON, UserVisitsParams, VisitJSON,
};
use travels::query::QueryError;
use travels::storage::{StoreError, Storage};

// 2017-07-14T02:40:00Z, and the same instant twenty years earlier.
const REFERENCE: i64 = 1_500_000_000;
const BORN_TWENTY_YEARS_BEFORE: i32 = 868_848_000;

fn no_visit_filters() -> UserVisitsParams {
    UserVisitsParams { from_date: None, to_date: None, country: None, to_distance: None }
}

fn no_avg_filters() -> LocationAvgParams {
    LocationAvgParams { from_date: None, to_date: None, from_age: None, to_age: None, gender: None }
}

/// Location 0 in Russia at distance 50, user 0 aged twenty, and visit 0 of that user there.
fn scenario() -> Storage {
    let mut s = Storage::new();
    s.set_timestamp(REFERENCE);
    assert_eq!(s.store_location(0, "Russia", "Moscow", "Kremlin", 50), Ok(()));
    assert_eq!(
        s.store_user(0, "a@example.com", "Ivan", "Petrov", BORN_TWENTY_YEARS_BEFORE, "m"),
        Ok(())
    );
    assert_eq!(s.store_visit(0, 0, 0, 1000, 4), Ok(()));
    s
}

#[test]
fn dict_put_returns_same_id() {
    let mut d = Dict::new();
    assert_eq!(d.put("Paris".to_string()), 0);
    assert_eq!(d.put("Rome".to_string()), 1);
    assert_eq!(d.put("Paris".to_string()), 0);
    assert_eq!(d.len(), 2);
    assert_eq!(d.get_by_idx(1), Some("Rome".to_string()));
    assert_eq!(d.get_by_idx(0), Some("Paris".to_string()));
}

#[test]
fn dict_get_by_idx_out_of_range() {
    let mut d = Dict::new();
    assert_eq!(d.get_by_idx(0), None);
    d.put("x".to_string());
    assert_eq!(d.get_by_idx(1), None);
}

#[test]
fn dict_exist_and_id_of() {
    let mut d = Dict::new();
    d.put("Spain".to_string());
    d.put("Italy".to_string());
    assert!(d.exist("Italy"));
    assert!(!d.exist("France"));
    assert!(!d.exist(""));
    assert_eq!(d.id_of("Italy"), Some(1));
    assert_eq!(d.id_of("France"), None);
}

#[test]
fn gender_tokens() {
    assert_eq!(Gender::from_token("m"), Some(Gender::Male));
    assert_eq!(Gender::from_token("f"), Some(Gender::Female));
    assert_eq!(Gender::from_token("x"), None);
    assert_eq!(Gender::from_token(""), None);
    assert_eq!(Gender::from_token("mf"), None);
    assert_eq!(Gender::Male.to_string(), "m");
    assert_eq!(Gender::Female.to_string(), "f");
}

#[test]
fn scenario_user_visits_date_bounds() {
    let s = scenario();
    let mut p = no_visit_filters();
    p.to_date = Some(2000);
    let r = s.user_visits(0, &p).unwrap();
    assert_eq!(r.visits.len(), 1);
    assert_eq!(r.visits[0].mark, 4);
    assert_eq!(r.visits[0].visited_at, 1000);
    assert_eq!(r.visits[0].place, "Kremlin");

    let mut p = no_visit_filters();
    p.from_date = Some(1000);
    assert_eq!(s.user_visits(0, &p).unwrap().visits.len(), 0);

    let mut p = no_visit_filters();
    p.to_date = Some(1000);
    assert_eq!(s.user_visits(0, &p).unwrap().visits.len(), 0);
}

#[test]
fn scenario_location_average_and_age() {
    let s = scenario();
    assert_eq!(s.user(0).age, 20);
    assert_eq!(s.location_avg(0, &no_avg_filters()), Ok(400000));
    let mut p = no_avg_filters();
    p.from_age = Some(25);
    assert_eq!(s.location_avg(0, &p), Ok(0));
    let mut p = no_avg_filters();
    p.from_age = Some(19);
    assert_eq!(s.location_avg(0, &p), Ok(400000));
    let mut p = no_avg_filters();
    p.to_age = Some(20);
    assert_eq!(s.location_avg(0, &p), Ok(0));
    let mut p = no_avg_filters();
    p.gender = Some("f".to_string());
    assert_eq!(s.location_avg(0, &p), Ok(0));
    let mut p = no_avg_filters();
    p.gender = Some("m".to_string());
    assert_eq!(s.location_avg(0, &p), Ok(400000));
    let mut p = no_avg_filters();
    p.gender = Some("x".to_string());
    assert_eq!(s.location_avg(0, &p), Ok(0));
}

#[test]
fn scenario_country_filter_errors() {
    let s = scenario();
    let mut p = no_visit_filters();
    p.country = Some(String::new());
    assert_eq!(s.user_visits(0, &p).err(), Some(QueryError::BadRequest));
    p.country = Some("Atlantis".to_string());
    assert_eq!(s.user_visits(0, &p).err(), Some(QueryError::NotFound));
    p.country = Some("Russia".to_string());
    assert_eq!(s.user_visits(0, &p).unwrap().visits.len(), 1);
}

#[test]
fn user_visits_country_and_distance() {
    let mut s = scenario();
    assert_eq!(s.store_location(1, "France", "Paris", "Louvre", 10), Ok(()));
    assert_eq!(s.store_visit(1, 0, 1, 500, 5), Ok(()));
    let mut p = no_visit_filters();
    p.country = Some("France".to_string());
    let r = s.user_visits(0, &p).unwrap();
    assert_eq!(r.visits.len(), 1);
    assert_eq!(r.visits[0].place, "Louvre");
    let mut p = no_visit_filters();
    p.to_distance = Some(50);
    let r = s.user_visits(0, &p).unwrap();
    assert_eq!(r.visits.len(), 1);
    assert_eq!(r.visits[0].mark, 5);
    let r = s.user_visits(0, &no_visit_filters()).unwrap();
    assert_eq!(r.visits.len(), 2);
    assert_eq!(r.visits[0].visited_at, 500);
    assert_eq!(r.visits[1].visited_at, 1000);
}

#[test]
fn user_visits_empty_window() {
    let s = scenario();
    let mut p = no_visit_filters();
    p.from_date = Some(3000);
    p.to_date = Some(0);
    assert_eq!(s.user_visits(0, &p).unwrap().visits.len(), 0);
}

#[test]
fn queries_on_unknown_ids() {
    let s = scenario();
    assert_eq!(s.user_visits(1, &no_visit_filters()).err(), Some(QueryError::NotFound));
    assert_eq!(s.location_avg(1, &no_avg_filters()), Err(QueryError::NotFound));
    assert_eq!(s.get_user(1).err(), Some(QueryError::NotFound));
    assert_eq!(s.get_visit(1), Err(QueryError::NotFound));
    assert_eq!(s.get_location(1).err(), Some(QueryError::NotFound));
}

#[test]
fn point_lookups() {
    let s = scenario();
    let u = s.get_user(0).unwrap();
    assert_eq!(u.id, 0);
    assert_eq!(u.email, "a@example.com");
    assert_eq!(u.first_name, "Ivan");
    assert_eq!(u.last_name, "Petrov");
    assert_eq!(u.gender, "m");
    assert_eq!(u.birth_date, BORN_TWENTY_YEARS_BEFORE);
    let v = s.get_visit(0).unwrap();
    assert_eq!(v, VisitJSON { id: 0, user: 0, location: 0, mark: 4, visited_at: 1000 });
    let l = s.get_location(0).unwrap();
    assert_eq!(l.id, 0);
    assert_eq!(l.country, "Russia");
    assert_eq!(l.city, "Moscow");
    assert_eq!(l.place, "Kremlin");
    assert_eq!(l.distance, 50);
}

#[test]
fn repeated_queries_give_identical_results() {
    let s = scenario();
    let mut p = no_visit_filters();
    p.to_date = Some(2000);
    let a = s.user_visits(0, &p).unwrap();
    let b = s.user_visits(0, &p).unwrap();
    assert_eq!(a.visits.len(), b.visits.len());
    assert_eq!(a.visits[0].mark, b.visits[0].mark);
    assert_eq!(a.visits[0].visited_at, b.visits[0].visited_at);
    assert_eq!(a.visits[0].place, b.visits[0].place);
    assert_eq!(s.location_avg(0, &no_avg_filters()), s.location_avg(0, &no_avg_filters()));
    assert_eq!(s.get_user(0).unwrap().email, s.get_user(0).unwrap().email);
}

#[test]
fn creation_with_wrong_id_fails() {
    let mut s = scenario();
    assert_eq!(s.store_location(5, "Chile", "Santiago", "Plaza", 1), Err(StoreError::InvalidId));
    assert_eq!(s.store_location(0, "Chile", "Santiago", "Plaza", 1), Err(StoreError::InvalidId));
    assert_eq!(
        s.store_user(3, "b@example.com", "Anna", "Ivanova", 0, "f"),
        Err(StoreError::InvalidId)
    );
    assert_eq!(s.store_visit(0, 0, 0, 5, 3), Err(StoreError::InvalidId));
    assert_eq!(s.store_visit(2, 0, 0, 5, 3), Err(StoreError::InvalidId));
    assert_eq!(s.location_count(), 1);
    assert_eq!(s.user_count(), 1);
    assert_eq!(s.visit_count(), 1);
    assert!(!s.countries().exist("Chile"));
}

#[test]
fn duplicate_email_fails() {
    let mut s = scenario();
    assert_eq!(
        s.store_user(1, "a@example.com", "Anna", "Ivanova", 0, "f"),
        Err(StoreError::DuplicateEmail)
    );
    assert_eq!(s.user_count(), 1);
    assert!(!s.first_names().exist("Anna"));
    assert_eq!(s.store_user(1, "b@example.com", "Anna", "Ivanova", 0, "f"), Ok(()));
    assert_eq!(s.user_count(), 2);
}

#[test]
fn invalid_gender_registers_nothing() {
    let mut s = scenario();
    assert_eq!(
        s.store_user(1, "c@example.com", "Olga", "Sidorova", 0, "x"),
        Err(StoreError::InvalidGender)
    );
    assert_eq!(s.user_count(), 1);
    assert_eq!(s.store_user(1, "c@example.com", "Olga", "Sidorova", 0, "f"), Ok(()));
    assert_eq!(s.get_user(1).unwrap().gender, "f");
}

#[test]
fn birth_after_reference_fails() {
    let mut s = scenario();
    assert_eq!(
        s.store_user(1, "d@example.com", "Petr", "Orlov", 1_600_000_000, "m"),
        Err(StoreError::InvalidBirthDate)
    );
    assert_eq!(
        s.store_user_with_age(1, "d@example.com", "Petr", "Orlov", 0, "m", None),
        Err(StoreError::InvalidBirthDate)
    );
    assert_eq!(s.user_count(), 1);
    assert_eq!(s.store_user_with_age(1, "d@example.com", "Petr", "Orlov", 0, "m", Some(33)), Ok(()));
    assert_eq!(s.user(1).age, 33);
}

#[test]
fn age_truncates_before_birthday() {
    let mut s = Storage::new();
    s.set_timestamp(REFERENCE);
    // One second after the reference instant, twenty years earlier: the birthday is not reached.
    assert_eq!(
        s.store_user(0, "e@example.com", "Lena", "Popova", BORN_TWENTY_YEARS_BEFORE + 1, "f"),
        Ok(())
    );
    assert_eq!(s.user(0).age, 19);
    // Born at the epoch: 47 whole years by mid-2017.
    assert_eq!(s.store_user(1, "g@example.com", "Lena", "Popova", 0, "f"), Ok(()));
    assert_eq!(s.user(1).age, 47);
}

#[test]
fn visit_with_unknown_reference_fails() {
    let mut s = scenario();
    assert_eq!(s.store_visit(1, 1, 0, 5, 3), Err(StoreError::InvalidReference));
    assert_eq!(s.store_visit(1, 0, 1, 5, 3), Err(StoreError::InvalidReference));
    assert_eq!(s.visit_count(), 1);
    assert_eq!(s.user(0).visits.len(), 1);
}

#[test]
fn equal_dates_last_inserted_first() {
    let mut s = scenario();
    assert_eq!(s.store_visit(1, 0, 0, 1000, 2), Ok(()));
    assert_eq!(s.store_visit(2, 0, 0, 500, 1), Ok(()));
    assert_eq!(s.store_visit(3, 0, 0, 1500, 5), Ok(()));
    let r = s.user_visits(0, &no_visit_filters()).unwrap();
    let marks: Vec<u8> = r.visits.iter().map(|v| v.mark).collect();
    assert_eq!(marks, vec![1, 2, 4, 5]);
    let ids: Vec<u32> = s.user(0).visits.iter().map(|e| e.id).collect();
    assert_eq!(ids, vec![2, 1, 0, 3]);
    let ids: Vec<u32> = s.location(0).visits.iter().map(|e| e.visit_id).collect();
    assert_eq!(ids, vec![2, 1, 0, 3]);
}

#[test]
fn average_rounds_to_five_places() {
    let mut s = scenario();
    assert_eq!(s.store_visit(1, 0, 0, 2000, 1), Ok(()));
    assert_eq!(s.store_visit(2, 0, 0, 3000, 2), Ok(()));
    // (4 + 1 + 2) / 3 = 2.333333...
    assert_eq!(s.location_avg(0, &no_avg_filters()), Ok(233333));
    let mut p = no_avg_filters();
    p.from_date = Some(1000);
    // (1 + 2) / 2 = 1.5
    assert_eq!(s.location_avg(0, &p), Ok(150000));
    let mut p = no_avg_filters();
    p.from_date = Some(1000);
    p.to_date = Some(3000);
    assert_eq!(s.location_avg(0, &p), Ok(100000));
}

#[test]
fn average_half_rounds_up() {
    let mut s = Storage::new();
    s.set_timestamp(REFERENCE);
    assert_eq!(s.store_location(0, "Peru", "Lima", "Square", 3), Ok(()));
    assert_eq!(s.store_user(0, "h@example.com", "Ana", "Diaz", 0, "f"), Ok(()));
    for i in 0..64u32 {
        let mark = if i == 0 { 1 } else { 0 };
        assert_eq!(s.store_visit(i, 0, 0, i as i32, mark), Ok(()));
    }
    // 1 / 64 = 0.015625, which rounds to 0.01563.
    assert_eq!(s.location_avg(0, &no_avg_filters()), Ok(1563));
    // Five visits with marks 5, 4, 4, 2, 2: 17 / 5 = 3.4.
    let mut t = Storage::new();
    assert_eq!(t.store_location(0, "Peru", "Lima", "Square", 3), Ok(()));
    assert_eq!(t.store_user_with_age(0, "h@example.com", "Ana", "Diaz", 0, "f", Some(30)), Ok(()));
    for (i, m) in [5u8, 4, 4, 2, 2].iter().enumerate() {
        assert_eq!(t.store_visit(i as u32, 0, 0, 10, *m), Ok(()));
    }
    assert_eq!(t.location_avg(0, &no_avg_filters()), Ok(340000));
}

#[test]
fn load_in_order() {
    let mut s = Storage::new();
    let locations = vec![LocationJSON {
        id: 0,
        distance: 7,
        city: "Oslo".to_string(),
        country: "Norway".to_string(),
        place: "Harbour".to_string(),
    }];
    let users = vec![UserJSON {
        id: 0,
        email: "k@example.com".to_string(),
        first_name: "Ola".to_string(),
        last_name: "Nordmann".to_string(),
        gender: "m".to_string(),
        birth_date: BORN_TWENTY_YEARS_BEFORE,
    }];
    let visits = vec![
        VisitJSON { id: 0, user: 0, location: 0, mark: 3, visited_at: 10 },
        VisitJSON { id: 1, user: 0, location: 0, mark: 5, visited_at: 5 },
    ];
    assert_eq!(run(&mut s, REFERENCE, &locations, &users, &visits), Ok(()));
    assert_eq!(s.timestamp(), REFERENCE);
    assert_eq!(s.user(0).age, 20);
    assert_eq!(s.visit_count(), 2);
    assert_eq!(s.location_avg(0, &no_avg_filters()), Ok(400000));
}

#[test]
fn load_stops_at_first_failure() {
    let mut s = Storage::new();
    let locations = vec![LocationJSON {
        id: 1,
        distance: 7,
        city: "Oslo".to_string(),
        country: "Norway".to_string(),
        place: "Harbour".to_string(),
    }];
    let r = run(&mut s, REFERENCE, &locations, &Vec::new(), &Vec::new());
    assert_eq!(r, Err(LoadError { table: Table::Locations, id: 1, error: StoreError::InvalidId }));
    let mut s = Storage::new();
    let visits = vec![VisitJSON { id: 0, user: 0, location: 0, mark: 3, visited_at: 10 }];
    let r = run(&mut s, REFERENCE, &Vec::new(), &Vec::new(), &visits);
    assert_eq!(
        r,
        Err(LoadError { table: Table::Visits, id: 0, error: StoreError::InvalidReference })
    );
}

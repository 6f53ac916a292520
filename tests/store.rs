use house_registry::allocator::IdAllocator;
use house_registry::house::{ChangeKind, House, HouseError, HousePayload};
use house_registry::store::HouseStore;
use house_registry::text::{blank, contains_text, text_less};

fn payload(owner: &str, kind: &str, location: &str, units: u64, price: u64, available: bool) -> HousePayload {
    HousePayload {
        owners_name: owner.to_string(),
        house_type: kind.to_string(),
        location: location.to_string(),
        available_units: units,
        price,
        availability: available,
    }
}

fn alice() -> String {
    "alice".to_string()
}

fn bob() -> String {
    "bob".to_string()
}

fn add(store: &mut HouseStore, owner: &str, price: u64, now: u64) -> House {
    store
        .add_house(payload(owner, "villa", "Lagos", 2, price, true), &alice(), now)
        .unwrap()
}

fn ids(v: &[House]) -> Vec<u64> {
    v.iter().map(|h| h.id).collect()
}

#[test]
fn allocator_counts_from_one_and_resumes() {
    let mut a = IdAllocator::new();
    assert_eq!(a.current(), 0);
    let got: Vec<u64> = (0..5).map(|_| a.next()).collect();
    assert_eq!(got, vec![1, 2, 3, 4, 5]);
    let saved = a.current();
    let mut b = IdAllocator::restore(saved);
    assert_eq!(b.next(), 6);
    assert_eq!(b.current(), 6);
}

#[test]
fn create_then_get() {
    let mut s = HouseStore::new();
    let r = s
        .add_house(payload("Ann", "flat", "Abuja", 4, 500, true), &alice(), 1_000)
        .unwrap();
    assert_eq!(r.id, 1);
    assert_eq!(r.updated_at, None);
    assert_eq!(r.created_at, 1_000);
    assert_eq!(r.realtor, Some(alice()));
    assert!(r.buyers.is_empty());
    let g = s.get_house(r.id).unwrap();
    assert_eq!(g.id, r.id);
    assert_eq!(g.owners_name, "Ann");
    assert_eq!(g.house_type, "flat");
    assert_eq!(g.location, "Abuja");
    assert_eq!(g.price, 500);
    assert_eq!(g.available_units, 4);
    assert!(g.availability);
    assert_eq!(g.updated_at, None);
    assert_eq!(s.id_counter(), 1);
    let r2 = add(&mut s, "Ben", 10, 2_000);
    assert_eq!(r2.id, 2);
}

#[test]
fn create_rejects_blank_fields() {
    let mut s = HouseStore::new();
    let e = s.add_house(payload("  \t", "flat", "Abuja", 1, 1, true), &alice(), 5);
    assert_eq!(e.err(), Some(HouseError::InvalidInput));
    let e = s.add_house(payload("Ann", "\u{3000}", "Abuja", 1, 1, true), &alice(), 5);
    assert_eq!(e.err(), Some(HouseError::InvalidInput));
    let e = s.add_house(payload("Ann", "flat", "", 1, 1, true), &alice(), 5);
    assert_eq!(e.err(), Some(HouseError::InvalidInput));
    assert_eq!(s.id_counter(), 0);
    assert!(s.get_all_houses().is_empty());
    let ok = s.add_house(payload(" Ann ", "flat", "x", 1, 1, true), &alice(), 5);
    assert_eq!(ok.unwrap().id, 1);
}

#[test]
fn update_sets_timestamp() {
    let mut s = HouseStore::new();
    let h = add(&mut s, "Ann", 100, 10);
    let u = s
        .update_house(h.id, payload("Ann B", "duplex", "Kano", 7, 900, false), &alice(), 25)
        .unwrap();
    assert_eq!(u.updated_at, Some(25));
    assert!(u.updated_at.unwrap() >= u.created_at);
    assert_eq!(u.created_at, 10);
    assert_eq!(u.owners_name, "Ann B");
    assert_eq!(u.house_type, "duplex");
    assert_eq!(u.location, "Kano");
    assert_eq!(u.available_units, 7);
    assert_eq!(u.price, 900);
    assert!(!u.availability);
    assert_eq!(u.realtor, Some(alice()));
    let g = s.get_house(h.id).unwrap();
    assert_eq!(g.updated_at, Some(25));
    assert_eq!(g.price, 900);
    let bad = s.update_house(h.id, payload("", "duplex", "Kano", 7, 1, false), &alice(), 30);
    assert_eq!(bad.err(), Some(HouseError::InvalidInput));
    assert_eq!(s.get_house(h.id).unwrap().price, 900);
}

#[test]
fn delete_is_terminal() {
    let mut s = HouseStore::new();
    let h = add(&mut s, "Ann", 100, 10);
    let d = s.delete_house(h.id, &alice()).unwrap();
    assert_eq!(d.id, h.id);
    let nf = Some(HouseError::NotFound { id: h.id });
    assert_eq!(s.get_house(h.id).err(), nf);
    assert_eq!(s.update_house(h.id, payload("a", "b", "c", 1, 1, true), &alice(), 11).err(), nf);
    assert_eq!(s.delete_house(h.id, &alice()).err(), nf);
    let next = add(&mut s, "Cy", 1, 12);
    assert_eq!(next.id, 2);
}

#[test]
fn ownership_gate() {
    let mut s = HouseStore::new();
    let h = add(&mut s, "Ann", 100, 10);
    let af = Some(HouseError::AuthenticationFailed { id: h.id });
    assert_eq!(s.update_house(h.id, payload("x", "y", "z", 1, 1, true), &bob(), 11).err(), af);
    assert_eq!(s.delete_house(h.id, &bob()).err(), af);
    let g = s.get_house(h.id).unwrap();
    assert_eq!(g.owners_name, "Ann");
    assert_eq!(g.price, 100);
    assert_eq!(g.updated_at, None);
}

#[test]
fn purchase_decrement() {
    let mut s = HouseStore::new();
    let h = s
        .add_house(payload("Ann", "flat", "Abuja", 3, 50, true), &alice(), 1)
        .unwrap();
    let b1 = s.buy_house(h.id, &bob(), 2).unwrap();
    assert_eq!(b1.available_units, 2);
    assert!(b1.availability);
    let b2 = s.buy_house(h.id, &bob(), 3).unwrap();
    assert_eq!(b2.available_units, 1);
    assert!(b2.availability);
    let b3 = s.buy_house(h.id, &alice(), 4).unwrap();
    assert_eq!(b3.available_units, 0);
    assert!(!b3.availability);
    assert_eq!(b3.buyers, vec![bob(), bob(), alice()]);
    assert_eq!(b3.updated_at, Some(4));
    assert_eq!(
        s.buy_house(h.id, &bob(), 5).err(),
        Some(HouseError::NoUnitAvailable { id: h.id })
    );
    assert_eq!(s.buy_house(99, &bob(), 5).err(), Some(HouseError::NotFound { id: 99 }));
}

#[test]
fn effective_availability_discrepancy() {
    let mut s = HouseStore::new();
    let h = s
        .add_house(payload("Ann", "flat", "Abuja", 0, 50, true), &alice(), 1)
        .unwrap();
    assert_eq!(s.house_availability(h.id), Ok(true));
    assert_eq!(s.effective_availability(h.id), Ok(false));
    assert!(s.get_available_houses().is_empty());
    assert_eq!(s.house_availability(7), Err(HouseError::NotFound { id: 7 }));
    assert_eq!(s.effective_availability(7), Err(HouseError::NotFound { id: 7 }));
}

#[test]
fn flags_and_price_are_set_unconditionally() {
    let mut s = HouseStore::new();
    let h = s
        .add_house(payload("Ann", "flat", "Abuja", 0, 50, false), &alice(), 1)
        .unwrap();
    let a = s.set_house_available(h.id).unwrap();
    assert!(a.availability);
    assert_eq!(a.available_units, 0);
    assert_eq!(a.updated_at, None);
    let n = s.set_house_not_available(h.id).unwrap();
    assert!(!n.availability);
    let p = s.set_price(h.id, 777).unwrap();
    assert_eq!(p.price, 777);
    assert_eq!(s.get_house(h.id).unwrap().price, 777);
    assert_eq!(s.set_price(9, 1).err(), Some(HouseError::NotFound { id: 9 }));
    assert_eq!(s.set_house_available(9).err(), Some(HouseError::NotFound { id: 9 }));
    assert_eq!(s.set_house_not_available(9).err(), Some(HouseError::NotFound { id: 9 }));
}

#[test]
fn available_listing_uses_units_and_flag() {
    let mut s = HouseStore::new();
    s.add_house(payload("A", "t", "l", 1, 1, true), &alice(), 1).unwrap();
    s.add_house(payload("B", "t", "l", 1, 1, false), &alice(), 1).unwrap();
    s.add_house(payload("C", "t", "l", 0, 1, true), &alice(), 1).unwrap();
    s.add_house(payload("D", "t", "l", 5, 1, true), &alice(), 1).unwrap();
    assert_eq!(ids(&s.get_available_houses()), vec![1, 4]);
    assert_eq!(ids(&s.get_all_houses()), vec![1, 2, 3, 4]);
}

#[test]
fn search_price_exact() {
    let mut s = HouseStore::new();
    add(&mut s, "A", 499, 1);
    add(&mut s, "B", 500, 1);
    add(&mut s, "C", 501, 1);
    add(&mut s, "D", 500, 1);
    let r = s.search_price(500);
    assert_eq!(ids(&r), vec![2, 4]);
    assert!(r.iter().all(|h| h.price == 500));
    assert!(s.search_price(1).is_empty());
}

#[test]
fn search_text_is_case_sensitive_substring() {
    let mut s = HouseStore::new();
    s.add_house(payload("Johnson", "bungalow", "l", 1, 1, true), &alice(), 1).unwrap();
    s.add_house(payload("Mary", "Duplex", "john street", 1, 1, true), &alice(), 1).unwrap();
    s.add_house(payload("Ola", "duplex", "l", 1, 1, true), &alice(), 1).unwrap();
    assert_eq!(ids(&s.search_houses("john".to_string())), Vec::<u64>::new());
    assert_eq!(ids(&s.search_houses("John".to_string())), vec![1]);
    assert_eq!(ids(&s.search_houses("uplex".to_string())), vec![2, 3]);
    assert_eq!(ids(&s.search_houses("duplex".to_string())), vec![3]);
    assert_eq!(ids(&s.search_houses(String::new())), vec![1, 2, 3]);
}

#[test]
fn sort_by_owner_name() {
    let mut s = HouseStore::new();
    add(&mut s, "mike", 1, 1);
    add(&mut s, "Zed", 1, 1);
    add(&mut s, "anna", 1, 1);
    add(&mut s, "mike", 1, 1);
    add(&mut s, "Anna", 1, 1);
    add(&mut s, "ann", 1, 1);
    let r = s.sort_house_by_name();
    let names: Vec<&str> = r.iter().map(|h| h.owners_name.as_str()).collect();
    assert_eq!(names, vec!["Anna", "Zed", "ann", "anna", "mike", "mike"]);
    assert_eq!(ids(&r), vec![5, 2, 6, 3, 1, 4]);
    for w in r.windows(2) {
        assert!(w[0].owners_name <= w[1].owners_name);
    }
    assert!(HouseStore::new().sort_house_by_name().is_empty());
}

#[test]
fn update_history() {
    let mut s = HouseStore::new();
    let h = add(&mut s, "Ann", 1, 10);
    let first = s.get_house_update_history(h.id);
    assert_eq!(first.len(), 1);
    assert_eq!(first[0].timestamp, 10);
    assert_eq!(first[0].change_type, ChangeKind::Creation);
    s.update_house(h.id, payload("Ann", "t", "l", 1, 1, true), &alice(), 20).unwrap();
    let second = s.get_house_update_history(h.id);
    assert_eq!(second.len(), 2);
    assert_eq!(second[0].timestamp, 20);
    assert_eq!(second[0].change_type, ChangeKind::Update);
    assert_eq!(second[1].timestamp, 10);
    assert_eq!(second[1].change_type, ChangeKind::Creation);
    assert!(s.get_house_update_history(42).is_empty());
}

#[test]
fn restore_from_saved_parts() {
    let mut s = HouseStore::new();
    add(&mut s, "A", 1, 1);
    add(&mut s, "B", 2, 1);
    s.delete_house(1, &alice()).unwrap();
    let saved = s.get_all_houses();
    let counter = s.id_counter();
    let mut t = HouseStore::from_parts(counter, saved).unwrap();
    assert_eq!(ids(&t.get_all_houses()), vec![2]);
    assert_eq!(add(&mut t, "C", 3, 2).id, 3);
    assert!(HouseStore::from_parts(1, s.get_all_houses()).is_none());
    let mut two = s.get_all_houses();
    two.push(s.get_house(2).unwrap());
    assert!(HouseStore::from_parts(9, two).is_none());
}

#[test]
fn insert_replaces_by_id() {
    let mut s = HouseStore::new();
    let mut h = add(&mut s, "A", 1, 1);
    add(&mut s, "B", 2, 1);
    h.price = 42;
    s.do_insert_house(&h);
    assert_eq!(s.get_house(1).unwrap().price, 42);
    assert_eq!(s.get_all_houses().len(), 2);
    s.delete_house(1, &alice()).unwrap();
    s.do_insert_house(&h);
    assert_eq!(ids(&s.get_all_houses()), vec![1, 2]);
}

#[test]
fn text_helpers() {
    assert!(contains_text("bungalow", "gal"));
    assert!(!contains_text("bungalow", "Gal"));
    assert!(contains_text("abc", ""));
    assert!(!contains_text("ab", "abc"));
    assert!(text_less("ab", "abc"));
    assert!(text_less("B", "a"));
    assert!(!text_less("b", "b"));
    assert!(text_less("é", "ê"));
    assert!(blank(&" \n\u{a0}".to_string()));
    assert!(!blank(&" x ".to_string()));
    assert!(blank(&String::new()));
}

#[test]
fn insert_above_counter_raises_it() {
    let mut s = HouseStore::new();
    let mut h = add(&mut s, "A", 1, 1);
    h.id = 10;
    s.do_insert_house(&h);
    assert_eq!(s.id_counter(), 10);
    assert_eq!(ids(&s.get_all_houses()), vec![1, 10]);
    assert_eq!(add(&mut s, "B", 2, 2).id, 11);
    assert_eq!(ids(&s.get_all_houses()), vec![1, 10, 11]);
}

#[test]
fn listings_follow_the_table() {
    let mut s = HouseStore::new();
    s.add_house(payload("Alice", "Villa", "Lagos", 1, 500, true), &alice(), 1).unwrap();
    assert!(s.search_houses("alice".to_string()).is_empty());
    assert!(s.search_houses("Lagos".to_string()).is_empty());
    assert_eq!(ids(&s.search_houses("lic".to_string())), vec![1]);
    assert_eq!(ids(&s.search_houses("ill".to_string())), vec![1]);
}

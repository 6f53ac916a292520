//! The mathematical model of the record table and of each operation on it.
use vstd::prelude::*;
use crate::house::{HouseError, HousePayloadView, HouseView, ChangeKind, ChangeRecord};
use crate::text::{has_substring, is_blank, text_lt, lemma_text_lt_transitive};

verus! {

/// Identifiers strictly increase along the sequence.
pub open spec fn ids_ascending(s: Seq<HouseView>) -> bool {
    forall|i: int, j: int| 0 <= i < j < s.len() ==> s[i].id < s[j].id
}

/// Some record of the sequence has identifier `k`.
pub open spec fn has_id(s: Seq<HouseView>, k: u64) -> bool {
    exists|i: int| 0 <= i < s.len() && s[i].id == k
}

/// The records of a sequence keyed by identifier.
pub open spec fn table_of(s: Seq<HouseView>) -> Map<u64, HouseView> {
    Map::new(
        |k: u64| has_id(s, k),
        |k: u64| s[choose|i: int| 0 <= i < s.len() && s[i].id == k],
    )
}

pub proof fn lemma_table_at(s: Seq<HouseView>, i: int)
    requires
        ids_ascending(s),
        0 <= i < s.len(),
    ensures
        table_of(s).contains_key(s[i].id),
        table_of(s)[s[i].id] == s[i],
{
    let k = s[i].id;
    assert(has_id(s, k));
    let j = choose|j: int| 0 <= j < s.len() && s[j].id == k;
    assert(j == i);
}

/// The record is available and has a unit left to sell.
pub open spec fn effectively_available(h: HouseView) -> bool {
    h.availability && h.available_units > 0
}

/// `caller` is the identity recorded as the record's owner.
pub open spec fn owned_by(h: HouseView, caller: Seq<char>) -> bool {
    h.realtor == Some(caller)
}

/// Every required text field holds something besides whitespace.
pub open spec fn payload_valid(p: HousePayloadView) -> bool {
    !is_blank(p.owners_name) && !is_blank(p.house_type) && !is_blank(p.location)
}

/// The record that `add_house` creates.
pub open spec fn created_house(id: u64, p: HousePayloadView, caller: Seq<char>, now: u64) -> HouseView {
    HouseView {
        id,
        owners_name: p.owners_name,
        realtor: Some(caller),
        house_type: p.house_type,
        location: p.location,
        created_at: now,
        updated_at: None,
        price: p.price,
        available_units: p.available_units,
        availability: p.availability,
        buyers: Seq::empty(),
    }
}

/// `h` with its mutable fields overwritten from `p`, stamped at `now`.
pub open spec fn updated_house(h: HouseView, p: HousePayloadView, now: u64) -> HouseView {
    HouseView {
        owners_name: p.owners_name,
        house_type: p.house_type,
        location: p.location,
        updated_at: Some(now),
        available_units: p.available_units,
        price: p.price,
        availability: p.availability,
        ..h
    }
}

/// `h` after `caller` bought one unit at `now`.
pub open spec fn bought_house(h: HouseView, caller: Seq<char>, now: u64) -> HouseView {
    HouseView {
        available_units: (h.available_units - 1) as u64,
        availability: if h.available_units == 1 { false } else { h.availability },
        buyers: h.buyers.push(caller),
        updated_at: Some(now),
        ..h
    }
}

pub open spec fn spec_get(t: Map<u64, HouseView>, id: u64) -> Result<HouseView, HouseError> {
    if t.contains_key(id) {
        Ok(t[id])
    } else {
        Err(HouseError::NotFound { id })
    }
}

pub open spec fn spec_update(
    t: Map<u64, HouseView>,
    id: u64,
    p: HousePayloadView,
    caller: Seq<char>,
    now: u64,
) -> Result<HouseView, HouseError> {
    if !t.contains_key(id) {
        Err(HouseError::NotFound { id })
    } else if !owned_by(t[id], caller) {
        Err(HouseError::AuthenticationFailed { id })
    } else if !payload_valid(p) {
        Err(HouseError::InvalidInput)
    } else {
        Ok(updated_house(t[id], p, now))
    }
}

pub open spec fn spec_buy(t: Map<u64, HouseView>, id: u64, caller: Seq<char>, now: u64) -> Result<
    HouseView,
    HouseError,
> {
    if !t.contains_key(id) {
        Err(HouseError::NotFound { id })
    } else if !effectively_available(t[id]) {
        Err(HouseError::NoUnitAvailable { id })
    } else {
        Ok(bought_house(t[id], caller, now))
    }
}

pub open spec fn spec_delete(t: Map<u64, HouseView>, id: u64, caller: Seq<char>) -> Result<
    HouseView,
    HouseError,
> {
    if !t.contains_key(id) {
        Err(HouseError::NotFound { id })
    } else if !owned_by(t[id], caller) {
        Err(HouseError::AuthenticationFailed { id })
    } else {
        Ok(t[id])
    }
}

pub open spec fn spec_set_availability(t: Map<u64, HouseView>, id: u64, flag: bool) -> Result<
    HouseView,
    HouseError,
> {
    if !t.contains_key(id) {
        Err(HouseError::NotFound { id })
    } else {
        Ok(HouseView { availability: flag, ..t[id] })
    }
}

pub open spec fn spec_set_price(t: Map<u64, HouseView>, id: u64, price: u64) -> Result<
    HouseView,
    HouseError,
> {
    if !t.contains_key(id) {
        Err(HouseError::NotFound { id })
    } else {
        Ok(HouseView { price, ..t[id] })
    }
}

/// The table after an operation that writes back the record it returns.
pub open spec fn written(t: Map<u64, HouseView>, r: Result<HouseView, HouseError>) -> Map<
    u64,
    HouseView,
> {
    match r {
        Ok(h) => t.insert(h.id, h),
        Err(_) => t,
    }
}

/// The table after a delete with outcome `r`.
pub open spec fn removed(t: Map<u64, HouseView>, id: u64, r: Result<HouseView, HouseError>) -> Map<
    u64,
    HouseView,
> {
    match r {
        Ok(_) => t.remove(id),
        Err(_) => t,
    }
}

/// The history of a record: its last update, if any, then its creation.
pub open spec fn history_of(h: Option<HouseView>) -> Seq<ChangeRecord> {
    match h {
        None => Seq::empty(),
        Some(h) => match h.updated_at {
            Some(t) => seq![
                ChangeRecord { timestamp: t, change_type: ChangeKind::Update },
                ChangeRecord { timestamp: h.created_at, change_type: ChangeKind::Creation },
            ],
            None => seq![ChangeRecord { timestamp: h.created_at, change_type: ChangeKind::Creation }],
        },
    }
}

/// Order by owner name, then by identifier.
pub open spec fn name_order_lt(a: HouseView, b: HouseView) -> bool {
    text_lt(a.owners_name, b.owners_name) || (a.owners_name == b.owners_name && a.id < b.id)
}

/// Records in strictly increasing (owner name, identifier) order.
pub open spec fn sorted_by_name(s: Seq<HouseView>) -> bool {
    forall|i: int, j: int| 0 <= i < j < s.len() ==> name_order_lt(s[i], s[j])
}

pub proof fn lemma_name_order_transitive(a: HouseView, b: HouseView, c: HouseView)
    requires
        name_order_lt(a, b),
        name_order_lt(b, c),
    ensures
        name_order_lt(a, c),
{
    if text_lt(a.owners_name, b.owners_name) && text_lt(b.owners_name, c.owners_name) {
        lemma_text_lt_transitive(a.owners_name, b.owners_name, c.owners_name);
    }
}

/// The record matches a text search.
pub open spec fn matches_query(h: HouseView, q: Seq<char>) -> bool {
    has_substring(h.owners_name, q) || has_substring(h.house_type, q)
}

/// Which records a listing keeps.
pub enum Filter {
    All,
    Available,
    Text(Seq<char>),
    Price(u64),
}

pub open spec fn keeps(f: Filter, h: HouseView) -> bool {
    match f {
        Filter::All => true,
        Filter::Available => effectively_available(h),
        Filter::Text(q) => matches_query(h, q),
        Filter::Price(p) => h.price == p,
    }
}

/// The records of `s` that `f` keeps, in their order in `s`.
pub open spec fn selected(s: Seq<HouseView>, f: Filter) -> Seq<HouseView>
    decreases s.len(),
{
    if s.len() == 0 {
        s
    } else {
        let r = selected(s.drop_last(), f);
        if keeps(f, s.last()) {
            r.push(s.last())
        } else {
            r
        }
    }
}

/// A listing of every record is the table order itself.
pub proof fn lemma_selected_all(s: Seq<HouseView>)
    ensures
        selected(s, Filter::All) == s,
    decreases s.len(),
{
    if s.len() > 0 {
        lemma_selected_all(s.drop_last());
        assert(s.drop_last().push(s.last()) =~= s);
    }
}

/// A listing holds exactly the records that the filter keeps.
pub proof fn lemma_selected_members(s: Seq<HouseView>, f: Filter, h: HouseView)
    ensures
        selected(s, f).contains(h) <==> (s.contains(h) && keeps(f, h)),
    decreases s.len(),
{
    if s.len() > 0 {
        let d = s.drop_last();
        lemma_selected_members(d, f, h);
        assert(s =~= d.push(s.last()));
        if s.contains(h) && h != s.last() {
            let i = choose|i: int| 0 <= i < s.len() && s[i] == h;
            assert(d[i] == h);
        }
        if d.contains(h) {
            let i = choose|i: int| 0 <= i < d.len() && d[i] == h;
            assert(s[i] == h);
        }
        if keeps(f, s.last()) {
            let r = selected(d, f);
            if r.contains(h) {
                let i = choose|i: int| 0 <= i < r.len() && r[i] == h;
                assert(r.push(s.last())[i] == h);
            }
            if r.push(s.last()).contains(h) && h != s.last() {
                let i = choose|i: int| 0 <= i < r.len() + 1 && r.push(s.last())[i] == h;
                assert(r[i] == h);
            }
            assert(r.push(s.last())[r.len() as int] == s.last());
        }
        assert(s[s.len() - 1] == s.last());
    }
}

/// A record is in a sequence with ascending identifiers exactly when the
/// sequence's table holds it under its identifier.
pub proof fn lemma_records_table(s: Seq<HouseView>, h: HouseView)
    requires
        ids_ascending(s),
    ensures
        s.contains(h) <==> (table_of(s).contains_key(h.id) && table_of(s)[h.id] == h),
{
    if s.contains(h) {
        let i = choose|i: int| 0 <= i < s.len() && s[i] == h;
        lemma_table_at(s, i);
    }
    if table_of(s).contains_key(h.id) && table_of(s)[h.id] == h {
        let i = choose|i: int| 0 <= i < s.len() && s[i].id == h.id;
        lemma_table_at(s, i);
        assert(s[i] == h);
    }
}

/// A listing keeps the ascending identifier order, and holds exactly the
/// table's records that the filter keeps.
pub proof fn lemma_listing(s: Seq<HouseView>, f: Filter)
    requires
        ids_ascending(s),
    ensures
        ids_ascending(selected(s, f)),
        forall|h: HouseView| #[trigger] selected(s, f).contains(h) <==> (table_of(s).contains_key(h.id)
            && table_of(s)[h.id] == h && keeps(f, h)),
    decreases s.len(),
{
    assert forall|h: HouseView| #[trigger] selected(s, f).contains(h) <==> (table_of(s).contains_key(h.id)
        && table_of(s)[h.id] == h && keeps(f, h)) by {
        lemma_selected_members(s, f, h);
        lemma_records_table(s, h);
    }
    if s.len() > 0 {
        let d = s.drop_last();
        assert(ids_ascending(d));
        lemma_listing(d, f);
        let r = selected(d, f);
        if keeps(f, s.last()) {
            assert forall|i: int| 0 <= i < r.len() implies r[i].id < s.last().id by {
                assert(r.contains(r[i]));
                lemma_selected_members(d, f, r[i]);
                let j = choose|j: int| 0 <= j < d.len() && d[j] == r[i];
                assert(s[j] == d[j]);
            }
        }
    }
}

} // verus!

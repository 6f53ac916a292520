//! The record store: the identifier allocator together with the record table,
//! and every query and mutation on them.
use vstd::prelude::*;
use crate::allocator::IdAllocator;
use crate::house::{
    houses_view, result_view, ChangeKind, ChangeRecord, House, HouseError, HousePayload, HouseView,
};
use crate::model::{
    lemma_listing,
    bought_house, created_house, effectively_available, has_id, history_of, ids_ascending, keeps,
    lemma_name_order_transitive, lemma_selected_all, lemma_table_at, name_order_lt, owned_by,
    payload_valid, removed, selected, sorted_by_name, spec_buy, spec_delete, spec_get,
    spec_set_availability, spec_set_price, spec_update, table_of, written, Filter,
};
use crate::text::{blank, contains_text, lemma_text_lt_total, text_less, text_lt};

verus! {

/// The records are kept in a vector in ascending identifier order, which is
/// also the order in which listings return them.
pub struct HouseStore {
    ids: IdAllocator,
    houses: Vec<House>,
}

/// Two records in the same sequence with the same identifier are the same.
proof fn lemma_ids_unique(s: Seq<HouseView>, i: int, j: int)
    requires
        ids_ascending(s),
        0 <= i < s.len(),
        0 <= j < s.len(),
        s[i].id == s[j].id,
    ensures
        i == j,
{
}

/// A table is the table of `s` when it holds each record of `s` and nothing else.
proof fn lemma_table_eq(s: Seq<HouseView>, t: Map<u64, HouseView>)
    requires
        ids_ascending(s),
        forall|i: int| 0 <= i < s.len() ==> #[trigger] t.contains_key(s[i].id) && t[s[i].id] == s[i],
        forall|k: u64| #[trigger] t.contains_key(k) ==> has_id(s, k),
    ensures
        table_of(s) == t,
{
    assert forall|k: u64| table_of(s).contains_key(k) <==> t.contains_key(k) by {
        if has_id(s, k) {
            let i = choose|i: int| 0 <= i < s.len() && s[i].id == k;
            assert(t.contains_key(s[i].id));
        }
    }
    assert forall|k: u64| #[trigger] table_of(s).contains_key(k) implies table_of(s)[k] == t[k] by {
        let i = choose|i: int| 0 <= i < s.len() && s[i].id == k;
        lemma_table_at(s, i);
        assert(t.contains_key(s[i].id));
    }
    assert(table_of(s) =~= t);
}

impl HouseStore {
    /// The records, in table order.
    pub closed spec fn records(&self) -> Seq<HouseView> {
        houses_view(self.houses@)
    }

    /// The last identifier handed out.
    pub closed spec fn counter(&self) -> u64 {
        self.ids.value()
    }

    /// The live records by identifier.
    pub open spec fn table(&self) -> Map<u64, HouseView> {
        table_of(self.records())
    }

    /// Records are in ascending identifier order and no identifier is above
    /// the allocator's counter, so the next one handed out is fresh.
    pub open spec fn wf(&self) -> bool {
        &&& ids_ascending(self.records())
        &&& forall|i: int| 0 <= i < self.records().len() ==> #[trigger] self.records()[i].id <= self.counter()
    }

    pub proof fn lemma_fresh(&self, id: u64)
        requires
            self.wf(),
            id > self.counter(),
        ensures
            !self.table().contains_key(id),
    {
    }

    /// An empty store whose allocator has handed out nothing.
    pub fn new() -> (r: HouseStore)
        ensures
            r.wf(),
            r.counter() == 0,
            r.table() == Map::<u64, HouseView>::empty(),
            r.records() == Seq::<HouseView>::empty(),
    {
        let r = HouseStore { ids: IdAllocator::new(), houses: Vec::new() };
        assert(r.table() =~= Map::<u64, HouseView>::empty());
        r
    }

    /// The allocator's counter, as it is to be saved.
    pub fn id_counter(&self) -> (r: u64)
        ensures
            r == self.counter(),
    {
        self.ids.current()
    }

    /// Rebuilds a store from a saved counter and saved records. Fails when the
    /// records are not in strictly ascending identifier order or one has an
    /// identifier above the counter.
    pub fn from_parts(counter: u64, houses: Vec<House>) -> (r: Option<HouseStore>)
        ensures
            match r {
                Some(s) => s.wf() && s.counter() == counter && s.records() == houses_view(houses@),
                None => !(ids_ascending(houses_view(houses@)) && forall|i: int|
                    0 <= i < houses@.len() ==> #[trigger] houses@[i].id <= counter),
            },
    {
        let mut i: usize = 0;
        while i < houses.len()
            invariant
                i <= houses.len(),
                forall|k: int| 0 <= k < i ==> #[trigger] houses@[k].id <= counter,
                forall|a: int, b: int| 0 <= a < b < i ==> houses@[a].id < houses@[b].id,
            decreases houses.len() - i,
        {
            if houses[i].id > counter {
                return None;
            }
            if i > 0 && houses[i - 1].id >= houses[i].id {
                assert(houses_view(houses@)[i - 1].id >= houses_view(houses@)[i as int].id);
                return None;
            }
            i = i + 1;
        }
        let r = HouseStore { ids: IdAllocator::restore(counter), houses };
        Some(r)
    }

    /// Where `id` stands or would stand: the first index whose record has an
    /// identifier not below `id`, and whether that record has `id`.
    fn position(&self, id: u64) -> (r: (usize, bool))
        requires
            self.wf(),
        ensures
            r.0 <= self.records().len(),
            forall|k: int| 0 <= k < r.0 ==> self.records()[k].id < id,
            r.0 < self.records().len() ==> self.records()[r.0 as int].id >= id,
            r.1 == (r.0 < self.records().len() && self.records()[r.0 as int].id == id),
            r.1 == self.table().contains_key(id),
            r.1 ==> self.table()[id] == self.records()[r.0 as int],
    {
        let ghost s = self.records();
        let mut i: usize = 0;
        while i < self.houses.len() && self.houses[i].id < id
            invariant
                s == self.records(),
                s.len() == self.houses.len(),
                i <= s.len(),
                forall|k: int| 0 <= k < i ==> s[k].id < id,
            decreases s.len() - i,
        {
            i = i + 1;
        }
        let found = i < self.houses.len() && self.houses[i].id == id;
        proof {
            if found {
                lemma_table_at(s, i as int);
            } else {
                if has_id(s, id) {
                    let j = choose|j: int| 0 <= j < s.len() && s[j].id == id;
                    if j >= i {
                        assert(s[i as int].id > id);
                        assert(j > i);
                    }
                }
            }
        }
        (i, found)
    }

    /// Puts `house` into the table under its identifier, replacing the record
    /// held there if any. An identifier above the allocator's counter raises
    /// the counter to it, so that it is never handed out again.
    pub fn do_insert_house(&mut self, house: &House)
        requires
            old(self).wf(),
        ensures
            final(self).wf(),
            final(self).counter() == if house.id > old(self).counter() {
                house.id
            } else {
                old(self).counter()
            },
            final(self).table() == old(self).table().insert(house.id, house@),
    {
        self.ids.advance_to(house.id);
        let ghost s = self.records();
        let ghost x = house@;
        let (p, found) = self.position(house.id);
        if found {
            self.houses.set(p, house.copy());
            proof {
                let s2 = self.records();
                assert(s2 =~= s.update(p as int, x));
                assert forall|a: int, b: int| 0 <= a < b < s2.len() implies s2[a].id < s2[b].id by {
                    assert(s[a].id < s[b].id);
                }
                let t = table_of(s).insert(x.id, x);
                assert forall|i: int| 0 <= i < s2.len() implies #[trigger] t.contains_key(s2[i].id) && t[s2[i].id] == s2[i] by {
                    if i != p {
                        lemma_table_at(s, i);
                    }
                }
                assert forall|k: u64| #[trigger] t.contains_key(k) implies has_id(s2, k) by {
                    if k != x.id {
                        let j = choose|j: int| 0 <= j < s.len() && s[j].id == k;
                        assert(s2[j].id == k);
                    } else {
                        assert(s2[p as int].id == k);
                    }
                }
                lemma_table_eq(s2, t);
            }
        } else {
            self.houses.insert(p, house.copy());
            proof {
                let s2 = self.records();
                assert(s2 =~= s.insert(p as int, x));
                assert forall|a: int, b: int| 0 <= a < b < s2.len() implies s2[a].id < s2[b].id by {
                    if b < p {
                        assert(s[a].id < s[b].id);
                    } else if b == p {
                    } else if a < p {
                        assert(s[a].id < s[b - 1].id);
                    } else if a == p {
                        assert(s[p as int].id >= x.id);
                        if b - 1 > p {
                            assert(s[p as int].id < s[b - 1].id);
                        }
                    } else {
                        assert(s[a - 1].id < s[b - 1].id);
                    }
                }
                let t = table_of(s).insert(x.id, x);
                assert forall|i: int| 0 <= i < s2.len() implies #[trigger] t.contains_key(s2[i].id) && t[s2[i].id] == s2[i] by {
                    if i < p {
                        lemma_table_at(s, i);
                    } else if i > p {
                        lemma_table_at(s, i - 1);
                    }
                }
                assert forall|k: u64| #[trigger] t.contains_key(k) implies has_id(s2, k) by {
                    if k != x.id {
                        let j = choose|j: int| 0 <= j < s.len() && s[j].id == k;
                        if j < p {
                            assert(s2[j].id == k);
                        } else {
                            assert(s2[j + 1].id == k);
                        }
                    } else {
                        assert(s2[p as int].id == k);
                    }
                }
                lemma_table_eq(s2, t);
            }
        }
    }
}


/// The listing filter that a query applies.
enum Query<'a> {
    All,
    Available,
    Text(&'a str),
    Price(u64),
}

impl<'a> Query<'a> {
    spec fn filter(&self) -> Filter {
        match *self {
            Query::All => Filter::All,
            Query::Available => Filter::Available,
            Query::Text(q) => Filter::Text(q@),
            Query::Price(p) => Filter::Price(p),
        }
    }

    fn keeps(&self, h: &House) -> (r: bool)
        ensures
            r == keeps(self.filter(), h@),
    {
        match self {
            Query::All => true,
            Query::Available => h.availability && h.available_units > 0,
            Query::Text(q) => contains_text(h.owners_name.as_str(), q) || contains_text(
                h.house_type.as_str(),
                q,
            ),
            Query::Price(p) => h.price == *p,
        }
    }
}

fn owned(h: &House, caller: &String) -> (r: bool)
    ensures
        r == owned_by(h@, caller@),
{
    match &h.realtor {
        Some(o) => o.eq(caller),
        None => false,
    }
}

fn valid_payload(p: &HousePayload) -> (r: bool)
    ensures
        r == payload_valid(p@),
{
    !blank(&p.owners_name) && !blank(&p.house_type) && !blank(&p.location)
}

impl HouseStore {
    fn select(&self, q: &Query) -> (r: Vec<House>)
        ensures
            houses_view(r@) == selected(self.records(), q.filter()),
    {
        let ghost s = self.records();
        let mut out: Vec<House> = Vec::new();
        let mut i: usize = 0;
        assert(s.subrange(0, 0) =~= Seq::<HouseView>::empty());
        while i < self.houses.len()
            invariant
                s == self.records(),
                s.len() == self.houses.len(),
                i <= s.len(),
                houses_view(out@) == selected(s.subrange(0, i as int), q.filter()),
            decreases s.len() - i,
        {
            let ghost before = out@;
            if q.keeps(&self.houses[i]) {
                out.push(self.houses[i].copy());
                assert(houses_view(out@) =~= houses_view(before).push(s[i as int]));
            }
            assert(s.subrange(0, i + 1).drop_last() =~= s.subrange(0, i as int));
            i = i + 1;
        }
        assert(s.subrange(0, s.len() as int) =~= s);
        out
    }

    /// The record with identifier `id`.
    pub fn get_house(&self, id: u64) -> (r: Result<House, HouseError>)
        requires
            self.wf(),
        ensures
            result_view(r) == spec_get(self.table(), id),
    {
        let (p, found) = self.position(id);
        if found {
            Ok(self.houses[p].copy())
        } else {
            Err(HouseError::NotFound { id })
        }
    }

    /// Every record, in ascending identifier order.
    pub fn get_all_houses(&self) -> (r: Vec<House>)
        requires
            self.wf(),
        ensures
            houses_view(r@) == self.records(),
            ids_ascending(houses_view(r@)),
            table_of(houses_view(r@)) == self.table(),
    {
        proof {
            lemma_selected_all(self.records());
        }
        self.select(&Query::All)
    }

    /// The records that are available and have a unit left, in table order.
    pub fn get_available_houses(&self) -> (r: Vec<House>)
        requires
            self.wf(),
        ensures
            houses_view(r@) == selected(self.records(), Filter::Available),
            ids_ascending(houses_view(r@)),
            forall|h: HouseView| #[trigger] houses_view(r@).contains(h) <==> (self.table().contains_key(h.id)
                && self.table()[h.id] == h && keeps(Filter::Available, h)),
    {
        proof {
            lemma_listing(self.records(), Filter::Available);
        }
        self.select(&Query::Available)
    }

    /// The records whose owner name or house type contains `query`, in table
    /// order.
    pub fn search_houses(&self, query: String) -> (r: Vec<House>)
        requires
            self.wf(),
        ensures
            houses_view(r@) == selected(self.records(), Filter::Text(query@)),
            ids_ascending(houses_view(r@)),
            forall|h: HouseView| #[trigger] houses_view(r@).contains(h) <==> (self.table().contains_key(h.id)
                && self.table()[h.id] == h && keeps(Filter::Text(query@), h)),
    {
        proof {
            lemma_listing(self.records(), Filter::Text(query@));
        }
        self.select(&Query::Text(query.as_str()))
    }

    /// The records whose price is exactly `query`, in table order.
    pub fn search_price(&self, query: u64) -> (r: Vec<House>)
        requires
            self.wf(),
        ensures
            houses_view(r@) == selected(self.records(), Filter::Price(query)),
            ids_ascending(houses_view(r@)),
            forall|h: HouseView| #[trigger] houses_view(r@).contains(h) <==> (self.table().contains_key(h.id)
                && self.table()[h.id] == h && keeps(Filter::Price(query), h)),
    {
        proof {
            lemma_listing(self.records(), Filter::Price(query));
        }
        self.select(&Query::Price(query))
    }

    /// The stored availability flag of record `id`.
    pub fn house_availability(&self, id: u64) -> (r: Result<bool, HouseError>)
        requires
            self.wf(),
        ensures
            r == match spec_get(self.table(), id) {
                Ok(h) => Ok(h.availability),
                Err(e) => Err::<bool, HouseError>(e),
            },
    {
        let (p, found) = self.position(id);
        if found {
            Ok(self.houses[p].availability)
        } else {
            Err(HouseError::NotFound { id })
        }
    }

    /// Whether record `id` can be bought: its flag is set and a unit is left.
    pub fn effective_availability(&self, id: u64) -> (r: Result<bool, HouseError>)
        requires
            self.wf(),
        ensures
            r == match spec_get(self.table(), id) {
                Ok(h) => Ok(effectively_available(h)),
                Err(e) => Err::<bool, HouseError>(e),
            },
    {
        let (p, found) = self.position(id);
        if found {
            Ok(self.houses[p].availability && self.houses[p].available_units > 0)
        } else {
            Err(HouseError::NotFound { id })
        }
    }

    /// The change history of record `id`: its last update if it has one, then
    /// its creation; empty when there is no such record.
    pub fn get_house_update_history(&self, id: u64) -> (r: Vec<ChangeRecord>)
        requires
            self.wf(),
        ensures
            r@ == history_of(
                if self.table().contains_key(id) {
                    Some(self.table()[id])
                } else {
                    None
                },
            ),
    {
        let (p, found) = self.position(id);
        let mut history: Vec<ChangeRecord> = Vec::new();
        if found {
            let h = &self.houses[p];
            if let Some(t) = h.updated_at {
                history.push(ChangeRecord { timestamp: t, change_type: ChangeKind::Update });
            }
            history.push(ChangeRecord { timestamp: h.created_at, change_type: ChangeKind::Creation });
            assert(history@ =~= history_of(Some(self.table()[id])));
        } else {
            assert(history@ =~= history_of(None));
        }
        history
    }
}

impl HouseStore {
    /// Creates a record from `payload`, owned by `caller` and stamped at
    /// `now`, under the next identifier. Fails with `InvalidInput`, leaving
    /// the store as it was, when a required text field is blank.
    pub fn add_house(&mut self, payload: HousePayload, caller: &String, now: u64) -> (r: Result<House, HouseError>)
        requires
            old(self).wf(),
            old(self).counter() < u64::MAX,
        ensures
            final(self).wf(),
            payload_valid(payload@) ==> {
                let h = created_house((old(self).counter() + 1) as u64, payload@, caller@, now);
                &&& result_view(r) == Ok::<HouseView, HouseError>(h)
                &&& final(self).counter() == old(self).counter() + 1
                &&& final(self).table() == old(self).table().insert(h.id, h)
            },
            !payload_valid(payload@) ==> {
                &&& r == Err::<House, HouseError>(HouseError::InvalidInput)
                &&& final(self).counter() == old(self).counter()
                &&& final(self).table() == old(self).table()
            },
    {
        if !valid_payload(&payload) {
            return Err(HouseError::InvalidInput);
        }
        let id = self.ids.next();
        let h = House {
            id,
            owners_name: payload.owners_name,
            realtor: Some(caller.clone()),
            house_type: payload.house_type,
            location: payload.location,
            created_at: now,
            updated_at: None,
            price: payload.price,
            available_units: payload.available_units,
            availability: payload.availability,
            buyers: Vec::new(),
        };
        assert(h@.buyers =~= Seq::<Seq<char>>::empty());
        self.do_insert_house(&h);
        Ok(h)
    }

    /// Overwrites the mutable fields of record `id` from `payload` and stamps
    /// it at `now`. Only the record's owner may do so.
    pub fn update_house(&mut self, id: u64, payload: HousePayload, caller: &String, now: u64) -> (r: Result<House, HouseError>)
        requires
            old(self).wf(),
        ensures
            final(self).wf(),
            final(self).counter() == old(self).counter(),
            result_view(r) == spec_update(old(self).table(), id, payload@, caller@, now),
            final(self).table() == written(old(self).table(), spec_update(old(self).table(), id, payload@, caller@, now)),
    {
        let (p, found) = self.position(id);
        if !found {
            return Err(HouseError::NotFound { id });
        }
        if !owned(&self.houses[p], caller) {
            return Err(HouseError::AuthenticationFailed { id });
        }
        if !valid_payload(&payload) {
            return Err(HouseError::InvalidInput);
        }
        let mut h = self.houses[p].copy();
        h.owners_name = payload.owners_name;
        h.house_type = payload.house_type;
        h.location = payload.location;
        h.updated_at = Some(now);
        h.available_units = payload.available_units;
        h.price = payload.price;
        h.availability = payload.availability;
        self.do_insert_house(&h);
        Ok(h)
    }

    /// `caller` buys one unit of record `id` at `now`: the unit count drops by
    /// one, the caller joins the buyers, and the record turns unavailable when
    /// its last unit is sold. Fails with `NoUnitAvailable` when the record is
    /// not available or has no unit left.
    pub fn buy_house(&mut self, id: u64, caller: &String, now: u64) -> (r: Result<House, HouseError>)
        requires
            old(self).wf(),
        ensures
            final(self).wf(),
            final(self).counter() == old(self).counter(),
            result_view(r) == spec_buy(old(self).table(), id, caller@, now),
            final(self).table() == written(old(self).table(), spec_buy(old(self).table(), id, caller@, now)),
    {
        let (p, found) = self.position(id);
        if !found {
            return Err(HouseError::NotFound { id });
        }
        if !(self.houses[p].availability && self.houses[p].available_units > 0) {
            return Err(HouseError::NoUnitAvailable { id });
        }
        let mut h = self.houses[p].copy();
        let ghost before = h@;
        h.available_units = h.available_units - 1;
        if h.available_units == 0 {
            h.availability = false;
        }
        h.buyers.push(caller.clone());
        h.updated_at = Some(now);
        assert(h@.buyers =~= before.buyers.push(caller@));
        assert(h@ == bought_house(before, caller@, now));
        self.do_insert_house(&h);
        Ok(h)
    }

    /// Removes record `id` and returns it. Only the record's owner may do so.
    pub fn delete_house(&mut self, id: u64, caller: &String) -> (r: Result<House, HouseError>)
        requires
            old(self).wf(),
        ensures
            final(self).wf(),
            final(self).counter() == old(self).counter(),
            result_view(r) == spec_delete(old(self).table(), id, caller@),
            final(self).table() == removed(old(self).table(), id, spec_delete(old(self).table(), id, caller@)),
    {
        let ghost s = self.records();
        let (p, found) = self.position(id);
        if !found {
            return Err(HouseError::NotFound { id });
        }
        if !owned(&self.houses[p], caller) {
            return Err(HouseError::AuthenticationFailed { id });
        }
        let h = self.houses.remove(p);
        proof {
            let s2 = self.records();
            assert(s2 =~= s.remove(p as int));
            assert forall|a: int, b: int| 0 <= a < b < s2.len() implies s2[a].id < s2[b].id by {
                if b < p {
                    assert(s[a].id < s[b].id);
                } else if a < p {
                    assert(s[a].id < s[b + 1].id);
                } else {
                    assert(s[a + 1].id < s[b + 1].id);
                }
            }
            let t = table_of(s).remove(id);
            assert forall|i: int| 0 <= i < s2.len() implies #[trigger] t.contains_key(s2[i].id) && t[s2[i].id] == s2[i] by {
                if i < p {
                    lemma_table_at(s, i);
                    assert(s[i].id < s[p as int].id);
                } else {
                    lemma_table_at(s, i + 1);
                    assert(s[i + 1].id > s[p as int].id);
                }
            }
            assert forall|k: u64| #[trigger] t.contains_key(k) implies has_id(s2, k) by {
                let j = choose|j: int| 0 <= j < s.len() && s[j].id == k;
                if j < p {
                    assert(s2[j].id == k);
                } else {
                    assert(j != p);
                    assert(s2[j - 1].id == k);
                }
            }
            lemma_table_eq(s2, t);
        }
        Ok(h)
    }

    fn set_flag(&mut self, id: u64, flag: bool) -> (r: Result<House, HouseError>)
        requires
            old(self).wf(),
        ensures
            final(self).wf(),
            final(self).counter() == old(self).counter(),
            result_view(r) == spec_set_availability(old(self).table(), id, flag),
            final(self).table() == written(old(self).table(), spec_set_availability(old(self).table(), id, flag)),
    {
        let (p, found) = self.position(id);
        if !found {
            return Err(HouseError::NotFound { id });
        }
        let mut h = self.houses[p].copy();
        h.availability = flag;
        self.do_insert_house(&h);
        Ok(h)
    }

    /// Marks record `id` available, whatever its unit count.
    pub fn set_house_available(&mut self, id: u64) -> (r: Result<House, HouseError>)
        requires
            old(self).wf(),
        ensures
            final(self).wf(),
            final(self).counter() == old(self).counter(),
            result_view(r) == spec_set_availability(old(self).table(), id, true),
            final(self).table() == written(old(self).table(), spec_set_availability(old(self).table(), id, true)),
    {
        self.set_flag(id, true)
    }

    /// Marks record `id` unavailable, whatever its unit count.
    pub fn set_house_not_available(&mut self, id: u64) -> (r: Result<House, HouseError>)
        requires
            old(self).wf(),
        ensures
            final(self).wf(),
            final(self).counter() == old(self).counter(),
            result_view(r) == spec_set_availability(old(self).table(), id, false),
            final(self).table() == written(old(self).table(), spec_set_availability(old(self).table(), id, false)),
    {
        self.set_flag(id, false)
    }

    /// Overwrites the price of record `id`.
    pub fn set_price(&mut self, id: u64, price: u64) -> (r: Result<House, HouseError>)
        requires
            old(self).wf(),
        ensures
            final(self).wf(),
            final(self).counter() == old(self).counter(),
            result_view(r) == spec_set_price(old(self).table(), id, price),
            final(self).table() == written(old(self).table(), spec_set_price(old(self).table(), id, price)),
    {
        let (p, found) = self.position(id);
        if !found {
            return Err(HouseError::NotFound { id });
        }
        let mut h = self.houses[p].copy();
        h.price = price;
        self.do_insert_house(&h);
        Ok(h)
    }
}

fn precedes(a: &House, b: &House) -> (r: bool)
    ensures
        r == name_order_lt(a@, b@),
{
    text_less(a.owners_name.as_str(), b.owners_name.as_str()) || (a.owners_name.eq(&b.owners_name)
        && a.id < b.id)
}

impl HouseStore {
    /// Every record, ordered by owner name; records with the same owner name
    /// keep their ascending identifier order.
    pub fn sort_house_by_name(&self) -> (r: Vec<House>)
        requires
            self.wf(),
        ensures
            sorted_by_name(houses_view(r@)),
            houses_view(r@).len() == self.records().len(),
            forall|h: HouseView| houses_view(r@).contains(h) <==> self.records().contains(h),
    {
        let ghost s = self.records();
        let mut out: Vec<House> = Vec::new();
        let mut i: usize = 0;
        while i < self.houses.len()
            invariant
                s == self.records(),
                self.wf(),
                s.len() == self.houses.len(),
                i <= s.len(),
                out.len() == i,
                sorted_by_name(houses_view(out@)),
                forall|h: HouseView| houses_view(out@).contains(h) <==> s.subrange(0, i as int).contains(h),
            decreases s.len() - i,
        {
            let x = &self.houses[i];
            let ghost o = houses_view(out@);
            let ghost xv = s[i as int];
            let mut p: usize = 0;
            while p < out.len() && !precedes(x, &out[p])
                invariant
                    o == houses_view(out@),
                    xv == x@,
                    xv == s[i as int],
                    s == self.records(),
                    self.wf(),
                    s.len() == self.houses.len(),
                    i < s.len(),
                    out.len() == i,
                    forall|h: HouseView| o.contains(h) <==> s.subrange(0, i as int).contains(h),
                    p <= out.len(),
                    forall|k: int| 0 <= k < p ==> name_order_lt(#[trigger] o[k], xv),
                decreases out.len() - p,
            {
                proof {
                    let e = o[p as int];
                    assert(o.contains(e));
                    let j = choose|j: int| 0 <= j < i && s.subrange(0, i as int)[j] == e;
                    assert(s[j] == e);
                    assert(ids_ascending(s));
                    assert(0 <= j < i);
                    assert(s[j].id < s[i as int].id);
                    lemma_text_lt_total(xv.owners_name, e.owners_name);
                    assert(out@[p as int]@ == e);
                    assert(!name_order_lt(xv, e));
                    assert(e.id < xv.id);
                    if xv.owners_name == e.owners_name {
                        assert(name_order_lt(e, xv));
                    } else {
                        assert(text_lt(e.owners_name, xv.owners_name));
                    }
                }
                p = p + 1;
            }
            out.insert(p, x.copy());
            proof {
                let o2 = houses_view(out@);
                assert(o2 =~= o.insert(p as int, xv));
                assert forall|a: int, b: int| 0 <= a < b < o2.len() implies name_order_lt(o2[a], o2[b]) by {
                    if b < p {
                    } else if b == p {
                    } else if a < p {
                        assert(name_order_lt(o[a], o[b - 1]));
                    } else if a == p {
                        assert(name_order_lt(xv, o[p as int]));
                        if b - 1 > p {
                            lemma_name_order_transitive(xv, o[p as int], o[b - 1]);
                        }
                    } else {
                        assert(name_order_lt(o[a - 1], o[b - 1]));
                    }
                }
                let t = s.subrange(0, i + 1);
                assert forall|h: HouseView| o2.contains(h) <==> t.contains(h) by {
                    if o2.contains(h) {
                        let k = choose|k: int| 0 <= k < o2.len() && o2[k] == h;
                        if k == p {
                            assert(t[i as int] == h);
                        } else {
                            let kk = if k < p { k } else { k - 1 };
                            assert(o[kk] == h);
                            assert(o.contains(h));
                            let j = choose|j: int| 0 <= j < i && s.subrange(0, i as int)[j] == h;
                            assert(t[j] == h);
                        }
                    }
                    if t.contains(h) {
                        let j = choose|j: int| 0 <= j < i + 1 && t[j] == h;
                        if j == i {
                            assert(o2[p as int] == h);
                        } else {
                            assert(s.subrange(0, i as int)[j] == h);
                            assert(o.contains(h));
                            let k = choose|k: int| 0 <= k < o.len() && o[k] == h;
                            if k < p {
                                assert(o2[k] == h);
                            } else {
                                assert(o2[k + 1] == h);
                            }
                        }
                    }
                }
            }
            i = i + 1;
        }
        assert(s.subrange(0, s.len() as int) =~= s);
        out
    }
}

} // verus!

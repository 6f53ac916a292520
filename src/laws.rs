//! Properties that relate several operations of the store, stated over the
//! model that the operations' contracts use.
use vstd::prelude::*;
use crate::house::{HouseError, HousePayloadView, HouseView};
use crate::model::{
    created_house, lemma_selected_members, name_order_lt, owned_by, removed, selected,
    sorted_by_name, spec_delete, spec_get, spec_update, written, Filter,
};
use crate::text::{lemma_text_lt_irreflexive, lemma_text_lt_transitive, text_lt};

verus! {

/// A record just created under a fresh identifier is what a lookup of that
/// identifier returns, and it carries no update time.
pub proof fn lemma_create_then_get(
    t: Map<u64, HouseView>,
    id: u64,
    p: HousePayloadView,
    caller: Seq<char>,
    now: u64,
)
    ensures
        ({
            let h = created_house(id, p, caller, now);
            &&& spec_get(t.insert(id, h), id) == Ok::<HouseView, HouseError>(h)
            &&& h.updated_at is None
        }),
{
}

/// A successful update stamps the record with the time of the call, which is
/// not before its creation when the clock has not gone back.
pub proof fn lemma_update_stamps(
    t: Map<u64, HouseView>,
    id: u64,
    p: HousePayloadView,
    caller: Seq<char>,
    now: u64,
)
    requires
        spec_update(t, id, p, caller, now) is Ok,
        now >= t[id].created_at,
    ensures
        ({
            let h = spec_update(t, id, p, caller, now)->Ok_0;
            &&& h.updated_at == Some(now)
            &&& h.created_at == t[id].created_at
            &&& h.updated_at->Some_0 >= h.created_at
        }),
{
}

/// After a successful delete, lookups, updates and deletes of the same
/// identifier all report it as not found.
pub proof fn lemma_delete_is_terminal(
    t: Map<u64, HouseView>,
    id: u64,
    caller: Seq<char>,
    p: HousePayloadView,
    later_caller: Seq<char>,
    now: u64,
)
    requires
        spec_delete(t, id, caller) is Ok,
    ensures
        ({
            let t2 = removed(t, id, spec_delete(t, id, caller));
            &&& spec_get(t2, id) == Err::<HouseView, HouseError>(HouseError::NotFound { id })
            &&& spec_update(t2, id, p, later_caller, now) == Err::<HouseView, HouseError>(
                HouseError::NotFound { id },
            )
            &&& spec_delete(t2, id, later_caller) == Err::<HouseView, HouseError>(
                HouseError::NotFound { id },
            )
        }),
{
}

/// A caller that does not own a record can neither update nor delete it, and
/// the table stays as it was.
pub proof fn lemma_ownership_gate(
    t: Map<u64, HouseView>,
    id: u64,
    p: HousePayloadView,
    caller: Seq<char>,
    now: u64,
)
    requires
        t.contains_key(id),
        !owned_by(t[id], caller),
    ensures
        spec_update(t, id, p, caller, now) == Err::<HouseView, HouseError>(
            HouseError::AuthenticationFailed { id },
        ),
        written(t, spec_update(t, id, p, caller, now)) == t,
        spec_delete(t, id, caller) == Err::<HouseView, HouseError>(
            HouseError::AuthenticationFailed { id },
        ),
        removed(t, id, spec_delete(t, id, caller)) == t,
{
}

/// A price search holds exactly the records with that price.
pub proof fn lemma_search_price_exact(s: Seq<HouseView>, price: u64, h: HouseView)
    ensures
        selected(s, Filter::Price(price)).contains(h) <==> (s.contains(h) && h.price == price),
{
    lemma_selected_members(s, Filter::Price(price), h);
}

/// In a listing sorted by name, no owner name comes before the one of the
/// record preceding it.
pub proof fn lemma_sorted_names_non_decreasing(s: Seq<HouseView>, i: int)
    requires
        sorted_by_name(s),
        0 <= i,
        i + 1 < s.len(),
    ensures
        !text_lt(s[i + 1].owners_name, s[i].owners_name),
{
    assert(name_order_lt(s[i], s[i + 1]));
    if text_lt(s[i + 1].owners_name, s[i].owners_name) {
        if text_lt(s[i].owners_name, s[i + 1].owners_name) {
            lemma_text_lt_transitive(s[i].owners_name, s[i + 1].owners_name, s[i].owners_name);
        }
        lemma_text_lt_irreflexive(s[i].owners_name);
    }
}

/// The identifiers that successive calls of `IdAllocator::next` hand out,
/// starting from counter `start`: each call returns the counter plus one and
/// keeps that value as the new counter.
pub open spec fn successive_allocations(start: u64, returned: Seq<u64>) -> bool {
    forall|i: int|
        0 <= i < returned.len() ==> #[trigger] returned[i] == (if i == 0 {
            start as int
        } else {
            returned[i - 1] as int
        }) + 1
}

/// n successive allocations from counter `start` return start + 1, ...,
/// start + n: they increase by one at each call, so no two are equal. From a
/// fresh allocator (`start == 0`) the first is 1; after a restart from a saved
/// counter they continue where it stood.
pub proof fn lemma_allocations_consecutive(start: u64, returned: Seq<u64>)
    requires
        successive_allocations(start, returned),
    ensures
        forall|i: int| 0 <= i < returned.len() ==> #[trigger] returned[i] == start + i + 1,
        forall|i: int, j: int| 0 <= i < j < returned.len() ==> returned[i] < returned[j],
    decreases returned.len(),
{
    if returned.len() > 0 {
        let d = returned.drop_last();
        assert(successive_allocations(start, d)) by {
            assert forall|i: int| 0 <= i < d.len() implies #[trigger] d[i] == (if i == 0 {
                start as int
            } else {
                d[i - 1] as int
            }) + 1 by {
                assert(returned[i] == d[i]);
            }
        }
        lemma_allocations_consecutive(start, d);
        let n = returned.len() - 1;
        assert forall|i: int| 0 <= i < returned.len() implies #[trigger] returned[i] == start + i + 1 by {
            if i < n {
                assert(returned[i] == d[i]);
            } else if i > 0 {
                assert(returned[i - 1] == d[i - 1]);
            }
        }
    }
}

} // verus!

//! The persisted record, the input used to create or overwrite it, and the
//! errors that operations on records report.
use vstd::prelude::*;

verus! {

/// A listed house, as held in the record table.
pub struct House {
    pub id: u64,
    pub owners_name: String,
    /// Identity of the caller that created the record; only that caller may
    /// update or delete it.
    pub realtor: Option<String>,
    pub house_type: String,
    pub location: String,
    pub created_at: u64,
    pub updated_at: Option<u64>,
    pub price: u64,
    pub available_units: u64,
    pub availability: bool,
    /// Identities of the callers that bought a unit, oldest first.
    pub buyers: Vec<String>,
}

/// The mathematical value of a `House`.
pub struct HouseView {
    pub id: u64,
    pub owners_name: Seq<char>,
    pub realtor: Option<Seq<char>>,
    pub house_type: Seq<char>,
    pub location: Seq<char>,
    pub created_at: u64,
    pub updated_at: Option<u64>,
    pub price: u64,
    pub available_units: u64,
    pub availability: bool,
    pub buyers: Seq<Seq<char>>,
}

pub open spec fn option_string_view(o: Option<String>) -> Option<Seq<char>> {
    match o {
        Some(s) => Some(s@),
        None => None,
    }
}

impl View for House {
    type V = HouseView;

    open spec fn view(&self) -> HouseView {
        HouseView {
            id: self.id,
            owners_name: self.owners_name@,
            realtor: option_string_view(self.realtor),
            house_type: self.house_type@,
            location: self.location@,
            created_at: self.created_at,
            updated_at: self.updated_at,
            price: self.price,
            available_units: self.available_units,
            availability: self.availability,
            buyers: self.buyers@.map_values(|b: String| b@),
        }
    }
}

/// The views of a sequence of houses, in the same order.
pub open spec fn houses_view(v: Seq<House>) -> Seq<HouseView> {
    v.map_values(|h: House| h@)
}

fn copy_text(s: &String) -> (r: String)
    ensures
        r@ == s@,
{
    s.clone()
}

fn copy_texts(v: &Vec<String>) -> (r: Vec<String>)
    ensures
        r@.map_values(|b: String| b@) == v@.map_values(|b: String| b@),
{
    let mut out: Vec<String> = Vec::new();
    let mut i: usize = 0;
    while i < v.len()
        invariant
            i <= v.len(),
            out.len() == i,
            forall|k: int| 0 <= k < i ==> #[trigger] out@[k]@ == v@[k]@,
        decreases v.len() - i,
    {
        out.push(copy_text(&v[i]));
        i = i + 1;
    }
    assert(out@.map_values(|b: String| b@) =~= v@.map_values(|b: String| b@));
    out
}

impl House {
    /// A copy of this record with the same value.
    pub fn copy(&self) -> (r: House)
        ensures
            r@ == self@,
    {
        let realtor = match &self.realtor {
            Some(s) => Some(copy_text(s)),
            None => None,
        };
        House {
            id: self.id,
            owners_name: copy_text(&self.owners_name),
            realtor,
            house_type: copy_text(&self.house_type),
            location: copy_text(&self.location),
            created_at: self.created_at,
            updated_at: self.updated_at,
            price: self.price,
            available_units: self.available_units,
            availability: self.availability,
            buyers: copy_texts(&self.buyers),
        }
    }
}

/// The caller-supplied description of the mutable fields of a house.
pub struct HousePayload {
    pub owners_name: String,
    pub house_type: String,
    pub location: String,
    pub available_units: u64,
    pub price: u64,
    pub availability: bool,
}

pub struct HousePayloadView {
    pub owners_name: Seq<char>,
    pub house_type: Seq<char>,
    pub location: Seq<char>,
    pub available_units: u64,
    pub price: u64,
    pub availability: bool,
}

impl View for HousePayload {
    type V = HousePayloadView;

    open spec fn view(&self) -> HousePayloadView {
        HousePayloadView {
            owners_name: self.owners_name@,
            house_type: self.house_type@,
            location: self.location@,
            available_units: self.available_units,
            price: self.price,
            availability: self.availability,
        }
    }
}

/// Why an operation on the record table did not succeed.
#[derive(Debug, Clone, Copy, PartialEq, Eq, Structural)]
pub enum HouseError {
    /// No live record has this identifier.
    NotFound { id: u64 },
    /// A required text field of the payload is empty or only whitespace.
    InvalidInput,
    /// The caller is not the identity recorded as the record's owner.
    AuthenticationFailed { id: u64 },
    /// The record is not available or has no unit left.
    NoUnitAvailable { id: u64 },
}

/// What a history entry records.
#[derive(Debug, Clone, Copy, PartialEq, Eq, Structural)]
pub enum ChangeKind {
    Creation,
    Update,
}

/// One entry of a record's change history.
#[derive(Debug, Clone, Copy, PartialEq, Eq, Structural)]
pub struct ChangeRecord {
    pub timestamp: u64,
    pub change_type: ChangeKind,
}

/// The view of an operation's outcome.
pub open spec fn result_view(r: Result<House, HouseError>) -> Result<HouseView, HouseError> {
    match r {
        Ok(h) => Ok(h@),
        Err(e) => Err(e),
    }
}

} // verus!

//! The values that callers hand to the store and receive back from it.
use vstd::prelude::*;

verus! {

/// A named store of monetary value (an account, a cash box).
#[derive(Clone, Debug, PartialEq, Eq)]
pub struct MonetaryMedium {
    pub name: String,
    pub id: String,
    pub is_valid_for_credit: bool,
}

/// A user-defined label. `id` is absent before the tag is persisted.
#[derive(Clone, Debug, PartialEq, Eq)]
pub struct Tag {
    pub id: Option<String>,
    pub name: String,
}

/// Direction of an activity.
#[derive(Clone, Copy, Debug, PartialEq, Eq, Structural)]
pub enum Operation {
    Credit,
    Debit,
}

/// One financial event. `value` is the amount in hundredths of the medium's
/// unit; `date` is an ISO-8601 date, compared lexically.
#[derive(Clone, Debug, PartialEq, Eq)]
pub struct Activity {
    pub id: Option<String>,
    pub value: i64,
    pub medium: MonetaryMedium,
    pub operation: Operation,
    pub description: String,
    pub date: String,
    pub parent_id: Option<String>,
    pub tags: Option<Vec<Tag>>,
}

/// A saved query: a date range and a set of tags.
#[derive(Clone, Debug, PartialEq, Eq)]
pub struct StaticFilter {
    pub id: String,
    pub initial_date: String,
    pub final_date: String,
    pub tags: Option<Vec<Tag>>,
}

/// A transient query over activities; every part is optional.
#[derive(Clone, Debug, PartialEq, Eq)]
pub struct ActivityFilter {
    pub initial_date: Option<String>,
    pub final_date: Option<String>,
    pub tags: Option<Vec<Tag>>,
}

/// Two optional identifiers are equal: both absent, or both present with the
/// same text.
pub open spec fn same_id(a: Option<String>, b: Option<String>) -> bool {
    match (a, b) {
        (Some(x), Some(y)) => x@ == y@,
        (None, None) => true,
        _ => false,
    }
}

/// Executable test of `same_id`.
pub fn ids_equal(a: &Option<String>, b: &Option<String>) -> (r: bool)
    ensures
        r == same_id(*a, *b),
{
    match (a, b) {
        (Some(x), Some(y)) => *x == *y,
        (None, None) => true,
        _ => false,
    }
}

/// A copy of an optional string that is equal to it.
pub fn copy_opt_string(o: &Option<String>) -> (r: Option<String>)
    ensures
        r == *o,
{
    match o {
        Some(s) => Some(s.clone()),
        None => None,
    }
}

impl MonetaryMedium {
    /// A field-by-field copy, equal to `self`.
    pub fn copied(&self) -> (r: Self)
        ensures
            r == *self,
    {
        MonetaryMedium {
            name: self.name.clone(),
            id: self.id.clone(),
            is_valid_for_credit: self.is_valid_for_credit,
        }
    }
}

impl Tag {
    /// A field-by-field copy, equal to `self`.
    pub fn copied(&self) -> (r: Self)
        ensures
            r == *self,
    {
        Tag { id: copy_opt_string(&self.id), name: self.name.clone() }
    }
}

} // verus!

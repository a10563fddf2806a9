//! Composable date-bound predicates and any-of tag matching.
use vstd::prelude::*;
use crate::models::{ActivityFilter, Tag, ids_equal, same_id};

verus! {

/// `a` sorts strictly before `b`, character by character; a proper prefix
/// sorts first. For fixed-width ISO-8601 dates this is chronological order.
pub open spec fn lex_less(a: Seq<char>, b: Seq<char>) -> bool
    decreases a.len(),
{
    if a.len() == 0 {
        b.len() > 0
    } else if b.len() == 0 {
        false
    } else if a[0] != b[0] {
        (a[0] as u32) < (b[0] as u32)
    } else {
        lex_less(a.drop_first(), b.drop_first())
    }
}

/// Decides `lex_less(a@, b@)`.
pub fn str_less(a: &str, b: &str) -> (r: bool)
    ensures
        r == lex_less(a@, b@),
{
    let la = a.unicode_len();
    let lb = b.unicode_len();
    let mut i: usize = 0;
    assert(a@.skip(0) =~= a@);
    assert(b@.skip(0) =~= b@);
    while i < la && i < lb
        invariant
            la == a@.len(),
            lb == b@.len(),
            i <= la,
            i <= lb,
            lex_less(a@, b@) == lex_less(a@.skip(i as int), b@.skip(i as int)),
        decreases la - i,
    {
        let ca = a.get_char(i);
        let cb = b.get_char(i);
        assert(a@.skip(i as int)[0] == ca);
        assert(b@.skip(i as int)[0] == cb);
        if ca != cb {
            return (ca as u32) < (cb as u32);
        }
        assert(a@.skip(i as int).drop_first() =~= a@.skip(i + 1));
        assert(b@.skip(i as int).drop_first() =~= b@.skip(i + 1));
        i += 1;
    }
    i < lb
}

/// One bound on an activity's date, kept apart from the value it compares
/// against so that no caller text is ever spliced into a query.
#[derive(Clone, Debug, PartialEq, Eq)]
pub enum DateBound {
    /// The date is strictly later than the given one.
    After(String),
    /// The date is strictly earlier than the given one.
    Before(String),
}

/// Whether `date` meets one bound.
pub open spec fn bound_holds(b: DateBound, date: Seq<char>) -> bool {
    match b {
        DateBound::After(d) => lex_less(d@, date),
        DateBound::Before(d) => lex_less(date, d@),
    }
}

/// Whether `date` meets every bound; true of an empty list.
pub open spec fn all_bounds_hold(bs: Seq<DateBound>, date: Seq<char>) -> bool {
    forall|i: int| 0 <= i < bs.len() ==> bound_holds(#[trigger] bs[i], date)
}

/// Whether `date` lies strictly inside the range that `filter` gives; each
/// side is optional, and no filter admits every date.
pub open spec fn date_in_range(filter: Option<ActivityFilter>, date: Seq<char>) -> bool {
    match filter {
        None => true,
        Some(f) => {
            &&& (f.initial_date matches Some(d) ==> lex_less(d@, date))
            &&& (f.final_date matches Some(d) ==> lex_less(date, d@))
        },
    }
}

/// The bounds that `filter` asks for: a lower one, then an upper one, each
/// only where its date is given.
pub fn date_bounds(filter: &Option<ActivityFilter>) -> (r: Vec<DateBound>)
    ensures
        forall|date: Seq<char>| all_bounds_hold(r@, date) == date_in_range(*filter, date),
        r@.len() <= 2,
{
    let mut r: Vec<DateBound> = Vec::new();
    if let Some(f) = filter {
        if let Some(d) = &f.initial_date {
            r.push(DateBound::After(d.clone()));
        }
        if let Some(d) = &f.final_date {
            r.push(DateBound::Before(d.clone()));
        }
    }
    assert forall|date: Seq<char>| all_bounds_hold(r@, date) == date_in_range(*filter, date) by {
        if all_bounds_hold(r@, date) {
            if r@.len() > 0 {
                assert(bound_holds(r@[0], date));
            }
            if r@.len() > 1 {
                assert(bound_holds(r@[1], date));
            }
        }
    }
    r
}

/// Decides whether `date` meets one bound.
pub fn bound_admits(b: &DateBound, date: &str) -> (r: bool)
    ensures
        r == bound_holds(*b, date@),
{
    match b {
        DateBound::After(d) => str_less(d.as_str(), date),
        DateBound::Before(d) => str_less(date, d.as_str()),
    }
}

/// Decides whether `date` meets every bound of the list.
pub fn bounds_admit(bs: &Vec<DateBound>, date: &str) -> (r: bool)
    ensures
        r == all_bounds_hold(bs@, date@),
{
    let mut i: usize = 0;
    while i < bs.len()
        invariant
            i <= bs@.len(),
            forall|k: int| 0 <= k < i ==> bound_holds(#[trigger] bs@[k], date@),
        decreases bs@.len() - i,
    {
        if !bound_admits(&bs[i], date) {
            return false;
        }
        i += 1;
    }
    true
}

/// Some tag of `held` carries the same identifier as some tag of `wanted`.
pub open spec fn shares_tag(held: Seq<Tag>, wanted: Seq<Tag>) -> bool {
    exists|i: int, j: int|
        0 <= i < held.len() && 0 <= j < wanted.len() && same_id(
            #[trigger] held[i].id,
            #[trigger] wanted[j].id,
        )
}

/// Whether an activity with tags `held` passes the tag part of `filter`.
/// No filter, or one with no tags, admits everything; otherwise one common
/// tag is enough, and an untagged activity is left out.
pub open spec fn tags_admitted(filter: Option<ActivityFilter>, held: Seq<Tag>) -> bool {
    match filter {
        None => true,
        Some(f) => match f.tags {
            None => true,
            Some(ts) => ts@.len() == 0 || shares_tag(held, ts@),
        },
    }
}

/// Decides `shares_tag`.
pub fn any_tag_shared(held: &Vec<Tag>, wanted: &Vec<Tag>) -> (r: bool)
    ensures
        r == shares_tag(held@, wanted@),
{
    let mut j: usize = 0;
    while j < wanted.len()
        invariant
            j <= wanted@.len(),
            forall|a: int, b: int|
                0 <= a < held@.len() && 0 <= b < j ==> !same_id(
                    #[trigger] held@[a].id,
                    #[trigger] wanted@[b].id,
                ),
        decreases wanted@.len() - j,
    {
        let mut i: usize = 0;
        while i < held.len()
            invariant
                j < wanted@.len(),
                i <= held@.len(),
                forall|a: int, b: int|
                    0 <= a < held@.len() && 0 <= b < j ==> !same_id(
                        #[trigger] held@[a].id,
                        #[trigger] wanted@[b].id,
                    ),
                forall|a: int| 0 <= a < i ==> !same_id(#[trigger] held@[a].id, wanted@[j as int].id),
            decreases held@.len() - i,
        {
            if ids_equal(&held[i].id, &wanted[j].id) {
                return true;
            }
            i += 1;
        }
        j += 1;
    }
    false
}

/// Decides `tags_admitted`.
pub fn tags_admit(filter: &Option<ActivityFilter>, held: &Vec<Tag>) -> (r: bool)
    ensures
        r == tags_admitted(*filter, held@),
{
    match filter {
        None => true,
        Some(f) => match &f.tags {
            None => true,
            Some(ts) => ts.len() == 0 || any_tag_shared(held, ts),
        },
    }
}

} // verus!

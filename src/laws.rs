//! Properties that hold across several store operations.
use vstd::prelude::*;
use crate::models::Tag;
use crate::error::StoreError;
use crate::models::{Activity, ActivityFilter, StaticFilter};
use crate::predicate::{lex_less, shares_tag};
use crate::store::{
    ActivityRow, FilterRow, as_tag, Link, StoreView, deleted, fetched, filter_by_id, filter_tag_added, filter_tags_of,
    has_filter, has_medium, is_parent, names_parent, lemma_filter_by_id_found, lemma_links_without, lemma_rows_without, links_without,
    range_updated, ranged, rows_without, tags_shown_as, TagRow, activity_shown, activity_tags_of, as_tags, created, has_activity,
    has_link, lemma_resolve_step, lemma_tag_by_id_found, lemma_tag_by_name_found, link_all, linked_tags, listed_rows, resolve_all, resolve_step,
    row_of, store_wf, tag_by_id, tag_by_name, tags_of, tags_unique,
};

verus! {

#[verifier::spinoff_prover]
#[verifier::rlimit(40)]
/// Resolving a tag by name twice gives the same id both times, the second
/// resolution changes nothing, and exactly one row carries that name.
pub proof fn law_resolve_by_name_twice(tags: Seq<TagRow>, t: Tag, fresh1: String, fresh2: String)
    requires
        tags_unique(tags),
        t.id is None,
        resolve_step(tags, t, fresh1).1 is Some,
    ensures
        ({
            let (t1, r1) = resolve_step(tags, t, fresh1);
            let (t2, r2) = resolve_step(t1, t, fresh2);
            &&& r2 == r1
            &&& t2 == t1
            &&& exists|i: int|
                0 <= i < t2.len() && (#[trigger] t2[i]).name@ == t.name@ && forall|j: int|
                    0 <= j < t2.len() && (#[trigger] t2[j]).name@ == t.name@ ==> j == i
        }),
{
    lemma_resolve_step(tags, t, fresh1);
    let t1 = resolve_step(tags, t, fresh1).0;
    let row = tag_by_name(t1, t.name@)->Some_0;
    lemma_tag_by_name_found(t1, t.name@);
    let k = choose|k: int| 0 <= k < t1.len() && t1[k] == row;
    assert(t1[k].name@ == t.name@);
}

} // verus!

verus! {

/// Tag `t` has the id `x`.
pub open spec fn id_reads(t: Tag, x: Seq<char>) -> bool {
    match t.id {
        Some(y) => y@ == x,
        None => false,
    }
}

/// Some tag of `tags` has the id `x`.
pub open spec fn has_tag_id(tags: Seq<Tag>, x: Seq<char>) -> bool {
    exists|i: int| 0 <= i < tags.len() && id_reads(#[trigger] tags[i], x)
}

/// Some string of `ids` reads `x`.
pub open spec fn has_string(ids: Seq<String>, x: Seq<char>) -> bool {
    exists|k: int| 0 <= k < ids.len() && (#[trigger] ids[k])@ == x
}

/// Some association of `links` pairs `owner` with an existing tag `x`.
pub open spec fn linked_to(links: Seq<Link>, tags: Seq<TagRow>, owner: Seq<char>, x: Seq<char>) -> bool {
    has_link(links, owner, x) && tag_by_id(tags, x) is Some
}

proof fn lemma_linked_tags_ids(links: Seq<Link>, tags: Seq<TagRow>, owner: Seq<char>)
    ensures
        forall|x: Seq<char>|
            #[trigger] has_tag_id(as_tags(linked_tags(links, tags, owner)), x) == linked_to(links, tags, owner, x),
    decreases links.len(),
{
    let shown = as_tags(linked_tags(links, tags, owner));
    if links.len() == 0 {
        assert forall|x: Seq<char>| #[trigger] has_tag_id(shown, x) == linked_to(links, tags, owner, x) by {}
    } else {
        let d = links.drop_last();
        let l = links.last();
        lemma_linked_tags_ids(d, tags, owner);
        lemma_tag_by_id_found(tags, l.tag_id@);
        let prev = as_tags(linked_tags(d, tags, owner));
        assert forall|x: Seq<char>| #[trigger] has_tag_id(shown, x) == linked_to(links, tags, owner, x) by {
            lemma_tag_by_id_found(tags, x);
            assert forall|i: int| 0 <= i < prev.len() implies shown[i] == prev[i] by {}
            if has_tag_id(prev, x) {
                let i = choose|i: int| 0 <= i < prev.len() && id_reads(#[trigger] prev[i], x);
                assert(shown[i] == prev[i]);
            }
            if has_link(d, owner, x) {
                let j = choose|j: int| 0 <= j < d.len() && (#[trigger] d[j]).owner_id@ == owner && d[j].tag_id@ == x;
                assert(links[j] == d[j]);
            }
            if has_link(links, owner, x) {
                let j = choose|j: int| 0 <= j < links.len() && (#[trigger] links[j]).owner_id@ == owner && links[j].tag_id@ == x;
                if j < d.len() {
                    assert(d[j] == links[j]);
                }
            }
            if has_tag_id(shown, x) {
                let i = choose|i: int| 0 <= i < shown.len() && id_reads(#[trigger] shown[i], x);
                if i < prev.len() {
                    assert(shown[i] == prev[i]);
                }
            }
            if l.owner_id@ == owner && l.tag_id@ == x && tag_by_id(tags, x) is Some {
                assert(shown[shown.len() - 1].id == Some(tag_by_id(tags, x)->Some_0.id));
            }
        }
    }
}

proof fn lemma_link_all_pairs(links: Seq<Link>, owner: String, ids: Seq<String>)
    ensures
        forall|o: Seq<char>, x: Seq<char>|
            #[trigger] has_link(link_all(links, owner, ids), o, x) == (has_link(links, o, x) || (o == owner@
                && has_string(ids, x))),
    decreases ids.len(),
{
    if ids.len() > 0 {
        let d = ids.drop_last();
        lemma_link_all_pairs(links, owner, d);
        let prev = link_all(links, owner, d);
        let cur = link_all(links, owner, ids);
        assert forall|o: Seq<char>, x: Seq<char>|
            #[trigger] has_link(cur, o, x) == (has_link(links, o, x) || (o == owner@ && has_string(ids, x))) by {
            assert(has_link(prev, o, x) == (has_link(links, o, x) || (o == owner@ && has_string(d, x))));
            if has_string(d, x) {
                let k = choose|k: int| 0 <= k < d.len() && (#[trigger] d[k])@ == x;
                assert(ids[k] == d[k]);
            }
            if has_string(ids, x) {
                let k = choose|k: int| 0 <= k < ids.len() && (#[trigger] ids[k])@ == x;
                if k < d.len() {
                    assert(d[k] == ids[k]);
                }
            }
            if !has_link(prev, owner@, ids.last()@) {
                assert forall|i: int| 0 <= i < prev.len() implies cur[i] == prev[i] by {}
                if has_link(prev, o, x) {
                    let i = choose|i: int| 0 <= i < prev.len() && (#[trigger] prev[i]).owner_id@ == o && prev[i].tag_id@ == x;
                    assert(cur[i] == prev[i]);
                }
                if has_link(cur, o, x) {
                    let i = choose|i: int| 0 <= i < cur.len() && (#[trigger] cur[i]).owner_id@ == o && cur[i].tag_id@ == x;
                    if i < prev.len() {
                        assert(cur[i] == prev[i]);
                    }
                }
                assert(cur[cur.len() - 1].owner_id@ == owner@);
            }
        }
    }
}

/// A listing holds exactly the stored rows that it shows.
pub proof fn lemma_listed_rows_members(s: StoreView, f: Option<ActivityFilter>, rows: Seq<ActivityRow>)
    ensures
        forall|r: ActivityRow|
            #[trigger] listed_rows(s, f, rows).contains(r) == (rows.contains(r) && activity_shown(s, f, r)),
    decreases rows.len(),
{
    if rows.len() > 0 {
        let d = rows.drop_last();
        lemma_listed_rows_members(s, f, d);
        let prev = listed_rows(s, f, d);
        let cur = listed_rows(s, f, rows);
        assert forall|r: ActivityRow| #[trigger] cur.contains(r) == (rows.contains(r) && activity_shown(s, f, r)) by {
            assert(prev.contains(r) == (d.contains(r) && activity_shown(s, f, r)));
            if d.contains(r) {
                let k = choose|k: int| 0 <= k < d.len() && d[k] == r;
                assert(rows[k] == d[k]);
            }
            if rows.contains(r) {
                let k = choose|k: int| 0 <= k < rows.len() && rows[k] == r;
                if k < d.len() {
                    assert(d[k] == rows[k]);
                }
            }
            if prev.contains(r) {
                let k = choose|k: int| 0 <= k < prev.len() && prev[k] == r;
                assert(cur[k] == prev[k]);
            }
            if cur.contains(r) {
                let k = choose|k: int| 0 <= k < cur.len() && cur[k] == r;
                if k < prev.len() {
                    assert(cur[k] == prev[k]);
                } else {
                    assert(r == rows.last());
                    assert(rows[rows.len() - 1] == r);
                }
            }
            if r == rows.last() && activity_shown(s, f, r) {
                assert(cur[cur.len() - 1] == r);
            }
            if r == rows.last() {
                assert(rows[rows.len() - 1] == r);
            }
        }
    }
}

/// A created activity is listed with no filter, as the row of its input, and
/// its tags are exactly those its tag references resolved to.
pub proof fn law_created_activity_is_listed(s: StoreView, a: Activity, id: String, fresh: Seq<String>)
    requires
        store_wf(s),
        created(s, a, id, fresh).1 is Ok,
    ensures
        ({
            let s2 = created(s, a, id, fresh).0;
            let ids = resolve_all(s.tags, tags_of(a), fresh).1->Some_0;
            &&& listed_rows(s2, None, s2.activities).contains(row_of(a, id))
            &&& forall|x: Seq<char>|
                #[trigger] has_tag_id(activity_tags_of(s2, id@), x) == has_string(ids, x)
        }),
{
    let s2 = created(s, a, id, fresh).0;
    let ids = resolve_all(s.tags, tags_of(a), fresh).1->Some_0;
    let row = row_of(a, id);
    lemma_listed_rows_members(s2, None, s2.activities);
    assert(s2.activities.last() == row);
    assert(s2.activities.contains(row));
    lemma_linked_tags_ids(s2.activity_tags, s2.tags, id@);
    lemma_link_all_pairs(s.activity_tags, id, ids);
    assert forall|x: Seq<char>| #[trigger] has_tag_id(activity_tags_of(s2, id@), x) == has_string(ids, x) by {
        if has_link(s.activity_tags, id@, x) {
            let j = choose|j: int| 0 <= j < s.activity_tags.len() && (#[trigger] s.activity_tags[j]).owner_id@ == id@
                && s.activity_tags[j].tag_id@ == x;
            assert(has_activity(s.activities, s.activity_tags[j].owner_id@));
        }
        if has_string(ids, x) {
            let k = choose|k: int| 0 <= k < ids.len() && (#[trigger] ids[k])@ == x;
            assert(tag_by_id(s2.tags, ids[k]@) is Some);
        }
    }
}

} // verus!

verus! {

proof fn lemma_rows_without_none(acts: Seq<ActivityRow>, id: Seq<char>)
    requires
        !has_activity(acts, id),
    ensures
        rows_without(acts, id) == acts,
    decreases acts.len(),
{
    if acts.len() > 0 {
        let d = acts.drop_last();
        assert forall|i: int| 0 <= i < d.len() implies (#[trigger] d[i]).id@ != id by {
            assert(d[i] == acts[i]);
        }
        lemma_rows_without_none(d, id);
        assert(acts[acts.len() - 1].id@ != id);
        assert(d.push(acts.last()) =~= acts);
    }
}

proof fn lemma_links_without_none(links: Seq<Link>, owner: Seq<char>, tag: Option<Seq<char>>)
    requires
        forall|i: int|
            0 <= i < links.len() ==> !((#[trigger] links[i]).owner_id@ == owner && (tag matches Some(t)
                ==> links[i].tag_id@ == t)),
    ensures
        links_without(links, owner, tag) == links,
    decreases links.len(),
{
    if links.len() > 0 {
        let d = links.drop_last();
        assert forall|i: int| 0 <= i < d.len() implies !((#[trigger] d[i]).owner_id@ == owner && (tag matches Some(t)
            ==> d[i].tag_id@ == t)) by {
            assert(d[i] == links[i]);
        }
        lemma_links_without_none(d, owner, tag);
        assert(!(links[links.len() - 1].owner_id@ == owner && (tag matches Some(t) ==> links[links.len() - 1].tag_id@
            == t)));
        assert(d.push(links.last()) =~= links);
    }
}

/// Deleting an activity that no other one names as its parent removes its
/// row and all its tag associations, so no listing shows it any more;
/// deleting it again is allowed, changes nothing and removes no row.
pub proof fn law_delete_removes_activity(s: StoreView, id: Seq<char>, f: Option<ActivityFilter>)
    requires
        store_wf(s),
        !is_parent(s.activities, id),
    ensures
        ({
            let s1 = deleted(s, id);
            &&& !has_activity(s1.activities, id)
            &&& !is_parent(s1.activities, id)
            &&& forall|i: int| 0 <= i < s1.activity_tags.len() ==> (#[trigger] s1.activity_tags[i]).owner_id@ != id
            &&& forall|r: ActivityRow| #[trigger] listed_rows(s1, f, s1.activities).contains(r) ==> r.id@ != id
            &&& deleted(s1, id) == s1
            &&& s1.activities.len() - deleted(s1, id).activities.len() == 0
        }),
{
    let s1 = deleted(s, id);
    lemma_rows_without(s.activities, id);
    lemma_links_without(s.activity_tags, id, None);
    lemma_listed_rows_members(s1, f, s1.activities);
    if has_activity(s1.activities, id) {
        let k = choose|k: int| 0 <= k < s1.activities.len() && (#[trigger] s1.activities[k]).id@ == id;
        assert(s.activities.contains(s1.activities[k]));
    }
    assert forall|i: int| 0 <= i < s1.activity_tags.len() implies (#[trigger] s1.activity_tags[i]).owner_id@ != id by {
        assert(s.activity_tags.contains(links_without(s.activity_tags, id, None)[i]));
    }
    assert forall|r: ActivityRow| #[trigger] listed_rows(s1, f, s1.activities).contains(r) implies r.id@ != id by {
        let k = choose|k: int| 0 <= k < s1.activities.len() && s1.activities[k] == r;
        assert(s.activities.contains(rows_without(s.activities, id)[k]));
    }
    if is_parent(s1.activities, id) {
        let k = choose|k: int| 0 <= k < s1.activities.len() && names_parent(#[trigger] s1.activities[k], id);
        assert(s.activities.contains(s1.activities[k]));
        let j = choose|j: int| 0 <= j < s.activities.len() && s.activities[j] == s1.activities[k];
        assert(names_parent(s.activities[j], id));
    }
    lemma_rows_without_none(s1.activities, id);
    lemma_links_without_none(s1.activity_tags, id, None);
}

/// Under a filter that gives a non-empty tag list and no dates, a stored
/// activity whose medium exists is listed exactly when it shares at least one
/// tag with that list; an activity without tags is never listed.
pub proof fn law_tag_filter_matches_any(s: StoreView, f: ActivityFilter, row: ActivityRow)
    requires
        f.initial_date is None,
        f.final_date is None,
        f.tags matches Some(ts) && ts@.len() > 0,
        s.activities.contains(row),
        has_medium(s.media, row.medium_id@),
    ensures
        listed_rows(s, Some(f), s.activities).contains(row) == shares_tag(
            activity_tags_of(s, row.id@),
            f.tags->Some_0@,
        ),
        activity_tags_of(s, row.id@).len() == 0 ==> !listed_rows(s, Some(f), s.activities).contains(row),
{
    lemma_listed_rows_members(s, Some(f), s.activities);
}

/// Under a filter that gives dates and no tags, a stored activity whose
/// medium exists is listed exactly when its date lies strictly between the
/// given bounds; either bound may be absent.
pub proof fn law_date_filter_is_strict(s: StoreView, f: ActivityFilter, row: ActivityRow)
    requires
        f.tags is None,
        s.activities.contains(row),
        has_medium(s.media, row.medium_id@),
    ensures
        listed_rows(s, Some(f), s.activities).contains(row) == ((f.initial_date matches Some(d) ==> lex_less(
            d@,
            row.date@,
        )) && (f.final_date matches Some(d) ==> lex_less(row.date@, d@))),
{
    lemma_listed_rows_members(s, Some(f), s.activities);
}

/// After a tag is added to a saved filter, reading the filter back shows
/// the tag; after it is removed again, the filter's tags no longer hold it.
pub proof fn law_filter_tag_add_then_remove(s: StoreView, filter_id: String, tag_id: String, r: Result<StaticFilter, StoreError>)
    requires
        store_wf(s),
        filter_tag_added(s, filter_id, tag_id).1 is None,
        fetched(filter_tag_added(s, filter_id, tag_id).0, filter_id@, r),
    ensures
        has_tag_id(filter_tags_of(filter_tag_added(s, filter_id, tag_id).0, filter_id@), tag_id@),
        r matches Ok(g) && g.tags matches Some(v) && has_tag_id(v@, tag_id@),
        ({
            let s1 = filter_tag_added(s, filter_id, tag_id).0;
            let s2 = StoreView { filter_tags: links_without(s1.filter_tags, filter_id@, Some(tag_id@)), ..s1 };
            !has_tag_id(filter_tags_of(s2, filter_id@), tag_id@)
        }),
{
    let s1 = filter_tag_added(s, filter_id, tag_id).0;
    let s2 = StoreView { filter_tags: links_without(s1.filter_tags, filter_id@, Some(tag_id@)), ..s1 };
    lemma_linked_tags_ids(s1.filter_tags, s1.tags, filter_id@);
    lemma_linked_tags_ids(s2.filter_tags, s2.tags, filter_id@);
    assert(s1.filter_tags[s1.filter_tags.len() - 1] == Link { owner_id: filter_id, tag_id });
    assert(has_link(s1.filter_tags, filter_id@, tag_id@));
    lemma_filter_by_id_found(s1.filters, filter_id@);
    lemma_links_without(s1.filter_tags, filter_id@, Some(tag_id@));
    if has_link(s2.filter_tags, filter_id@, tag_id@) {
        let j = choose|j: int| 0 <= j < s2.filter_tags.len() && (#[trigger] s2.filter_tags[j]).owner_id@ == filter_id@
            && s2.filter_tags[j].tag_id@ == tag_id@;
        assert(s1.filter_tags.contains(links_without(s1.filter_tags, filter_id@, Some(tag_id@))[j]));
    }
}

/// Removing a tag that a saved filter does not have changes nothing.
pub proof fn law_remove_absent_filter_tag(s: StoreView, filter_id: String, tag_id: String)
    requires
        !has_link(s.filter_tags, filter_id@, tag_id@),
    ensures
        links_without(s.filter_tags, filter_id@, Some(tag_id@)) == s.filter_tags,
{
    lemma_links_without_none(s.filter_tags, filter_id@, Some(tag_id@));
}

proof fn lemma_filter_by_id_ranged(filters: Seq<FilterRow>, f: StaticFilter)
    ensures
        filter_by_id(filters.map_values(|row: FilterRow| ranged(row, f)), f.id@) == match filter_by_id(filters, f.id@) {
            Some(row) => Some(ranged(row, f)),
            None => None::<FilterRow>,
        },
    decreases filters.len(),
{
    if filters.len() > 0 {
        let m = filters.map_values(|row: FilterRow| ranged(row, f));
        assert(m.drop_first() =~= filters.drop_first().map_values(|row: FilterRow| ranged(row, f)));
        lemma_filter_by_id_ranged(filters.drop_first(), f);
    }
}

/// Reading a saved filter back after replacing its date range gives exactly
/// the new bounds and the tags it had before.
pub proof fn law_update_range_round_trip(s: StoreView, f: StaticFilter, r: Result<StaticFilter, StoreError>)
    requires
        has_filter(s.filters, f.id@),
        fetched(range_updated(s, f), f.id@, r),
    ensures
        r matches Ok(g) && g.id@ == f.id@ && g.initial_date == f.initial_date && g.final_date == f.final_date
            && tags_shown_as(g.tags, filter_tags_of(s, f.id@)),
{
    lemma_filter_by_id_found(s.filters, f.id@);
    lemma_filter_by_id_ranged(s.filters, f);
}

} // verus!

verus! {

proof fn lemma_name_persists(t1: Seq<TagRow>, t2: Seq<TagRow>, n: Seq<char>)
    requires
        tags_unique(t2),
        t1.len() <= t2.len(),
        forall|i: int| 0 <= i < t1.len() ==> #[trigger] t2[i] == t1[i],
        tag_by_name(t1, n) is Some,
    ensures
        tag_by_name(t2, n) == tag_by_name(t1, n),
{
    lemma_tag_by_name_found(t1, n);
    lemma_tag_by_name_found(t2, n);
    let r = tag_by_name(t1, n)->Some_0;
    let k = choose|k: int| 0 <= k < t1.len() && t1[k] == r;
    assert(t2[k] == r);
    let r2 = tag_by_name(t2, n)->Some_0;
    let k2 = choose|k2: int| 0 <= k2 < t2.len() && t2[k2] == r2;
    if k2 != k {
        if k2 < k {
            assert(t2[k2].name@ != t2[k].name@);
        } else {
            assert(t2[k].name@ != t2[k2].name@);
        }
    }
}

proof fn lemma_named_row_by_id(t: Seq<TagRow>, n: Seq<char>)
    requires
        tags_unique(t),
        tag_by_name(t, n) is Some,
    ensures
        tag_by_id(t, tag_by_name(t, n)->Some_0.id@) == tag_by_name(t, n),
{
    let r = tag_by_name(t, n)->Some_0;
    lemma_tag_by_name_found(t, n);
    lemma_tag_by_id_found(t, r.id@);
    let k = choose|k: int| 0 <= k < t.len() && t[k] == r;
    let r2 = tag_by_id(t, r.id@)->Some_0;
    let k2 = choose|k2: int| 0 <= k2 < t.len() && t[k2] == r2;
    if k2 != k {
        if k2 < k {
            assert(t[k2].id@ != t[k].id@);
        } else {
            assert(t[k].id@ != t[k2].id@);
        }
    }
}

/// What resolving a list of references gives, reference by reference: a
/// given id as it is, and for a name the id of the row of that name.
proof fn lemma_resolve_all(tags: Seq<TagRow>, wanted: Seq<Tag>, fresh: Seq<String>)
    requires
        tags_unique(tags),
        resolve_all(tags, wanted, fresh).1 is Some,
    ensures
        ({
            let (t2, ids) = resolve_all(tags, wanted, fresh);
            &&& tags_unique(t2)
            &&& tags.len() <= t2.len()
            &&& forall|i: int| 0 <= i < tags.len() ==> #[trigger] t2[i] == tags[i]
            &&& ids->Some_0.len() == wanted.len()
            &&& forall|i: int|
                0 <= i < wanted.len() ==> match (#[trigger] wanted[i]).id {
                    Some(x) => ids->Some_0[i] == x,
                    None => tag_by_name(t2, wanted[i].name@) matches Some(row) && row.id == ids->Some_0[i],
                }
        }),
    decreases wanted.len(),
{
    if wanted.len() > 0 {
        let d = wanted.drop_last();
        lemma_resolve_all(tags, d, fresh);
        let (t1, ids1) = resolve_all(tags, d, fresh);
        let last = wanted.last();
        lemma_resolve_step(t1, last, fresh[wanted.len() - 1]);
        let (t2, ids) = resolve_all(tags, wanted, fresh);
        assert forall|i: int| 0 <= i < wanted.len() implies match (#[trigger] wanted[i]).id {
            Some(x) => ids->Some_0[i] == x,
            None => tag_by_name(t2, wanted[i].name@) matches Some(row) && row.id == ids->Some_0[i],
        } by {
            if i < d.len() {
                assert(wanted[i] == d[i]);
                if d[i].id is None {
                    lemma_name_persists(t1, t2, d[i].name@);
                }
            }
        }
    }
}

proof fn lemma_linked_contains(links: Seq<Link>, tags: Seq<TagRow>, owner: Seq<char>, x: Seq<char>)
    requires
        linked_to(links, tags, owner, x),
    ensures
        linked_tags(links, tags, owner).contains(tag_by_id(tags, x)->Some_0),
    decreases links.len(),
{
    let d = links.drop_last();
    let l = links.last();
    let prev = linked_tags(d, tags, owner);
    let cur = linked_tags(links, tags, owner);
    if l.owner_id@ == owner && l.tag_id@ == x {
        assert(cur[cur.len() - 1] == tag_by_id(tags, x)->Some_0);
    } else {
        let j = choose|j: int| 0 <= j < links.len() && (#[trigger] links[j]).owner_id@ == owner && links[j].tag_id@ == x;
        assert(d[j] == links[j]);
        lemma_linked_contains(d, tags, owner, x);
        let k = choose|k: int| 0 <= k < prev.len() && prev[k] == tag_by_id(tags, x)->Some_0;
        assert(cur[k] == prev[k]);
    }
}

/// A created activity, listed back, shows each tag it was created with: a
/// tag given by id under that id, a tag given by name under that name and
/// the id it resolved to.
pub proof fn law_created_activity_shows_each_tag(s: StoreView, a: Activity, id: String, fresh: Seq<String>)
    requires
        store_wf(s),
        created(s, a, id, fresh).1 is Ok,
    ensures
        ({
            let s2 = created(s, a, id, fresh).0;
            let ids = resolve_all(s.tags, tags_of(a), fresh).1->Some_0;
            let shown = activity_tags_of(s2, id@);
            forall|i: int|
                0 <= i < tags_of(a).len() ==> match (#[trigger] tags_of(a)[i]).id {
                    Some(x) => has_tag_id(shown, x@),
                    None => exists|j: int|
                        0 <= j < shown.len() && (#[trigger] shown[j]).id == Some(ids[i]) && shown[j].name@
                            == tags_of(a)[i].name@,
                }
        }),
{
    let s2 = created(s, a, id, fresh).0;
    let ids = resolve_all(s.tags, tags_of(a), fresh).1->Some_0;
    let shown = activity_tags_of(s2, id@);
    let wanted = tags_of(a);
    law_created_activity_is_listed(s, a, id, fresh);
    lemma_resolve_all(s.tags, wanted, fresh);
    lemma_link_all_pairs(s.activity_tags, id, ids);
    assert forall|i: int| 0 <= i < wanted.len() implies match (#[trigger] wanted[i]).id {
        Some(x) => has_tag_id(shown, x@),
        None => exists|j: int|
            0 <= j < shown.len() && (#[trigger] shown[j]).id == Some(ids[i]) && shown[j].name@ == wanted[i].name@,
    } by {
        assert(has_string(ids, ids[i]@));
        assert(s2.tags == resolve_all(s.tags, wanted, fresh).0);
        if let Some(x) = wanted[i].id {
            assert(ids[i] == x);
            assert(has_tag_id(shown, ids[i]@) == has_string(ids, ids[i]@));
        } else {
            lemma_tag_by_name_found(s2.tags, wanted[i].name@);
            let row = tag_by_name(s2.tags, wanted[i].name@)->Some_0;
            assert(row.id == ids[i]);
            lemma_named_row_by_id(s2.tags, wanted[i].name@);
            assert(tag_by_id(s2.tags, ids[i]@) is Some);
            assert(has_link(s2.activity_tags, id@, ids[i]@));
            lemma_linked_contains(s2.activity_tags, s2.tags, id@, ids[i]@);
            let linked = linked_tags(s2.activity_tags, s2.tags, id@);
            let j = choose|j: int| 0 <= j < linked.len() && linked[j] == row;
            assert(shown[j] == as_tag(row));
            assert(shown[j].id == Some(ids[i]));
        }
    }
}

} // verus!

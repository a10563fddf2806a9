//! The relational store: monetary media, tags, activities, saved filters and
//! the two tag associations, with the keys and references of the schema.
use vstd::prelude::*;
use crate::error::StoreError;
use crate::ids::new_id;
use crate::models::{Activity, ActivityFilter, MonetaryMedium, Operation, StaticFilter, Tag};
use crate::predicate::{bounds_admit, date_bounds, date_in_range, tags_admit, tags_admitted};

verus! {

/// A persisted tag.
#[derive(Clone, Debug, PartialEq, Eq)]
pub struct TagRow {
    pub id: String,
    pub name: String,
}

/// A persisted activity; the medium and the parent are held by id.
#[derive(Clone, Debug, PartialEq, Eq)]
pub struct ActivityRow {
    pub id: String,
    pub value: i64,
    pub medium_id: String,
    pub operation: Operation,
    pub description: String,
    pub date: String,
    pub parent_id: Option<String>,
}

/// A persisted saved filter, without its tags.
#[derive(Clone, Debug, PartialEq, Eq)]
pub struct FilterRow {
    pub id: String,
    pub initial_date: String,
    pub final_date: String,
}

/// One association of a tag with an activity or with a saved filter.
#[derive(Clone, Debug, PartialEq, Eq)]
pub struct Link {
    pub owner_id: String,
    pub tag_id: String,
}

/// The six relations.
pub struct Store {
    pub media: Vec<MonetaryMedium>,
    pub tags: Vec<TagRow>,
    pub activities: Vec<ActivityRow>,
    pub activity_tags: Vec<Link>,
    pub filters: Vec<FilterRow>,
    pub filter_tags: Vec<Link>,
}

/// The contents of a `Store`, relation by relation.
pub struct StoreView {
    pub media: Seq<MonetaryMedium>,
    pub tags: Seq<TagRow>,
    pub activities: Seq<ActivityRow>,
    pub activity_tags: Seq<Link>,
    pub filters: Seq<FilterRow>,
    pub filter_tags: Seq<Link>,
}

impl View for Store {
    type V = StoreView;

    open spec fn view(&self) -> StoreView {
        StoreView {
            media: self.media@,
            tags: self.tags@,
            activities: self.activities@,
            activity_tags: self.activity_tags@,
            filters: self.filters@,
            filter_tags: self.filter_tags@,
        }
    }
}

pub open spec fn has_medium(media: Seq<MonetaryMedium>, id: Seq<char>) -> bool {
    exists|i: int| 0 <= i < media.len() && (#[trigger] media[i]).id@ == id
}

pub open spec fn has_activity(acts: Seq<ActivityRow>, id: Seq<char>) -> bool {
    exists|i: int| 0 <= i < acts.len() && (#[trigger] acts[i]).id@ == id
}

pub open spec fn has_filter(filters: Seq<FilterRow>, id: Seq<char>) -> bool {
    exists|i: int| 0 <= i < filters.len() && (#[trigger] filters[i]).id@ == id
}

pub open spec fn has_link(links: Seq<Link>, owner: Seq<char>, tag: Seq<char>) -> bool {
    exists|i: int|
        0 <= i < links.len() && (#[trigger] links[i]).owner_id@ == owner && links[i].tag_id@ == tag
}

/// The first tag row with the given id.
pub open spec fn tag_by_id(tags: Seq<TagRow>, id: Seq<char>) -> Option<TagRow>
    decreases tags.len(),
{
    if tags.len() == 0 {
        None
    } else if tags[0].id@ == id {
        Some(tags[0])
    } else {
        tag_by_id(tags.drop_first(), id)
    }
}

/// The first tag row with the given name.
pub open spec fn tag_by_name(tags: Seq<TagRow>, name: Seq<char>) -> Option<TagRow>
    decreases tags.len(),
{
    if tags.len() == 0 {
        None
    } else if tags[0].name@ == name {
        Some(tags[0])
    } else {
        tag_by_name(tags.drop_first(), name)
    }
}

/// The first saved filter with the given id.
pub open spec fn filter_by_id(filters: Seq<FilterRow>, id: Seq<char>) -> Option<FilterRow>
    decreases filters.len(),
{
    if filters.len() == 0 {
        None
    } else if filters[0].id@ == id {
        Some(filters[0])
    } else {
        filter_by_id(filters.drop_first(), id)
    }
}

/// Keys and unique values are unique, and every activity association names
/// an existing activity.
pub open spec fn store_wf(s: StoreView) -> bool {
    &&& forall|i: int, j: int|
        0 <= i < j < s.media.len() ==> (#[trigger] s.media[i]).id@ != (#[trigger] s.media[j]).id@
    &&& tags_unique(s.tags)
    &&& forall|i: int, j: int|
        0 <= i < j < s.activities.len() ==> (#[trigger] s.activities[i]).id@
            != (#[trigger] s.activities[j]).id@
    &&& filter_ids_unique(s.filters)
    &&& forall|i: int|
        0 <= i < s.activity_tags.len() ==> has_activity(
            s.activities,
            (#[trigger] s.activity_tags[i]).owner_id@,
        )
}

/// Resolving one tag reference, with `fresh` as the id for a row that has to
/// be created: a given id is taken as it is; otherwise the row of that name is
/// inserted unless one exists (or the fresh id is taken, when the insert is
/// ignored), and then the row of that name is looked up. `None` is a failed
/// lookup.
pub open spec fn resolve_step(tags: Seq<TagRow>, t: Tag, fresh: String) -> (Seq<TagRow>, Option<String>) {
    match t.id {
        Some(id) => (tags, Some(id)),
        None => match tag_by_name(tags, t.name@) {
            Some(row) => (tags, Some(row.id)),
            None => if tag_by_id(tags, fresh@) is Some {
                (tags, None)
            } else {
                (tags.push(TagRow { id: fresh, name: t.name }), Some(fresh))
            },
        },
    }
}

pub proof fn lemma_tag_by_id_found(tags: Seq<TagRow>, id: Seq<char>)
    ensures
        tag_by_id(tags, id) matches Some(r) ==> r.id@ == id && tags.contains(r),
        tag_by_id(tags, id) is None <==> forall|i: int| 0 <= i < tags.len() ==> (#[trigger] tags[i]).id@ != id,
    decreases tags.len(),
{
    if tags.len() > 0 {
        lemma_tag_by_id_found(tags.drop_first(), id);
        if tags[0].id@ != id {
            assert forall|i: int| 0 < i < tags.len() implies #[trigger] tags[i] == tags.drop_first()[i - 1] by {}
            if let Some(r) = tag_by_id(tags, id) {
                let k = choose|k: int| 0 <= k < tags.drop_first().len() && tags.drop_first()[k] == r;
                assert(tags[k + 1] == r);
            }
        }
    }
}

pub proof fn lemma_tag_by_name_found(tags: Seq<TagRow>, name: Seq<char>)
    ensures
        tag_by_name(tags, name) matches Some(r) ==> r.name@ == name && tags.contains(r),
        tag_by_name(tags, name) is None <==> forall|i: int| 0 <= i < tags.len() ==> (#[trigger] tags[i]).name@ != name,
    decreases tags.len(),
{
    if tags.len() > 0 {
        lemma_tag_by_name_found(tags.drop_first(), name);
        if tags[0].name@ != name {
            assert forall|i: int| 0 < i < tags.len() implies #[trigger] tags[i] == tags.drop_first()[i - 1] by {}
            if let Some(r) = tag_by_name(tags, name) {
                let k = choose|k: int| 0 <= k < tags.drop_first().len() && tags.drop_first()[k] == r;
                assert(tags[k + 1] == r);
            }
        }
    }
}

/// Looks a tag row up by id.
fn find_tag_by_id(tags: &Vec<TagRow>, id: &String) -> (r: Option<usize>)
    ensures
        match r {
            Some(i) => i < tags@.len() && tag_by_id(tags@, id@) == Some(tags@[i as int]),
            None => tag_by_id(tags@, id@) is None,
        },
{
    let mut i: usize = 0;
    assert(tags@.skip(0) =~= tags@);
    while i < tags.len()
        invariant
            i <= tags@.len(),
            tag_by_id(tags@, id@) == tag_by_id(tags@.skip(i as int), id@),
        decreases tags@.len() - i,
    {
        if tags[i].id == *id {
            return Some(i);
        }
        assert(tags@.skip(i as int).drop_first() =~= tags@.skip(i + 1));
        i += 1;
    }
    None
}

/// Looks a tag row up by name.
fn find_tag_by_name(tags: &Vec<TagRow>, name: &String) -> (r: Option<usize>)
    ensures
        match r {
            Some(i) => i < tags@.len() && tag_by_name(tags@, name@) == Some(tags@[i as int]),
            None => tag_by_name(tags@, name@) is None,
        },
{
    let mut i: usize = 0;
    assert(tags@.skip(0) =~= tags@);
    while i < tags.len()
        invariant
            i <= tags@.len(),
            tag_by_name(tags@, name@) == tag_by_name(tags@.skip(i as int), name@),
        decreases tags@.len() - i,
    {
        if tags[i].name == *name {
            return Some(i);
        }
        assert(tags@.skip(i as int).drop_first() =~= tags@.skip(i + 1));
        i += 1;
    }
    None
}

/// Saved filter ids are unique.
pub open spec fn filter_ids_unique(filters: Seq<FilterRow>) -> bool {
    forall|i: int, j: int| 0 <= i < j < filters.len() ==> (#[trigger] filters[i]).id@ != (#[trigger] filters[j]).id@
}

/// Tag ids and tag names are unique.
pub open spec fn tags_unique(tags: Seq<TagRow>) -> bool {
    &&& forall|i: int, j: int| 0 <= i < j < tags.len() ==> (#[trigger] tags[i]).id@ != (#[trigger] tags[j]).id@
    &&& forall|i: int, j: int| 0 <= i < j < tags.len() ==> (#[trigger] tags[i]).name@ != (#[trigger] tags[j]).name@
}

proof fn lemma_wf_new_tags(s: StoreView, tags: Seq<TagRow>)
    requires
        store_wf(s),
        tags_unique(tags),
    ensures
        store_wf(with_tags(s, tags)),
{
}

/// What `resolve_step` leaves keeps tag ids and names unique, and a
/// resolved name has a row.
pub proof fn lemma_resolve_step(tags: Seq<TagRow>, t: Tag, fresh: String)
    requires
        tags_unique(tags),
    ensures
        tags_unique(resolve_step(tags, t, fresh).0),
        tags.len() <= resolve_step(tags, t, fresh).0.len(),
        forall|i: int| 0 <= i < tags.len() ==> #[trigger] resolve_step(tags, t, fresh).0[i] == tags[i],
        t.id is None ==> (resolve_step(tags, t, fresh).1 matches Some(id) ==> tag_by_name(
            resolve_step(tags, t, fresh).0,
            t.name@,
        ) matches Some(row) && row.id == id),
{
    lemma_tag_by_id_found(tags, fresh@);
    lemma_tag_by_name_found(tags, t.name@);
    let t1 = resolve_step(tags, t, fresh).0;
    if t.id is None && tag_by_name(tags, t.name@) is None && tag_by_id(tags, fresh@) is None {
        assert(t1 == tags.push(TagRow { id: fresh, name: t.name }));
        assert(forall|i: int| 0 <= i < tags.len() ==> #[trigger] t1[i] == tags[i]);
        assert(t1[tags.len() as int].name@ == t.name@);
        assert(tags_unique(t1));
        lemma_tag_by_name_found(t1, t.name@);
        let row = tag_by_name(t1, t.name@)->Some_0;
        assert(t1.contains(row));
        let k = choose|k: int| 0 <= k < t1.len() && t1[k] == row;
        assert(t1[k].name@ == t1[tags.len() as int].name@);
        assert(k == tags.len());
    }
}

/// The view with the tag relation replaced.
pub open spec fn with_tags(s: StoreView, tags: Seq<TagRow>) -> StoreView {
    StoreView { tags, ..s }
}

/// The tags an activity is created with.
pub open spec fn tags_of(a: Activity) -> Seq<Tag> {
    match a.tags {
        Some(v) => v@,
        None => Seq::empty(),
    }
}

/// The row that stores `a` under `id`.
pub open spec fn row_of(a: Activity, id: String) -> ActivityRow {
    ActivityRow {
        id,
        value: a.value,
        medium_id: a.medium.id,
        operation: a.operation,
        description: a.description,
        date: a.date,
        parent_id: a.parent_id,
    }
}

/// Resolving the references `wanted` in order, `fresh[k]` serving the `k`-th;
/// the first failed lookup stops the run with `None`, keeping what the earlier
/// steps inserted.
pub open spec fn resolve_all(tags: Seq<TagRow>, wanted: Seq<Tag>, fresh: Seq<String>) -> (Seq<TagRow>, Option<Seq<String>>)
    decreases wanted.len(),
{
    if wanted.len() == 0 {
        (tags, Some(Seq::empty()))
    } else {
        let (t1, ids) = resolve_all(tags, wanted.drop_last(), fresh);
        match ids {
            None => (t1, None),
            Some(ids) => {
                let (t2, r) = resolve_step(t1, wanted.last(), fresh[wanted.len() - 1]);
                match r {
                    None => (t2, None),
                    Some(id) => (t2, Some(ids.push(id))),
                }
            },
        }
    }
}

/// Associating each of `ids` with `owner`; a pair that is already there is
/// kept as it is.
pub open spec fn link_all(links: Seq<Link>, owner: String, ids: Seq<String>) -> Seq<Link>
    decreases ids.len(),
{
    if ids.len() == 0 {
        links
    } else {
        let l = link_all(links, owner, ids.drop_last());
        if has_link(l, owner@, ids.last()@) {
            l
        } else {
            l.push(Link { owner_id: owner, tag_id: ids.last() })
        }
    }
}

/// The parent that `a` names is neither an existing activity nor `a` itself.
pub open spec fn parent_missing(s: StoreView, a: Activity, id: String) -> bool {
    match a.parent_id {
        Some(p) => p@ != id@ && !has_activity(s.activities, p@),
        None => false,
    }
}

/// Every id of `ids` names a tag row.
pub open spec fn all_tags_exist(tags: Seq<TagRow>, ids: Seq<String>) -> bool {
    forall|k: int| 0 <= k < ids.len() ==> tag_by_id(tags, (#[trigger] ids[k])@) is Some
}

/// Creating activity `a` under `id`, with `fresh` as the ids of tags that
/// have to be created. The key, the medium and the parent are checked before
/// anything is written; then the row is inserted, the tags resolved, and the
/// associations written together, all or none. A failure after the insert
/// keeps what was written before it.
pub open spec fn created(s: StoreView, a: Activity, id: String, fresh: Seq<String>) -> (StoreView, Result<String, StoreError>) {
    if has_activity(s.activities, id@) {
        (s, Err(StoreError::Duplicate))
    } else if !has_medium(s.media, a.medium.id@) || parent_missing(s, a, id) {
        (s, Err(StoreError::ForeignKeyViolation))
    } else {
        let (t2, ids) = resolve_all(s.tags, tags_of(a), fresh);
        let s2 = StoreView { activities: s.activities.push(row_of(a, id)), tags: t2, ..s };
        match ids {
            None => (s2, Err(StoreError::NotFound)),
            Some(ids) => if all_tags_exist(t2, ids) {
                (StoreView { activity_tags: link_all(s.activity_tags, id, ids), ..s2 }, Ok(id))
            } else {
                (s2, Err(StoreError::ForeignKeyViolation))
            },
        }
    }
}

proof fn lemma_wf_frame(s: StoreView, t: StoreView)
    requires
        store_wf(s),
        t.media == s.media,
        t.filters == s.filters || filter_ids_unique(t.filters),
        tags_unique(t.tags),
        forall|i: int, j: int|
            0 <= i < j < t.activities.len() ==> (#[trigger] t.activities[i]).id@
                != (#[trigger] t.activities[j]).id@,
        forall|i: int|
            0 <= i < t.activity_tags.len() ==> has_activity(
                t.activities,
                (#[trigger] t.activity_tags[i]).owner_id@,
            ),
    ensures
        store_wf(t),
{
}

proof fn lemma_resolve_all_stops(tags: Seq<TagRow>, wanted: Seq<Tag>, fresh: Seq<String>, n: int)
    requires
        0 <= n <= wanted.len(),
        resolve_all(tags, wanted.take(n), fresh).1 is None,
    ensures
        resolve_all(tags, wanted, fresh) == resolve_all(tags, wanted.take(n), fresh),
    decreases wanted.len(),
{
    if n < wanted.len() {
        assert(wanted.drop_last().take(n) =~= wanted.take(n));
        lemma_resolve_all_stops(tags, wanted.drop_last(), fresh, n);
    } else {
        assert(wanted.take(n) =~= wanted);
    }
}

proof fn lemma_link_all(links: Seq<Link>, owner: String, ids: Seq<String>)
    ensures
        forall|i: int| 0 <= i < links.len() ==> #[trigger] link_all(links, owner, ids)[i] == links[i],
        links.len() <= link_all(links, owner, ids).len(),
        forall|i: int|
            links.len() <= i < link_all(links, owner, ids).len() ==> (#[trigger] link_all(links, owner, ids)[i]).owner_id == owner,
    decreases ids.len(),
{
    if ids.len() > 0 {
        lemma_link_all(links, owner, ids.drop_last());
    }
}

/// Whether some activity row has the given id.
fn activity_exists(acts: &Vec<ActivityRow>, id: &String) -> (r: bool)
    ensures
        r == has_activity(acts@, id@),
{
    let mut i: usize = 0;
    while i < acts.len()
        invariant
            i <= acts@.len(),
            forall|k: int| 0 <= k < i ==> (#[trigger] acts@[k]).id@ != id@,
        decreases acts@.len() - i,
    {
        if acts[i].id == *id {
            return true;
        }
        i += 1;
    }
    false
}

/// Looks a medium up by id.
fn find_medium(media: &Vec<MonetaryMedium>, id: &String) -> (r: Option<usize>)
    ensures
        match r {
            Some(i) => i < media@.len() && media@[i as int].id@ == id@,
            None => !has_medium(media@, id@),
        },
{
    let mut i: usize = 0;
    while i < media.len()
        invariant
            i <= media@.len(),
            forall|k: int| 0 <= k < i ==> (#[trigger] media@[k]).id@ != id@,
        decreases media@.len() - i,
    {
        if media[i].id == *id {
            return Some(i);
        }
        i += 1;
    }
    None
}

/// Whether the pair (`owner`, `tag`) is among `links`.
fn link_exists(links: &Vec<Link>, owner: &String, tag: &String) -> (r: bool)
    ensures
        r == has_link(links@, owner@, tag@),
{
    let mut i: usize = 0;
    while i < links.len()
        invariant
            i <= links@.len(),
            forall|k: int| 0 <= k < i ==> !((#[trigger] links@[k]).owner_id@ == owner@ && links@[k].tag_id@ == tag@),
        decreases links@.len() - i,
    {
        if links[i].owner_id == *owner && links[i].tag_id == *tag {
            return true;
        }
        i += 1;
    }
    false
}

/// The tag rows associated with `owner` through `links`, in association
/// order; an association whose tag row is gone is skipped, as a join would.
pub open spec fn linked_tags(links: Seq<Link>, tags: Seq<TagRow>, owner: Seq<char>) -> Seq<TagRow>
    decreases links.len(),
{
    if links.len() == 0 {
        Seq::empty()
    } else {
        let prev = linked_tags(links.drop_last(), tags, owner);
        if links.last().owner_id@ == owner {
            match tag_by_id(tags, links.last().tag_id@) {
                Some(t) => prev.push(t),
                None => prev,
            }
        } else {
            prev
        }
    }
}

/// A tag row as handed to callers.
pub open spec fn as_tag(r: TagRow) -> Tag {
    Tag { id: Some(r.id), name: r.name }
}

pub open spec fn as_tags(rows: Seq<TagRow>) -> Seq<Tag> {
    rows.map_values(|r: TagRow| as_tag(r))
}

/// The tags, as handed to callers, of activity `id`.
pub open spec fn activity_tags_of(s: StoreView, id: Seq<char>) -> Seq<Tag> {
    as_tags(linked_tags(s.activity_tags, s.tags, id))
}

/// The tags, as handed to callers, of saved filter `id`.
pub open spec fn filter_tags_of(s: StoreView, id: Seq<char>) -> Seq<Tag> {
    as_tags(linked_tags(s.filter_tags, s.tags, id))
}

/// Whether a listing under `f` includes activity `row`: its medium exists, its
/// date lies strictly inside the bounds, and its tags pass the tag part.
pub open spec fn activity_shown(s: StoreView, f: Option<ActivityFilter>, row: ActivityRow) -> bool {
    &&& has_medium(s.media, row.medium_id@)
    &&& date_in_range(f, row.date@)
    &&& tags_admitted(f, activity_tags_of(s, row.id@))
}

/// The rows of `rows` that a listing under `f` includes, in order.
pub open spec fn listed_rows(s: StoreView, f: Option<ActivityFilter>, rows: Seq<ActivityRow>) -> Seq<ActivityRow>
    decreases rows.len(),
{
    if rows.len() == 0 {
        Seq::empty()
    } else {
        let prev = listed_rows(s, f, rows.drop_last());
        if activity_shown(s, f, rows.last()) {
            prev.push(rows.last())
        } else {
            prev
        }
    }
}

/// An optional tag list that is absent exactly when `tags` is empty.
pub open spec fn tags_shown_as(v: Option<Vec<Tag>>, tags: Seq<Tag>) -> bool {
    if tags.len() == 0 {
        v is None
    } else {
        v matches Some(w) && w@ == tags
    }
}

/// `a` is activity `row` as handed to callers: its fields, its medium's
/// row, and its tags.
pub open spec fn presents(a: Activity, row: ActivityRow, s: StoreView) -> bool {
    &&& a.id == Some(row.id)
    &&& a.value == row.value
    &&& a.operation == row.operation
    &&& a.description == row.description
    &&& a.date == row.date
    &&& a.parent_id == row.parent_id
    &&& a.medium.id@ == row.medium_id@
    &&& s.media.contains(a.medium)
    &&& tags_shown_as(a.tags, activity_tags_of(s, row.id@))
}

/// The tags associated with `owner`, as handed to callers.
fn hydrate_tags(links: &Vec<Link>, tags: &Vec<TagRow>, owner: &String) -> (r: Vec<Tag>)
    ensures
        r@ == as_tags(linked_tags(links@, tags@, owner@)),
{
    let mut r: Vec<Tag> = Vec::new();
    let mut i: usize = 0;
    assert(links@.take(0) =~= Seq::<Link>::empty());
    assert(as_tags(Seq::<TagRow>::empty()) =~= Seq::<Tag>::empty());
    while i < links.len()
        invariant
            i <= links@.len(),
            r@ == as_tags(linked_tags(links@.take(i as int), tags@, owner@)),
        decreases links@.len() - i,
    {
        assert(links@.take(i + 1).drop_last() =~= links@.take(i as int));
        let ghost prev = linked_tags(links@.take(i as int), tags@, owner@);
        if links[i].owner_id == *owner {
            match find_tag_by_id(tags, &links[i].tag_id) {
                Some(j) => {
                    let t = Tag { id: Some(tags[j].id.clone()), name: tags[j].name.clone() };
                    r.push(t);
                    assert(as_tags(prev.push(tags@[j as int])) =~= as_tags(prev).push(t));
                },
                None => {},
            }
        }
        i += 1;
    }
    assert(links@.take(links@.len() as int) =~= links@);
    r
}

/// The activity rows whose id is not `id`, in order.
pub open spec fn rows_without(acts: Seq<ActivityRow>, id: Seq<char>) -> Seq<ActivityRow>
    decreases acts.len(),
{
    if acts.len() == 0 {
        Seq::empty()
    } else {
        let prev = rows_without(acts.drop_last(), id);
        if acts.last().id@ == id {
            prev
        } else {
            prev.push(acts.last())
        }
    }
}

/// The associations that do not pair `owner` with `tag` (with any tag, when
/// `tag` is `None`), in order.
pub open spec fn links_without(links: Seq<Link>, owner: Seq<char>, tag: Option<Seq<char>>) -> Seq<Link>
    decreases links.len(),
{
    if links.len() == 0 {
        Seq::empty()
    } else {
        let prev = links_without(links.drop_last(), owner, tag);
        let l = links.last();
        if l.owner_id@ == owner && (tag matches Some(t) ==> l.tag_id@ == t) {
            prev
        } else {
            prev.push(l)
        }
    }
}

/// Activity `row` names `id` as its parent and is not itself `id`.
pub open spec fn names_parent(row: ActivityRow, id: Seq<char>) -> bool {
    match row.parent_id {
        Some(p) => p@ == id && row.id@ != id,
        None => false,
    }
}

/// Some other activity names `id` as its parent.
pub open spec fn is_parent(acts: Seq<ActivityRow>, id: Seq<char>) -> bool {
    exists|i: int| 0 <= i < acts.len() && names_parent(#[trigger] acts[i], id)
}

/// Deleting activity `id`: its associations first, then its row.
pub open spec fn deleted(s: StoreView, id: Seq<char>) -> StoreView {
    StoreView {
        activities: rows_without(s.activities, id),
        activity_tags: links_without(s.activity_tags, id, None),
        ..s
    }
}

pub proof fn lemma_rows_without(acts: Seq<ActivityRow>, id: Seq<char>)
    ensures
        rows_without(acts, id).len() <= acts.len(),
        forall|i: int|
            0 <= i < rows_without(acts, id).len() ==> #[trigger] acts.contains(rows_without(acts, id)[i])
                && rows_without(acts, id)[i].id@ != id,
        forall|i: int| 0 <= i < acts.len() && (#[trigger] acts[i]).id@ != id ==> rows_without(acts, id).contains(acts[i]),
        (forall|i: int, j: int| 0 <= i < j < acts.len() ==> (#[trigger] acts[i]).id@ != (#[trigger] acts[j]).id@)
            ==> (forall|i: int, j: int|
            0 <= i < j < rows_without(acts, id).len() ==> (#[trigger] rows_without(acts, id)[i]).id@
                != (#[trigger] rows_without(acts, id)[j]).id@),
    decreases acts.len(),
{
    if acts.len() > 0 {
        let d = acts.drop_last();
        lemma_rows_without(d, id);
        let prev = rows_without(d, id);
        let r = rows_without(acts, id);
        assert forall|i: int| 0 <= i < r.len() implies #[trigger] acts.contains(r[i]) && r[i].id@ != id by {
            if i < prev.len() {
                assert(r[i] == prev[i]);
                assert(d.contains(prev[i]));
                let k = choose|k: int| 0 <= k < d.len() && d[k] == prev[i];
                assert(acts[k] == d[k]);
            } else {
                assert(acts[acts.len() - 1] == r[i]);
            }
        }
        assert forall|i: int| 0 <= i < acts.len() && (#[trigger] acts[i]).id@ != id implies r.contains(acts[i]) by {
            if i < d.len() {
                assert(d[i] == acts[i]);
                assert(prev.contains(d[i]));
                let k = choose|k: int| 0 <= k < prev.len() && prev[k] == d[i];
                assert(r[k] == prev[k]);
            } else {
                assert(r[r.len() - 1] == acts[i]);
            }
        }
        if forall|i: int, j: int| 0 <= i < j < acts.len() ==> (#[trigger] acts[i]).id@ != (#[trigger] acts[j]).id@ {
            assert forall|i: int, j: int| 0 <= i < j < d.len() implies (#[trigger] d[i]).id@ != (#[trigger] d[j]).id@ by {
                assert(d[i] == acts[i] && d[j] == acts[j]);
            }
            assert forall|i: int, j: int| 0 <= i < j < r.len() implies (#[trigger] r[i]).id@ != (#[trigger] r[j]).id@ by {
                if j < prev.len() {
                    assert(r[i] == prev[i] && r[j] == prev[j]);
                } else {
                    assert(r[i] == prev[i]);
                    assert(d.contains(prev[i]));
                    let k = choose|k: int| 0 <= k < d.len() && d[k] == prev[i];
                    assert(acts[k] == d[k]);
                    assert(r[j] == acts[acts.len() - 1]);
                }
            }
        }
    }
}

pub proof fn lemma_links_without(links: Seq<Link>, owner: Seq<char>, tag: Option<Seq<char>>)
    ensures
        forall|i: int|
            0 <= i < links_without(links, owner, tag).len() ==> #[trigger] links.contains(links_without(links, owner, tag)[i])
                && !(links_without(links, owner, tag)[i].owner_id@ == owner
                && (tag matches Some(t) ==> links_without(links, owner, tag)[i].tag_id@ == t)),
    decreases links.len(),
{
    if links.len() > 0 {
        let d = links.drop_last();
        lemma_links_without(d, owner, tag);
        let prev = links_without(d, owner, tag);
        let r = links_without(links, owner, tag);
        assert forall|i: int| 0 <= i < r.len() implies #[trigger] links.contains(r[i]) && !(r[i].owner_id@ == owner
            && (tag matches Some(t) ==> r[i].tag_id@ == t)) by {
            if i < prev.len() {
                assert(r[i] == prev[i]);
                assert(d.contains(prev[i]));
                let k = choose|k: int| 0 <= k < d.len() && d[k] == prev[i];
                assert(links[k] == d[k]);
            } else {
                assert(links[links.len() - 1] == r[i]);
            }
        }
    }
}

/// Keeps the associations that `links_without` keeps.
fn retain_links(links: &Vec<Link>, owner: &String, tag: Option<&String>) -> (r: Vec<Link>)
    ensures
        r@ == links_without(links@, owner@, match tag { Some(t) => Some(t@), None => None }),
{
    let ghost tv = match tag { Some(t) => Some(t@), None => None::<Seq<char>> };
    let mut r: Vec<Link> = Vec::new();
    let mut i: usize = 0;
    assert(links@.take(0) =~= Seq::<Link>::empty());
    while i < links.len()
        invariant
            i <= links@.len(),
            tv == match tag { Some(t) => Some(t@), None => None::<Seq<char>> },
            r@ == links_without(links@.take(i as int), owner@, tv),
        decreases links@.len() - i,
    {
        assert(links@.take(i + 1).drop_last() =~= links@.take(i as int));
        let matches_tag = match tag {
            Some(t) => links[i].tag_id == *t,
            None => true,
        };
        if !(links[i].owner_id == *owner && matches_tag) {
            r.push(links[i].clone_link());
        }
        i += 1;
    }
    assert(links@.take(links@.len() as int) =~= links@);
    r
}

/// A saved filter row with its dates replaced where its id is `f`'s.
pub open spec fn ranged(row: FilterRow, f: StaticFilter) -> FilterRow {
    if row.id@ == f.id@ {
        FilterRow { id: row.id, initial_date: f.initial_date, final_date: f.final_date }
    } else {
        row
    }
}

/// Replacing the date range of the saved filter with `f`'s id.
pub open spec fn range_updated(s: StoreView, f: StaticFilter) -> StoreView {
    StoreView { filters: s.filters.map_values(|row: FilterRow| ranged(row, f)), ..s }
}

/// `f` is saved filter `row` as handed to callers, with its tags.
pub open spec fn presents_filter(f: StaticFilter, row: FilterRow, s: StoreView) -> bool {
    &&& f.id == row.id
    &&& f.initial_date == row.initial_date
    &&& f.final_date == row.final_date
    &&& tags_shown_as(f.tags, filter_tags_of(s, row.id@))
}

/// `r` is what reading saved filter `id` back from `s` gives.
pub open spec fn fetched(s: StoreView, id: Seq<char>, r: Result<StaticFilter, StoreError>) -> bool {
    match filter_by_id(s.filters, id) {
        None => r == Err::<StaticFilter, StoreError>(StoreError::NotFound),
        Some(row) => r matches Ok(f) && presents_filter(f, row, s),
    }
}

/// Associating tag `tag` with saved filter `filter`: a plain insert, so an
/// existing pair is refused, as is a missing filter or tag.
pub open spec fn filter_tag_added(s: StoreView, filter: String, tag: String) -> (StoreView, Option<StoreError>) {
    if has_link(s.filter_tags, filter@, tag@) {
        (s, Some(StoreError::Duplicate))
    } else if !has_filter(s.filters, filter@) || tag_by_id(s.tags, tag@) is None {
        (s, Some(StoreError::ForeignKeyViolation))
    } else {
        (StoreView { filter_tags: s.filter_tags.push(Link { owner_id: filter, tag_id: tag }), ..s }, None)
    }
}

/// Looks a saved filter up by id.
fn find_filter(filters: &Vec<FilterRow>, id: &String) -> (r: Option<usize>)
    ensures
        match r {
            Some(i) => i < filters@.len() && filter_by_id(filters@, id@) == Some(filters@[i as int]),
            None => filter_by_id(filters@, id@) is None,
        },
{
    let mut i: usize = 0;
    assert(filters@.skip(0) =~= filters@);
    while i < filters.len()
        invariant
            i <= filters@.len(),
            filter_by_id(filters@, id@) == filter_by_id(filters@.skip(i as int), id@),
        decreases filters@.len() - i,
    {
        if filters[i].id == *id {
            return Some(i);
        }
        assert(filters@.skip(i as int).drop_first() =~= filters@.skip(i + 1));
        i += 1;
    }
    None
}

pub proof fn lemma_filter_by_id_found(filters: Seq<FilterRow>, id: Seq<char>)
    ensures
        filter_by_id(filters, id) is None <==> !has_filter(filters, id),
        filter_by_id(filters, id) matches Some(r) ==> r.id@ == id,
    decreases filters.len(),
{
    if filters.len() > 0 {
        lemma_filter_by_id_found(filters.drop_first(), id);
        if filters[0].id@ != id {
            if has_filter(filters, id) {
                let k = choose|k: int| 0 <= k < filters.len() && (#[trigger] filters[k]).id@ == id;
                assert(filters.drop_first()[k - 1] == filters[k]);
            }
            if has_filter(filters.drop_first(), id) {
                let k = choose|k: int| 0 <= k < filters.drop_first().len() && (#[trigger] filters.drop_first()[k]).id@ == id;
                assert(filters.drop_first()[k] == filters[k + 1]);
            }
        } else {
            assert(filters[0].id@ == id);
        }
    }
}

impl Link {
    /// A copy equal to `self`.
    pub fn clone_link(&self) -> (r: Link)
        ensures
            r == *self,
    {
        Link { owner_id: self.owner_id.clone(), tag_id: self.tag_id.clone() }
    }
}

/// No two strings of `keys` read the same.
pub open spec fn distinct(keys: Seq<String>) -> bool {
    forall|i: int, j: int| 0 <= i < j < keys.len() ==> (#[trigger] keys[i])@ != (#[trigger] keys[j])@
}

/// Decides `distinct`.
fn all_distinct(keys: &Vec<String>) -> (r: bool)
    ensures
        r == distinct(keys@),
{
    let mut j: usize = 0;
    while j < keys.len()
        invariant
            j <= keys@.len(),
            forall|a: int, b: int| 0 <= a < b < j ==> (#[trigger] keys@[a])@ != (#[trigger] keys@[b])@,
        decreases keys@.len() - j,
    {
        let mut i: usize = 0;
        while i < j
            invariant
                j < keys@.len(),
                i <= j,
                forall|a: int, b: int| 0 <= a < b < j ==> (#[trigger] keys@[a])@ != (#[trigger] keys@[b])@,
                forall|a: int| 0 <= a < i ==> (#[trigger] keys@[a])@ != keys@[j as int]@,
            decreases j - i,
        {
            if keys[i] == keys[j] {
                assert(keys@[i as int]@ == keys@[j as int]@);
                return false;
            }
            i += 1;
        }
        j += 1;
    }
    true
}

/// How many tags a suggestion list holds at most.
pub const SUGGESTION_LIMIT: usize = 100;

impl Store {
    /// An empty store.
    pub fn new() -> (r: Store)
        ensures
            r@.media.len() == 0,
            r@.tags.len() == 0,
            r@.activities.len() == 0,
            r@.activity_tags.len() == 0,
            r@.filters.len() == 0,
            r@.filter_tags.len() == 0,
            store_wf(r@),
    {
        Store {
            media: Vec::new(),
            tags: Vec::new(),
            activities: Vec::new(),
            activity_tags: Vec::new(),
            filters: Vec::new(),
            filter_tags: Vec::new(),
        }
    }

    /// Resolves a tag reference as `resolve_step` says, with `fresh` as the
    /// id of a row that has to be created. A failed lookup is `NotFound`.
    pub fn resolve_tag_with(&mut self, tag: &Tag, fresh: String) -> (r: Result<String, StoreError>)
        requires
            store_wf(old(self)@),
        ensures
            store_wf(final(self)@),
            final(self)@ == with_tags(old(self)@, resolve_step(old(self)@.tags, *tag, fresh).0),
            match resolve_step(old(self)@.tags, *tag, fresh).1 {
                Some(id) => r == Ok::<String, StoreError>(id),
                None => r == Err::<String, StoreError>(StoreError::NotFound),
            },
    {
        match &tag.id {
            Some(id) => Ok(id.clone()),
            None => {
                match find_tag_by_name(&self.tags, &tag.name) {
                    Some(i) => Ok(self.tags[i].id.clone()),
                    None => {
                        if find_tag_by_id(&self.tags, &fresh).is_some() {
                            Err(StoreError::NotFound)
                        } else {
                            proof {
                                lemma_tag_by_id_found(self.tags@, fresh@);
                                lemma_tag_by_name_found(self.tags@, tag.name@);
                            }
                            let ghost before = self.tags@;
                            let row = TagRow { id: fresh.clone(), name: tag.name.clone() };
                            self.tags.push(row);
                            assert forall|i: int| 0 <= i < before.len() implies #[trigger] self.tags@[i] == before[i] by {}
                            assert(self.tags@[before.len() as int] == row);
                            proof {
                                lemma_wf_new_tags(old(self)@, self.tags@);
                            }
                            Ok(fresh)
                        }
                    },
                }
            },
        }
    }

    /// Resolves a tag reference to the id of its row: a given id as it is,
    /// otherwise the row of that name, created under a fresh random id when
    /// there is none. Never creates a second row of one name.
    pub fn resolve_tag(&mut self, tag: &Tag) -> (r: Result<String, StoreError>)
        requires
            store_wf(old(self)@),
        ensures
            store_wf(final(self)@),
            exists|fresh: String|
                {
                    &&& final(self)@ == with_tags(old(self)@, #[trigger] resolve_step(old(self)@.tags, *tag, fresh).0)
                    &&& match resolve_step(old(self)@.tags, *tag, fresh).1 {
                        Some(id) => r == Ok::<String, StoreError>(id),
                        None => r == Err::<String, StoreError>(StoreError::NotFound),
                    }
                },
    {
        let fresh = if tag.id.is_none() { new_id() } else { String::new() };
        self.resolve_tag_with(tag, fresh)
    }

    /// Creates an activity as `created` says, under `id`, with `fresh[k]` as
    /// the id of the `k`-th tag if that tag has to be created.
    pub fn create_activity_with(&mut self, activity: &Activity, id: String, fresh: &Vec<String>) -> (r: Result<String, StoreError>)
        requires
            store_wf(old(self)@),
            fresh@.len() == tags_of(*activity).len(),
        ensures
            store_wf(final(self)@),
            (final(self)@, r) == created(old(self)@, *activity, id, fresh@),
    {
        let ghost s0 = self@;
        if activity_exists(&self.activities, &id) {
            return Err(StoreError::Duplicate);
        }
        if find_medium(&self.media, &activity.medium.id).is_none() {
            return Err(StoreError::ForeignKeyViolation);
        }
        if let Some(p) = &activity.parent_id {
            if *p != id && !activity_exists(&self.activities, p) {
                return Err(StoreError::ForeignKeyViolation);
            }
        }
        let row = ActivityRow {
            id: id.clone(),
            value: activity.value,
            medium_id: activity.medium.id.clone(),
            operation: activity.operation,
            description: activity.description.clone(),
            date: activity.date.clone(),
            parent_id: crate::models::copy_opt_string(&activity.parent_id),
        };
        assert(row == row_of(*activity, id));
        self.activities.push(row);
        proof {
            assert forall|i: int| 0 <= i < s0.activities.len() implies #[trigger] self.activities@[i] == s0.activities[i] by {}
            assert forall|i: int| 0 <= i < self.activity_tags@.len() implies has_activity(
                self.activities@,
                (#[trigger] self.activity_tags@[i]).owner_id@,
            ) by {
                assert(self.activity_tags@[i] == s0.activity_tags[i]);
                assert(has_activity(s0.activities, s0.activity_tags[i].owner_id@));
                let k = choose|k: int| 0 <= k < s0.activities.len() && (#[trigger] s0.activities[k]).id@ == s0.activity_tags[i].owner_id@;
                assert(self.activities@[k] == s0.activities[k]);
            }
            lemma_wf_frame(s0, self@);
        }
        let ghost s1 = self@;
        let mut ids: Vec<String> = Vec::new();
        if let Some(wanted) = &activity.tags {
            let mut i: usize = 0;
            assert(wanted@.take(0) =~= Seq::<Tag>::empty());
            while i < wanted.len()
                invariant
                    s0 == old(self)@,
                    !has_activity(s0.activities, id@),
                    has_medium(s0.media, activity.medium.id@),
                    !parent_missing(s0, *activity, id),
                    s1 == (StoreView { activities: s0.activities.push(row_of(*activity, id)), ..s0 }),
                    wanted@ == tags_of(*activity),
                    fresh@.len() == wanted@.len(),
                    i <= wanted@.len(),
                    store_wf(self@),
                    self@ == with_tags(s1, resolve_all(s0.tags, wanted@.take(i as int), fresh@).0),
                    resolve_all(s0.tags, wanted@.take(i as int), fresh@).1 == Some(ids@),
                decreases wanted@.len() - i,
            {
                assert(wanted@.take(i + 1).drop_last() =~= wanted@.take(i as int));
                match self.resolve_tag_with(&wanted[i], fresh[i].clone()) {
                    Ok(tid) => ids.push(tid),
                    Err(e) => {
                        proof {
                            lemma_resolve_all_stops(s0.tags, wanted@, fresh@, i + 1);
                        }
                        return Err(e);
                    },
                }
                i += 1;
            }
            assert(wanted@.take(wanted@.len() as int) =~= wanted@);
        }
        assert(resolve_all(s0.tags, tags_of(*activity), fresh@).1 == Some(ids@));
        assert(self@ == with_tags(s1, resolve_all(s0.tags, tags_of(*activity), fresh@).0));
        let ghost s2 = self@;
        let mut k: usize = 0;
        while k < ids.len()
            invariant
                s0 == old(self)@,
                !has_activity(s0.activities, id@),
                has_medium(s0.media, activity.medium.id@),
                !parent_missing(s0, *activity, id),
                s2 == with_tags(s1, resolve_all(s0.tags, tags_of(*activity), fresh@).0),
                s1 == (StoreView { activities: s0.activities.push(row_of(*activity, id)), ..s0 }),
                resolve_all(s0.tags, tags_of(*activity), fresh@).1 == Some(ids@),
                self@ == s2,
                store_wf(s2),
                k <= ids@.len(),
                forall|j: int| 0 <= j < k ==> tag_by_id(self.tags@, (#[trigger] ids@[j])@) is Some,
            decreases ids@.len() - k,
        {
            if find_tag_by_id(&self.tags, &ids[k]).is_none() {
                assert(!all_tags_exist(self.tags@, ids@));
                return Err(StoreError::ForeignKeyViolation);
            }
            k += 1;
        }
        assert(all_tags_exist(self.tags@, ids@));
        let mut k: usize = 0;
        assert(ids@.take(0) =~= Seq::<String>::empty());
        while k < ids.len()
            invariant
                k <= ids@.len(),
                self@ == (StoreView { activity_tags: link_all(s0.activity_tags, id, ids@.take(k as int)), ..s2 }),
            decreases ids@.len() - k,
        {
            assert(ids@.take(k + 1).drop_last() =~= ids@.take(k as int));
            if !link_exists(&self.activity_tags, &id, &ids[k]) {
                let l = Link { owner_id: id.clone(), tag_id: ids[k].clone() };
                self.activity_tags.push(l);
            }
            k += 1;
        }
        assert(ids@.take(ids@.len() as int) =~= ids@);
        proof {
            lemma_link_all(s0.activity_tags, id, ids@);
            let n = s0.activities.len() as int;
            assert(self.activities@[n].id == id);
            assert forall|i: int| 0 <= i < self.activity_tags@.len() implies has_activity(
                self.activities@,
                (#[trigger] self.activity_tags@[i]).owner_id@,
            ) by {
                if i < s0.activity_tags.len() {
                    assert(has_activity(s0.activities, s0.activity_tags[i].owner_id@));
                    let k = choose|k: int| 0 <= k < s0.activities.len() && (#[trigger] s0.activities[k]).id@ == s0.activity_tags[i].owner_id@;
                    assert(self.activities@[k] == s0.activities[k]);
                } else {
                    assert(self.activities@[n].id@ == self.activity_tags@[i].owner_id@);
                }
            }
            lemma_wf_frame(s2, self@);
        }
        Ok(id)
    }

    /// Creates an activity: under its own id if it has one, else under a
    /// fresh random one; tags without an id are resolved by name, created
    /// under fresh random ids where missing. Returns the activity's id.
    pub fn create_activity(&mut self, activity: &Activity) -> (r: Result<String, StoreError>)
        requires
            store_wf(old(self)@),
        ensures
            store_wf(final(self)@),
            exists|id: String, fresh: Seq<String>|
                (activity.id matches Some(given) ==> id == given) && (final(self)@, r) == #[trigger] created(
                    old(self)@,
                    *activity,
                    id,
                    fresh,
                ),
    {
        let id = match &activity.id {
            Some(given) => given.clone(),
            None => new_id(),
        };
        let mut fresh: Vec<String> = Vec::new();
        if let Some(wanted) = &activity.tags {
            let mut i: usize = 0;
            while i < wanted.len()
                invariant
                    i <= wanted@.len(),
                    fresh@.len() == i,
                decreases wanted@.len() - i,
            {
                if wanted[i].id.is_none() {
                    fresh.push(new_id());
                } else {
                    fresh.push(String::new());
                }
                i += 1;
            }
        }
        self.create_activity_with(activity, id, &fresh)
    }

    /// All activities that `filter` admits, in storage order, each with its
    /// medium and its tags. Date bounds are strict; a non-empty tag list
    /// admits an activity that shares at least one tag with it.
    pub fn list_activities(&self, filter: &Option<ActivityFilter>) -> (r: Vec<Activity>)
        ensures
            r@.len() == listed_rows(self@, *filter, self@.activities).len(),
            forall|k: int|
                0 <= k < r@.len() ==> presents(
                    #[trigger] r@[k],
                    listed_rows(self@, *filter, self@.activities)[k],
                    self@,
                ),
    {
        let bounds = date_bounds(filter);
        let mut out: Vec<Activity> = Vec::new();
        let mut i: usize = 0;
        assert(self.activities@.take(0) =~= Seq::<ActivityRow>::empty());
        while i < self.activities.len()
            invariant
                i <= self@.activities.len(),
                forall|date: Seq<char>| crate::predicate::all_bounds_hold(bounds@, date) == date_in_range(*filter, date),
                out@.len() == listed_rows(self@, *filter, self@.activities.take(i as int)).len(),
                forall|k: int|
                    0 <= k < out@.len() ==> presents(
                        #[trigger] out@[k],
                        listed_rows(self@, *filter, self@.activities.take(i as int))[k],
                        self@,
                    ),
            decreases self@.activities.len() - i,
        {
            let ghost prefix = self@.activities.take(i as int);
            assert(self@.activities.take(i + 1).drop_last() =~= prefix);
            let row = &self.activities[i];
            match find_medium(&self.media, &row.medium_id) {
                None => {},
                Some(mi) => {
                    if bounds_admit(&bounds, row.date.as_str()) {
                        let tags = hydrate_tags(&self.activity_tags, &self.tags, &row.id);
                        if tags_admit(filter, &tags) {
                            let medium = self.media[mi].copied();
                            assert(self@.media[mi as int] == medium);
                            let shown_tags = if tags.len() == 0 {
                                None
                            } else {
                                Some(tags)
                            };
                            let a = Activity {
                                id: Some(row.id.clone()),
                                value: row.value,
                                medium,
                                operation: row.operation,
                                description: row.description.clone(),
                                date: row.date.clone(),
                                parent_id: crate::models::copy_opt_string(&row.parent_id),
                                tags: shown_tags,
                            };
                            assert(presents(a, self@.activities[i as int], self@));
                            out.push(a);
                        }
                    }
                },
            }
            i += 1;
        }
        assert(self@.activities.take(self@.activities.len() as int) =~= self@.activities);
        out
    }

    /// Deletes activity `id`: its tag associations, then its row. Returns the
    /// number of activity rows removed, 0 when there was none. An activity
    /// that another one names as its parent is not deleted.
    pub fn delete_activity(&mut self, id: &String) -> (r: Result<usize, StoreError>)
        requires
            store_wf(old(self)@),
        ensures
            store_wf(final(self)@),
            is_parent(old(self)@.activities, id@) ==> r == Err::<usize, StoreError>(StoreError::ForeignKeyViolation)
                && final(self)@ == old(self)@,
            !is_parent(old(self)@.activities, id@) ==> final(self)@ == deleted(old(self)@, id@) && r == Ok::<
                usize,
                StoreError,
            >((old(self)@.activities.len() - final(self)@.activities.len()) as usize),
    {
        let mut j: usize = 0;
        while j < self.activities.len()
            invariant
                self@ == old(self)@,
                store_wf(self@),
                j <= self@.activities.len(),
                forall|k: int| 0 <= k < j ==> !names_parent(#[trigger] self@.activities[k], id@),
            decreases self@.activities.len() - j,
        {
            if let Some(p) = &self.activities[j].parent_id {
                if *p == *id && self.activities[j].id != *id {
                    assert(names_parent(self@.activities[j as int], id@));
                    return Err(StoreError::ForeignKeyViolation);
                }
            }
            j += 1;
        }
        let ghost s0 = self@;
        let links = retain_links(&self.activity_tags, id, None);
        let mut kept: Vec<ActivityRow> = Vec::new();
        let mut removed: usize = 0;
        let mut i: usize = 0;
        assert(self.activities@.take(0) =~= Seq::<ActivityRow>::empty());
        while i < self.activities.len()
            invariant
                self@ == s0,
                i <= s0.activities.len(),
                kept@ == rows_without(s0.activities.take(i as int), id@),
                kept@.len() + removed == i,
            decreases s0.activities.len() - i,
        {
            assert(s0.activities.take(i + 1).drop_last() =~= s0.activities.take(i as int));
            if self.activities[i].id == *id {
                removed += 1;
            } else {
                let row = ActivityRow {
                    id: self.activities[i].id.clone(),
                    value: self.activities[i].value,
                    medium_id: self.activities[i].medium_id.clone(),
                    operation: self.activities[i].operation,
                    description: self.activities[i].description.clone(),
                    date: self.activities[i].date.clone(),
                    parent_id: crate::models::copy_opt_string(&self.activities[i].parent_id),
                };
                assert(row == s0.activities[i as int]);
                kept.push(row);
            }
            i += 1;
        }
        assert(s0.activities.take(s0.activities.len() as int) =~= s0.activities);
        self.activity_tags = links;
        self.activities = kept;
        proof {
            lemma_rows_without(s0.activities, id@);
            lemma_links_without(s0.activity_tags, id@, None);
            assert forall|i: int| 0 <= i < self.activity_tags@.len() implies has_activity(
                self.activities@,
                (#[trigger] self.activity_tags@[i]).owner_id@,
            ) by {
                let l = self.activity_tags@[i];
                assert(self.activity_tags@ == links_without(s0.activity_tags, id@, None));
                assert(s0.activity_tags.contains(links_without(s0.activity_tags, id@, None)[i]));
                assert(l.owner_id@ != id@);
                let k = choose|k: int| 0 <= k < s0.activity_tags.len() && s0.activity_tags[k] == l;
                assert(has_activity(s0.activities, s0.activity_tags[k].owner_id@));
                let a = choose|a: int| 0 <= a < s0.activities.len() && (#[trigger] s0.activities[a]).id@ == l.owner_id@;
                assert(self.activities@.contains(s0.activities[a]));
                let b = choose|b: int| 0 <= b < self.activities@.len() && self.activities@[b] == s0.activities[a];
                assert(self.activities@[b].id@ == l.owner_id@);
            }
            lemma_wf_frame(s0, self@);
        }
        Ok(removed)
    }

    /// Adds a monetary medium; an existing id is refused and nothing changes.
    pub fn add_medium(&mut self, medium: &MonetaryMedium) -> (r: Result<(), StoreError>)
        requires
            store_wf(old(self)@),
        ensures
            store_wf(final(self)@),
            has_medium(old(self)@.media, medium.id@) ==> r == Err::<(), StoreError>(StoreError::Duplicate)
                && final(self)@ == old(self)@,
            !has_medium(old(self)@.media, medium.id@) ==> r is Ok
                && final(self)@ == (StoreView { media: old(self)@.media.push(*medium), ..old(self)@ }),
    {
        if find_medium(&self.media, &medium.id).is_some() {
            return Err(StoreError::Duplicate);
        }
        let ghost s0 = self@;
        self.media.push(medium.copied());
        proof {
            assert forall|i: int| 0 <= i < s0.media.len() implies #[trigger] self.media@[i] == s0.media[i] by {}
        }
        Ok(())
    }

    /// Saves a filter's id and date range; an existing id is refused and
    /// nothing changes. Its tags are added one by one with `add_filter_tag`.
    pub fn create_filter(&mut self, filter: &StaticFilter) -> (r: Result<(), StoreError>)
        requires
            store_wf(old(self)@),
        ensures
            store_wf(final(self)@),
            has_filter(old(self)@.filters, filter.id@) ==> r == Err::<(), StoreError>(StoreError::Duplicate)
                && final(self)@ == old(self)@,
            !has_filter(old(self)@.filters, filter.id@) ==> r is Ok && final(self)@ == (StoreView {
                filters: old(self)@.filters.push(
                    FilterRow { id: filter.id, initial_date: filter.initial_date, final_date: filter.final_date },
                ),
                ..old(self)@
            }),
    {
        proof {
            lemma_filter_by_id_found(self.filters@, filter.id@);
        }
        if find_filter(&self.filters, &filter.id).is_some() {
            return Err(StoreError::Duplicate);
        }
        let ghost s0 = self@;
        let row = FilterRow {
            id: filter.id.clone(),
            initial_date: filter.initial_date.clone(),
            final_date: filter.final_date.clone(),
        };
        self.filters.push(row);
        proof {
            assert forall|i: int| 0 <= i < s0.filters.len() implies #[trigger] self.filters@[i] == s0.filters[i] by {}
            assert(self.filters@[s0.filters.len() as int] == row);
            lemma_wf_frame(s0, self@);
        }
        Ok(())
    }

    /// Saved filter `row` with its tags, as handed to callers.
    fn present_filter(&self, row: &FilterRow) -> (r: StaticFilter)
        ensures
            presents_filter(r, *row, self@),
    {
        let tags = hydrate_tags(&self.filter_tags, &self.tags, &row.id);
        StaticFilter {
            id: row.id.clone(),
            initial_date: row.initial_date.clone(),
            final_date: row.final_date.clone(),
            tags: if tags.len() == 0 {
                None
            } else {
                Some(tags)
            },
        }
    }

    /// Every saved filter, in storage order, each with its tags.
    pub fn list_filters(&self) -> (r: Vec<StaticFilter>)
        ensures
            r@.len() == self@.filters.len(),
            forall|k: int| 0 <= k < r@.len() ==> presents_filter(#[trigger] r@[k], self@.filters[k], self@),
    {
        let mut out: Vec<StaticFilter> = Vec::new();
        let mut i: usize = 0;
        while i < self.filters.len()
            invariant
                i <= self@.filters.len(),
                out@.len() == i,
                forall|k: int| 0 <= k < i ==> presents_filter(#[trigger] out@[k], self@.filters[k], self@),
            decreases self@.filters.len() - i,
        {
            let f = self.present_filter(&self.filters[i]);
            out.push(f);
            i += 1;
        }
        out
    }

    /// Saved filter `id` with its tags; `NotFound` when there is none.
    pub fn get_filter(&self, id: &String) -> (r: Result<StaticFilter, StoreError>)
        ensures
            fetched(self@, id@, r),
    {
        match find_filter(&self.filters, id) {
            None => Err(StoreError::NotFound),
            Some(i) => Ok(self.present_filter(&self.filters[i])),
        }
    }

    /// Replaces the date range of the saved filter with `filter`'s id, and
    /// hands `filter` back as it was given. An unknown id changes nothing.
    pub fn update_filter_range(&mut self, filter: StaticFilter) -> (r: StaticFilter)
        requires
            store_wf(old(self)@),
        ensures
            store_wf(final(self)@),
            final(self)@ == range_updated(old(self)@, filter),
            r == filter,
    {
        let ghost s0 = self@;
        let mut i: usize = 0;
        while i < self.filters.len()
            invariant
                self@ == (StoreView { filters: self@.filters, ..s0 }),
                self@.filters.len() == s0.filters.len(),
                i <= s0.filters.len(),
                forall|k: int| 0 <= k < i ==> #[trigger] self@.filters[k] == ranged(s0.filters[k], filter),
                forall|k: int| i <= k < s0.filters.len() ==> #[trigger] self@.filters[k] == s0.filters[k],
            decreases s0.filters.len() - i,
        {
            if self.filters[i].id == filter.id {
                let row = FilterRow {
                    id: self.filters[i].id.clone(),
                    initial_date: filter.initial_date.clone(),
                    final_date: filter.final_date.clone(),
                };
                self.filters.set(i, row);
            }
            i += 1;
        }
        proof {
            assert(self@.filters =~= s0.filters.map_values(|row: FilterRow| ranged(row, filter)));
            assert(filter_ids_unique(s0.filters));
            assert forall|i: int, j: int| 0 <= i < j < self@.filters.len() implies (#[trigger] self@.filters[i]).id@
                != (#[trigger] self@.filters[j]).id@ by {
                assert(self@.filters[i].id == s0.filters[i].id);
                assert(self@.filters[j].id == s0.filters[j].id);
            }
            lemma_wf_frame(s0, self@);
        }
        filter
    }

    /// Associates tag `tag_id` with saved filter `filter_id` as
    /// `filter_tag_added` says (an existing pair is refused), then reads the
    /// filter back.
    pub fn add_filter_tag(&mut self, filter_id: &String, tag_id: &String) -> (r: Result<StaticFilter, StoreError>)
        requires
            store_wf(old(self)@),
        ensures
            store_wf(final(self)@),
            final(self)@ == filter_tag_added(old(self)@, *filter_id, *tag_id).0,
            match filter_tag_added(old(self)@, *filter_id, *tag_id).1 {
                Some(e) => r == Err::<StaticFilter, StoreError>(e),
                None => fetched(final(self)@, filter_id@, r),
            },
    {
        if link_exists(&self.filter_tags, filter_id, tag_id) {
            return Err(StoreError::Duplicate);
        }
        proof {
            lemma_filter_by_id_found(self.filters@, filter_id@);
        }
        if find_filter(&self.filters, filter_id).is_none() || find_tag_by_id(&self.tags, tag_id).is_none() {
            return Err(StoreError::ForeignKeyViolation);
        }
        let l = Link { owner_id: filter_id.clone(), tag_id: tag_id.clone() };
        self.filter_tags.push(l);
        self.get_filter(filter_id)
    }

    /// Removes the association of tag `tag_id` with saved filter `filter_id`
    /// if there is one, then reads the filter back.
    pub fn remove_filter_tag(&mut self, filter_id: &String, tag_id: &String) -> (r: Result<StaticFilter, StoreError>)
        requires
            store_wf(old(self)@),
        ensures
            store_wf(final(self)@),
            final(self)@ == (StoreView {
                filter_tags: links_without(old(self)@.filter_tags, filter_id@, Some(tag_id@)),
                ..old(self)@
            }),
            fetched(final(self)@, filter_id@, r),
    {
        let links = retain_links(&self.filter_tags, filter_id, Some(tag_id));
        self.filter_tags = links;
        self.get_filter(filter_id)
    }

    /// Every monetary medium, in storage order.
    pub fn list_monetary_media(&self) -> (r: Vec<MonetaryMedium>)
        ensures
            r@ == self@.media,
    {
        let mut out: Vec<MonetaryMedium> = Vec::new();
        let mut i: usize = 0;
        while i < self.media.len()
            invariant
                i <= self@.media.len(),
                out@ == self@.media.take(i as int),
            decreases self@.media.len() - i,
        {
            out.push(self.media[i].copied());
            i += 1;
            assert(out@ =~= self@.media.take(i as int));
        }
        assert(self@.media.take(self@.media.len() as int) =~= self@.media);
        out
    }

    /// Up to `SUGGESTION_LIMIT` tags, the first ones in storage order.
    pub fn list_suggestion_tags(&self) -> (r: Vec<Tag>)
        ensures
            r@ == as_tags(self@.tags.take(
                if self@.tags.len() < SUGGESTION_LIMIT { self@.tags.len() as int } else { SUGGESTION_LIMIT as int },
            )),
    {
        let n: usize = if self.tags.len() < SUGGESTION_LIMIT { self.tags.len() } else { SUGGESTION_LIMIT };
        let mut out: Vec<Tag> = Vec::new();
        let mut i: usize = 0;
        while i < n
            invariant
                n <= self@.tags.len(),
                n == (if self@.tags.len() < SUGGESTION_LIMIT { self@.tags.len() } else { SUGGESTION_LIMIT as nat }),
                i <= n,
                out@ == as_tags(self@.tags.take(i as int)),
            decreases n - i,
        {
            let t = Tag { id: Some(self.tags[i].id.clone()), name: self.tags[i].name.clone() };
            out.push(t);
            i += 1;
            assert(out@ =~= as_tags(self@.tags.take(i as int)));
        }
        out
    }

    /// Whether the keys, unique values and activity associations are as
    /// `store_wf` asks; a store built from saved rows is checked with this
    /// before use.
    pub fn is_well_formed(&self) -> (r: bool)
        ensures
            r == store_wf(self@),
    {
        let mut media_ids: Vec<String> = Vec::new();
        let mut i: usize = 0;
        while i < self.media.len()
            invariant
                i <= self@.media.len(),
                media_ids@.len() == i,
                forall|k: int| 0 <= k < i ==> (#[trigger] media_ids@[k])@ == self@.media[k].id@,
            decreases self@.media.len() - i,
        {
            media_ids.push(self.media[i].id.clone());
            i += 1;
        }
        let mut tag_ids: Vec<String> = Vec::new();
        let mut tag_names: Vec<String> = Vec::new();
        let mut i: usize = 0;
        while i < self.tags.len()
            invariant
                i <= self@.tags.len(),
                tag_ids@.len() == i,
                tag_names@.len() == i,
                forall|k: int| 0 <= k < i ==> (#[trigger] tag_ids@[k])@ == self@.tags[k].id@,
                forall|k: int| 0 <= k < i ==> (#[trigger] tag_names@[k])@ == self@.tags[k].name@,
            decreases self@.tags.len() - i,
        {
            tag_ids.push(self.tags[i].id.clone());
            tag_names.push(self.tags[i].name.clone());
            i += 1;
        }
        let mut activity_ids: Vec<String> = Vec::new();
        let mut i: usize = 0;
        while i < self.activities.len()
            invariant
                i <= self@.activities.len(),
                activity_ids@.len() == i,
                forall|k: int| 0 <= k < i ==> (#[trigger] activity_ids@[k])@ == self@.activities[k].id@,
            decreases self@.activities.len() - i,
        {
            activity_ids.push(self.activities[i].id.clone());
            i += 1;
        }
        let mut filter_ids: Vec<String> = Vec::new();
        let mut i: usize = 0;
        while i < self.filters.len()
            invariant
                i <= self@.filters.len(),
                filter_ids@.len() == i,
                forall|k: int| 0 <= k < i ==> (#[trigger] filter_ids@[k])@ == self@.filters[k].id@,
            decreases self@.filters.len() - i,
        {
            filter_ids.push(self.filters[i].id.clone());
            i += 1;
        }
        let mut owners_exist = true;
        let mut i: usize = 0;
        while i < self.activity_tags.len()
            invariant
                i <= self@.activity_tags.len(),
                owners_exist == forall|k: int| 0 <= k < i ==> has_activity(
                    self@.activities,
                    (#[trigger] self@.activity_tags[k]).owner_id@,
                ),
            decreases self@.activity_tags.len() - i,
        {
            let found = activity_exists(&self.activities, &self.activity_tags[i].owner_id);
            owners_exist = owners_exist && found;
            i += 1;
        }
        let r = all_distinct(&media_ids) && all_distinct(&tag_ids) && all_distinct(&tag_names) && all_distinct(
            &activity_ids,
        ) && all_distinct(&filter_ids) && owners_exist;
        proof {
            if distinct(media_ids@) {
                assert forall|i: int, j: int| 0 <= i < j < self@.media.len() implies (#[trigger] self@.media[i]).id@
                    != (#[trigger] self@.media[j]).id@ by {
                    assert(media_ids@[i]@ != media_ids@[j]@);
                }
            } else {
                let (i, j) = choose|i: int, j: int| 0 <= i < j < media_ids@.len() && (#[trigger] media_ids@[i])@ == (#[trigger] media_ids@[j])@;
                assert(self@.media[i].id@ == self@.media[j].id@);
            }
            if distinct(tag_ids@) {
                assert forall|i: int, j: int| 0 <= i < j < self@.tags.len() implies (#[trigger] self@.tags[i]).id@
                    != (#[trigger] self@.tags[j]).id@ by {
                    assert(tag_ids@[i]@ != tag_ids@[j]@);
                }
            } else {
                let (i, j) = choose|i: int, j: int| 0 <= i < j < tag_ids@.len() && (#[trigger] tag_ids@[i])@ == (#[trigger] tag_ids@[j])@;
                assert(self@.tags[i].id@ == self@.tags[j].id@);
            }
            if distinct(tag_names@) {
                assert forall|i: int, j: int| 0 <= i < j < self@.tags.len() implies (#[trigger] self@.tags[i]).name@
                    != (#[trigger] self@.tags[j]).name@ by {
                    assert(tag_names@[i]@ != tag_names@[j]@);
                }
            } else {
                let (i, j) = choose|i: int, j: int| 0 <= i < j < tag_names@.len() && (#[trigger] tag_names@[i])@ == (#[trigger] tag_names@[j])@;
                assert(self@.tags[i].name@ == self@.tags[j].name@);
            }
            if distinct(activity_ids@) {
                assert forall|i: int, j: int| 0 <= i < j < self@.activities.len() implies (#[trigger] self@.activities[i]).id@
                    != (#[trigger] self@.activities[j]).id@ by {
                    assert(activity_ids@[i]@ != activity_ids@[j]@);
                }
            } else {
                let (i, j) = choose|i: int, j: int| 0 <= i < j < activity_ids@.len() && (#[trigger] activity_ids@[i])@ == (#[trigger] activity_ids@[j])@;
                assert(self@.activities[i].id@ == self@.activities[j].id@);
            }
            if distinct(filter_ids@) {
                assert forall|i: int, j: int| 0 <= i < j < self@.filters.len() implies (#[trigger] self@.filters[i]).id@
                    != (#[trigger] self@.filters[j]).id@ by {
                    assert(filter_ids@[i]@ != filter_ids@[j]@);
                }
            } else {
                let (i, j) = choose|i: int, j: int| 0 <= i < j < filter_ids@.len() && (#[trigger] filter_ids@[i])@ == (#[trigger] filter_ids@[j])@;
                assert(self@.filters[i].id@ == self@.filters[j].id@);
            }
        }
        r
    }
}

} // verus!

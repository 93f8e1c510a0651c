//! The operations on tags that reach the music, clips and albums that carry them.
use vstd::prelude::*;

use crate::catalog::aligned;
use crate::catalog::category;
use crate::catalog::has_category;
use crate::catalog::has_tag;
use crate::catalog::lemma_category_at;
use crate::catalog::lemma_tag_at;
use crate::catalog::models;
use crate::catalog::tag;
use crate::catalog::CatalogModel;
use crate::catalog::TagModel;
use crate::failure::outcome;
use crate::failure::ErrorModel;
use crate::failure::LibraryError;
use crate::library::has_clip;
use crate::library::has_music;
use crate::library::is_alive;
use crate::library::lemma_links_more_tags;
use crate::library::Library;
use crate::library::LibraryModel;
use crate::links::drop_target;
use crate::links::lemma_links_filter;
use crate::links::links_wf;
use crate::links::other_target;
use crate::links::LinkModel;
use crate::links::LinkRow;
use crate::order::in_order;
use crate::order::sort;
use crate::order::Ordered;
use crate::rows::lemma_filter_at;
use crate::rows::lemma_filter_take;
use crate::tags::category_names;
use crate::tags::category_records;
use crate::tags::create_category_result;
use crate::tags::create_tag_result;
use crate::tags::delete_category_result;
use crate::tags::is_dimension;
use crate::tags::law_create_tag_keeps_the_catalog;
use crate::tags::tag_record;
use crate::tags::update_category_result;
use crate::tags::TagCategory;
use crate::tags::TagCategoryModel;
use crate::tags::TagRecord;
use crate::tags::TagRecordModel;
use crate::text::lemma_text_le_antisymmetric;
use crate::text::lemma_text_le_total;
use crate::text::lemma_text_le_transitive;
use crate::text::name_key;
use crate::text::nocase;
use crate::text::not_after;
use crate::text::text_le;
use crate::tree::delete_result;
use crate::tree::law_delete_keeps_categories_aligned;
use crate::tree::lemma_deleted_wf;
use crate::tree::lemma_same_ids;
use crate::tree::move_result;
use crate::tree::update_result;

verus! {

/// The library once the tag `id` is removed, its children stand where it stood, and
/// nothing carries it; or why it is refused.
pub open spec fn delete_tag_result(l: LibraryModel, id: i64) -> Result<LibraryModel, ErrorModel> {
    match delete_result(l.catalog.tags, id) {
        Err(e) => Err(e),
        Ok(tags) => Ok(
            LibraryModel {
                catalog: CatalogModel { tags, ..l.catalog },
                music_tags: l.music_tags.filter(other_target(id)),
                clip_tags: l.clip_tags.filter(other_target(id)),
                album_tags: l.album_tags.filter(other_target(id)),
                ..l
            },
        ),
    }
}

proof fn lemma_targets_left(before: Seq<TagModel>, after: Seq<TagModel>, links: Seq<LinkModel>, id: i64)
    requires
        links_wf(before, links),
        forall|x: i64| has_tag(after, x) <==> has_tag(before, x) && x != id,
    ensures
        links_wf(after, links.filter(other_target(id))),
{
    let kept = links.filter(other_target(id));
    lemma_links_filter(before, links, other_target(id));
    assert forall|i: int| 0 <= i < kept.len() implies has_tag(after, (#[trigger] kept[i]).tag_id) by {
        let a = lemma_filter_at(links, other_target(id), i);
        assert(has_tag(before, links[a].tag_id));
    }
}

/// Once a tag is removed it does not exist, nothing carries it, every other tag exists
/// still, and the tables are in order.
pub proof fn law_deleted_tag_is_carried_by_nothing(l: LibraryModel, id: i64)
    requires
        l.wf(),
        delete_tag_result(l, id) is Ok,
    ensures
        ({
            let r = delete_tag_result(l, id)->Ok_0;
            &&& r.wf()
            &&& forall|x: i64|
                has_tag(r.catalog.tags, x) <==> has_tag(l.catalog.tags, x) && x != id
            &&& forall|k: LinkModel|
                r.music_tags.contains(k) <==> l.music_tags.contains(k) && k.tag_id != id
            &&& forall|k: LinkModel|
                r.clip_tags.contains(k) <==> l.clip_tags.contains(k) && k.tag_id != id
            &&& forall|k: LinkModel|
                r.album_tags.contains(k) <==> l.album_tags.contains(k) && k.tag_id != id
            &&& l.candidates_alive() ==> r.candidates_alive()
            &&& aligned(l.catalog.tags) ==> aligned(r.catalog.tags)
        }),
{
    let r = delete_tag_result(l, id)->Ok_0;
    lemma_deleted_wf(l.catalog.categories, l.catalog.tags, l.catalog.tag_seq, id);
    lemma_targets_left(l.catalog.tags, r.catalog.tags, l.music_tags, id);
    lemma_targets_left(l.catalog.tags, r.catalog.tags, l.clip_tags, id);
    lemma_targets_left(l.catalog.tags, r.catalog.tags, l.album_tags, id);
    lemma_links_filter(l.catalog.tags, l.music_tags, other_target(id));
    lemma_links_filter(l.catalog.tags, l.clip_tags, other_target(id));
    lemma_links_filter(l.catalog.tags, l.album_tags, other_target(id));
    assert forall|i: int| 0 <= i < r.music_tags.len() implies has_music(
        r.music,
        (#[trigger] r.music_tags[i]).owner,
    ) by {
        let a = lemma_filter_at(l.music_tags, other_target(id), i);
        assert(has_music(l.music, l.music_tags[a].owner));
    }
    assert forall|i: int| 0 <= i < r.clip_tags.len() implies has_clip(
        r.clips,
        (#[trigger] r.clip_tags[i]).owner,
    ) by {
        let a = lemma_filter_at(l.clip_tags, other_target(id), i);
        assert(has_clip(l.clips, l.clip_tags[a].owner));
    }
    if l.candidates_alive() {
        assert forall|i: int| 0 <= i < r.candidates.len() implies is_alive(
            r,
            #[trigger] r.candidates[i],
        ) by {
            assert(is_alive(l, l.candidates[i]));
        }
    }
    if aligned(l.catalog.tags) {
        law_delete_keeps_categories_aligned(l.catalog, id);
    }
}

/// The library with the catalog `catalog`.
pub open spec fn with_catalog(l: LibraryModel, catalog: CatalogModel) -> LibraryModel {
    LibraryModel { catalog, ..l }
}

/// The tables are in order still with a catalog in which every tag exists still.
pub proof fn lemma_catalog_exchanged(l: LibraryModel, catalog: CatalogModel)
    requires
        l.wf(),
        catalog.wf(),
        forall|x: i64| #[trigger] has_tag(l.catalog.tags, x) ==> has_tag(catalog.tags, x),
    ensures
        with_catalog(l, catalog).wf(),
        l.candidates_alive() ==> with_catalog(l, catalog).candidates_alive(),
{
    lemma_links_more_tags(l.catalog.tags, catalog.tags, l.music_tags);
    lemma_links_more_tags(l.catalog.tags, catalog.tags, l.clip_tags);
    lemma_links_more_tags(l.catalog.tags, catalog.tags, l.album_tags);
    let r = with_catalog(l, catalog);
    if l.candidates_alive() {
        assert forall|i: int| 0 <= i < r.candidates.len() implies is_alive(
            r,
            #[trigger] r.candidates[i],
        ) by {
            assert(is_alive(l, l.candidates[i]));
        }
    }
}

/// A tag that is moved, and every other, keeps its identifier.
pub proof fn lemma_moved_ids(
    c: CatalogModel,
    id: i64,
    parent: Option<i64>,
    category: Option<i64>,
)
    requires
        move_result(c, id, parent, category) is Ok,
    ensures
        forall|x: i64|
            has_tag(move_result(c, id, parent, category)->Ok_0, x) <==> has_tag(c.tags, x),
{
    lemma_same_ids(c.tags, move_result(c, id, parent, category)->Ok_0);
}

/// A tag that is renamed, and every other, keeps its identifier.
pub proof fn lemma_updated_ids(
    c: CatalogModel,
    id: i64,
    name: Seq<char>,
    category: Option<Seq<char>>,
    now: i64,
)
    requires
        update_result(c, id, name, category, now) is Ok,
    ensures
        forall|x: i64|
            has_tag((update_result(c, id, name, category, now)->Ok_0).tags, x) <==> has_tag(
                c.tags,
                x,
            ),
{
    lemma_same_ids(c.tags, (update_result(c, id, name, category, now)->Ok_0).tags);
}

/// Being a link to the tag `id`.
pub open spec fn to_tag(id: i64) -> spec_fn(LinkModel) -> bool {
    |l: LinkModel| l.tag_id == id
}

/// How many music, clips and albums carry the tag `id`.
pub open spec fn times_carried(l: LibraryModel, id: i64) -> nat {
    l.music_tags.filter(to_tag(id)).len() + l.clip_tags.filter(to_tag(id)).len()
        + l.album_tags.filter(to_tag(id)).len()
}

/// Whether the uses of a tag can be counted.
pub open spec fn countable(l: LibraryModel) -> bool {
    l.music_tags.len() + l.clip_tags.len() + l.album_tags.len() <= i64::MAX
}

/// The tags as they are handed out, in the order in which they are kept.
pub open spec fn tag_records(l: LibraryModel) -> Seq<TagRecordModel> {
    l.catalog.tags.map_values(
        |t: TagModel| tag_record(l.catalog, t, times_carried(l, t.id) as i64),
    )
}

/// Whether of two tags as they are handed out `a` may come first: by the name of the
/// category and then by the path, ASCII case aside.
pub open spec fn record_le(c: CatalogModel, a: TagRecordModel, b: TagRecordModel) -> bool {
    let x = nocase(category(c.categories, a.category_id).name);
    let y = nocase(category(c.categories, b.category_id).name);
    if x == y {
        text_le(nocase(a.path), nocase(b.path))
    } else {
        text_le(x, y)
    }
}

/// A tag to be listed, with the name of its category.
struct Listed {
    record: TagRecord,
    category: String,
}

/// A tag to be listed, mathematically.
struct ListedModel {
    record: TagRecordModel,
    category: Seq<char>,
}

impl View for Listed {
    type V = ListedModel;

    closed spec fn view(&self) -> ListedModel {
        ListedModel { record: self.record@, category: self.category@ }
    }
}

impl Ordered for Listed {
    closed spec fn le(a: ListedModel, b: ListedModel) -> bool {
        if nocase(a.category) == nocase(b.category) {
            text_le(nocase(a.record.path), nocase(b.record.path))
        } else {
            text_le(nocase(a.category), nocase(b.category))
        }
    }

    proof fn le_total(a: ListedModel, b: ListedModel) {
        lemma_text_le_total(nocase(a.category), nocase(b.category));
        lemma_text_le_total(nocase(a.record.path), nocase(b.record.path));
    }

    proof fn le_transitive(a: ListedModel, b: ListedModel, c: ListedModel) {
        let x = nocase(a.category);
        let y = nocase(b.category);
        let z = nocase(c.category);
        if x == y && y == z {
            lemma_text_le_transitive(
                nocase(a.record.path),
                nocase(b.record.path),
                nocase(c.record.path),
            );
        } else if x != y && y != z {
            lemma_text_le_transitive(x, y, z);
            if x == z {
                lemma_text_le_antisymmetric(x, y);
            }
        }
    }

    fn at_most(&self, other: &Self) -> (r: bool) {
        let x = name_key(self.category.as_str());
        let y = name_key(other.category.as_str());
        if x == y {
            not_after(
                name_key(self.record.path.as_str()).as_str(),
                name_key(other.record.path.as_str()).as_str(),
            )
        } else {
            not_after(x.as_str(), y.as_str())
        }
    }
}

/// How many links go to the tag `id`.
fn count_links(links: &Vec<LinkRow>, id: i64) -> (n: usize)
    ensures
        n == models(links@).filter(to_tag(id)).len(),
        n <= links@.len(),
{
    let ghost m = models(links@);
    let mut n: usize = 0;
    let mut i: usize = 0;
    proof {
        reveal(Seq::filter);
        assert(m.take(0).filter(to_tag(id)) =~= Seq::empty());
    }
    while i < links.len()
        invariant
            i <= links@.len(),
            n <= i,
            m == models(links@),
            n == m.take(i as int).filter(to_tag(id)).len(),
        decreases links@.len() - i,
    {
        proof {
            lemma_filter_take(m, to_tag(id), i as int);
        }
        if links[i].tag_id == id {
            n = n + 1;
        }
        i = i + 1;
    }
    proof {
        assert(m.take(m.len() as int) =~= m);
    }
    n
}

impl Library {
    /// Creates a tag; see [`crate::catalog::Catalog::create_tag`].
    pub fn create_tag(
        &mut self,
        name: &str,
        category_id: Option<i64>,
        category: Option<&str>,
        parent_id: Option<i64>,
        now: i64,
    ) -> (r: Result<TagRecord, LibraryError>)
        requires
            old(self)@.wf(),
        ensures
            final(self)@.wf(),
            ({
                let (d, result) = create_tag_result(
                    old(self)@.catalog,
                    name@,
                    category_id,
                    match category {
                        Some(k) => Some(k@),
                        None => None,
                    },
                    parent_id,
                    now,
                );
                &&& final(self)@ == with_catalog(old(self)@, d)
                &&& match result {
                    Ok(id) => r matches Ok(t) && t@ == tag_record(d, tag(d.tags, id), 0) && t.id
                        == id,
                    Err(e) => r matches Err(f) && f@ == e,
                }
            }),
    {
        let ghost before = self@;
        let r = self.catalog.create_tag(name, category_id, category, parent_id, now);
        proof {
            law_create_tag_keeps_the_catalog(
                before.catalog,
                name@,
                category_id,
                match category {
                    Some(k) => Some(k@),
                    None => None,
                },
                parent_id,
                now,
            );
            lemma_catalog_exchanged(before, self.catalog@);
        }
        r
    }

    /// Renames a tag and moves it to the root of a category, where one is named.
    pub fn update_tag(&mut self, id: i64, name: &str, category: Option<&str>, now: i64) -> (r:
        Result<(), LibraryError>)
        requires
            old(self)@.wf(),
        ensures
            final(self)@.wf(),
            match update_result(
                old(self)@.catalog,
                id,
                name@,
                match category {
                    Some(k) => Some(k@),
                    None => None,
                },
                now,
            ) {
                Ok(c) => r is Ok && final(self)@ == with_catalog(old(self)@, c),
                Err(e) => outcome(r) == Err::<(), ErrorModel>(e) && final(self)@ == old(self)@,
            },
    {
        let ghost before = self@;
        let r = self.catalog.update_tag(id, name, category, now);
        proof {
            let asked = match category {
                Some(k) => Some(k@),
                None => None,
            };
            if update_result(before.catalog, id, name@, asked, now) is Ok {
                lemma_updated_ids(before.catalog, id, name@, asked, now);
            }
            lemma_catalog_exchanged(before, self.catalog@);
        }
        r
    }

    /// Moves a tag below another, or to the root of a category.
    pub fn move_tag(&mut self, id: i64, parent_id: Option<i64>, category_id: Option<i64>) -> (r:
        Result<(), LibraryError>)
        requires
            old(self)@.wf(),
        ensures
            final(self)@.wf(),
            match move_result(old(self)@.catalog, id, parent_id, category_id) {
                Ok(tags) => r is Ok && final(self)@ == with_catalog(
                    old(self)@,
                    (CatalogModel { tags, ..old(self)@.catalog }),
                ),
                Err(e) => outcome(r) == Err::<(), ErrorModel>(e) && final(self)@ == old(self)@,
            },
    {
        let ghost before = self@;
        let r = self.catalog.move_tag_in(id, parent_id, category_id);
        proof {
            if move_result(before.catalog, id, parent_id, category_id) is Ok {
                lemma_moved_ids(before.catalog, id, parent_id, category_id);
            }
            lemma_catalog_exchanged(before, self.catalog@);
        }
        r
    }

    /// Removes a tag; its children go where it stood, and nothing carries it any more.
    pub fn delete_tag(&mut self, id: i64) -> (r: Result<(), LibraryError>)
        requires
            old(self)@.wf(),
        ensures
            final(self)@.wf(),
            match delete_tag_result(old(self)@, id) {
                Ok(l) => r is Ok && final(self)@ == l,
                Err(e) => outcome(r) == Err::<(), ErrorModel>(e) && final(self)@ == old(self)@,
            },
    {
        let ghost before = self@;
        match self.catalog.remove_tag(id) {
            Err(e) => {
                return Err(e);
            },
            Ok(_) => {},
        }
        drop_target(&mut self.music_tags, id);
        drop_target(&mut self.clip_tags, id);
        drop_target(&mut self.album_tags, id);
        proof {
            law_deleted_tag_is_carried_by_nothing(before, id);
        }
        Ok(())
    }

    /// Creates a category.
    pub fn create_tag_category(&mut self, name: &str, now: i64) -> (r: Result<(), LibraryError>)
        requires
            old(self)@.wf(),
        ensures
            final(self)@.wf(),
            match create_category_result(old(self)@.catalog, name@, now) {
                Ok(c) => r is Ok && final(self)@ == with_catalog(old(self)@, c),
                Err(e) => outcome(r) == Err::<(), ErrorModel>(e) && final(self)@ == old(self)@,
            },
    {
        let ghost before = self@;
        let r = self.catalog.create_tag_category(name, now);
        proof {
            assert(self.catalog@.tags == before.catalog.tags);
            lemma_catalog_exchanged(before, self.catalog@);
        }
        r
    }

    /// Gives the category named `old_name` the name `name`.
    pub fn update_tag_category(&mut self, old_name: &str, name: &str) -> (r: Result<
        (),
        LibraryError,
    >)
        requires
            old(self)@.wf(),
        ensures
            final(self)@.wf(),
            match update_category_result(old(self)@.catalog, old_name@, name@) {
                Ok(c) => r is Ok && final(self)@ == with_catalog(old(self)@, c),
                Err(e) => outcome(r) == Err::<(), ErrorModel>(e) && final(self)@ == old(self)@,
            },
    {
        let ghost before = self@;
        let r = self.catalog.update_tag_category(old_name, name);
        proof {
            assert(self.catalog@.tags == before.catalog.tags);
            lemma_catalog_exchanged(before, self.catalog@);
        }
        r
    }

    /// Removes the category named `name`, if no tag stands in it.
    pub fn delete_tag_category(&mut self, name: &str) -> (r: Result<(), LibraryError>)
        requires
            old(self)@.wf(),
        ensures
            final(self)@.wf(),
            match delete_category_result(old(self)@.catalog, name@) {
                Ok(c) => r is Ok && final(self)@ == with_catalog(old(self)@, c),
                Err(e) => outcome(r) == Err::<(), ErrorModel>(e) && final(self)@ == old(self)@,
            },
    {
        let ghost before = self@;
        let r = self.catalog.delete_tag_category(name);
        proof {
            assert(self.catalog@.tags == before.catalog.tags);
            lemma_catalog_exchanged(before, self.catalog@);
        }
        r
    }

    /// The categories, by name.
    pub fn list_tag_category_records(&self) -> (r: Vec<TagCategory>)
        ensures
            in_order::<TagCategory>(models(r@)),
            models(r@).to_multiset() == category_records(
                self@.catalog.categories,
            ).to_multiset(),
    {
        self.catalog.list_tag_category_records()
    }

    /// The names of the categories but that of the uncategorized tags, in order.
    pub fn list_tag_categories(&self) -> (r: Vec<String>)
        ensures
            exists|c: Seq<TagCategoryModel>|
                in_order::<TagCategory>(c) && c.to_multiset() == category_records(
                    self@.catalog.categories,
                ).filter(is_dimension()).to_multiset() && models(r@) == #[trigger] category_names(c),
    {
        self.catalog.list_tag_categories()
    }

    /// How many music, clips and albums carry the tag `id`.
    fn count_uses(&self, id: i64) -> (n: i64)
        requires
            countable(self@),
        ensures
            n == times_carried(self@, id),
    {
        let a = count_links(&self.music_tags, id);
        let b = count_links(&self.clip_tags, id);
        let c = count_links(&self.album_tags, id);
        (a as i64) + (b as i64) + (c as i64)
    }

    /// The tags with their paths and how often they are carried, by category and path.
    pub fn list_tags(&self) -> (r: Vec<TagRecord>)
        requires
            self@.wf(),
            countable(self@),
        ensures
            models(r@).to_multiset() == tag_records(self@).to_multiset(),
            forall|i: int, j: int|
                0 <= i < j < r@.len() ==> record_le(
                    self@.catalog,
                    (#[trigger] r@[i])@,
                    (#[trigger] r@[j])@,
                ),
    {
        let ghost c = self@.catalog;
        let ghost all = tag_records(self@);
        let ghost labelled = all.map_values(
            |t: TagRecordModel|
                ListedModel { record: t, category: category(c.categories, t.category_id).name },
        );
        let mut rows: Vec<Listed> = Vec::new();
        let mut i: usize = 0;
        while i < self.catalog.tags.len()
            invariant
                i <= self.catalog.tags@.len(),
                rows@.len() == i,
                self@.wf(),
                countable(self@),
                c == self@.catalog,
                all == tag_records(self@),
                labelled == all.map_values(
                    |t: TagRecordModel|
                        ListedModel {
                            record: t,
                            category: category(c.categories, t.category_id).name,
                        },
                ),
                forall|j: int| 0 <= j < i ==> (#[trigger] rows@[j])@ == labelled[j],
            decreases self.catalog.tags@.len() - i,
        {
            let id: i64 = self.catalog.tags[i].id;
            let k: i64 = self.catalog.tags[i].category_id;
            proof {
                lemma_tag_at(c.tags, i as int);
                assert(has_category(c.categories, c.tags[i as int].category_id));
            }
            let category = match self.catalog.category_index(k) {
                Some(x) => {
                    proof {
                        lemma_category_at(c.categories, c.category_seq, x as int);
                    }
                    self.catalog.categories[x].name.clone()
                },
                None => String::new(),
            };
            let record = self.catalog.record(id, self.count_uses(id));
            rows.push(Listed { record, category });
            i = i + 1;
        }
        proof {
            assert(models(rows@) =~= labelled);
        }
        let mut sorted = sort(rows);
        let ghost s = models(sorted@);
        proof {
            assert(s.to_multiset() == labelled.to_multiset());
            lemma_listed(c, all, labelled, s);
        }
        let ghost records = s.map_values(|x: ListedModel| x.record);
        let mut r: Vec<TagRecord> = Vec::new();
        let ghost n = s.len();
        while sorted.len() > 0
            invariant
                sorted@.len() + r@.len() == n,
                records.len() == n,
                forall|j: int|
                    0 <= j < sorted@.len() ==> (#[trigger] sorted@[j])@.record == records[j],
                forall|j: int|
                    0 <= j < r@.len() ==> (#[trigger] r@[j])@ == records[sorted@.len() + j],
            decreases sorted@.len(),
        {
            let x = sorted.pop().unwrap();
            r.insert(0, x.record);
        }
        proof {
            assert(models(r@) =~= records);
        }
        r
    }
}

/// Labels dropped from a list in order leave the records, in order.
proof fn lemma_listed(
    c: CatalogModel,
    all: Seq<TagRecordModel>,
    labelled: Seq<ListedModel>,
    s: Seq<ListedModel>,
)
    requires
        labelled == all.map_values(
            |t: TagRecordModel|
                ListedModel { record: t, category: category(c.categories, t.category_id).name },
        ),
        s.to_multiset() == labelled.to_multiset(),
        in_order::<Listed>(s),
    ensures
        ({
            let records = s.map_values(|x: ListedModel| x.record);
            &&& records.to_multiset() == all.to_multiset()
            &&& forall|i: int, j: int|
                0 <= i < j < records.len() ==> record_le(
                    c,
                    #[trigger] records[i],
                    #[trigger] records[j],
                )
        }),
{
    let f = |x: ListedModel| x.record;
    let records = s.map_values(f);
    assert(labelled.map_values(f) =~= all);
    crate::rows::lemma_map_multiset(s, labelled, f);
    assert forall|i: int| 0 <= i < s.len() implies (#[trigger] s[i]).category == category(
        c.categories,
        s[i].record.category_id,
    ).name by {
        broadcast use vstd::seq_lib::group_to_multiset_ensures;

        assert(s.contains(s[i]));
        assert(labelled.to_multiset().count(s[i]) > 0);
        assert(labelled.contains(s[i]));
    }
    assert forall|i: int, j: int| 0 <= i < j < records.len() implies record_le(
        c,
        #[trigger] records[i],
        #[trigger] records[j],
    ) by {
        assert(Listed::le(s[i], s[j]));
    }
}

} // verus!

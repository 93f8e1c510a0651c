//! The operations on tags and categories that callers ask for.
use vstd::prelude::*;

use crate::catalog::aligned;
use crate::catalog::category;
use crate::catalog::category_named;
use crate::catalog::has_category;
use crate::catalog::has_category_named;
use crate::catalog::has_tag;
use crate::catalog::is_rank;
use crate::catalog::lemma_category_at;
use crate::catalog::lemma_tag_at;
use crate::catalog::lemma_tag_index;
use crate::catalog::models;
use crate::catalog::parent_of;
use crate::catalog::rank_of;
use crate::catalog::tag;
use crate::catalog::tag_path;
use crate::catalog::Catalog;
use crate::catalog::CatalogModel;
use crate::catalog::CategoryModel;
use crate::catalog::CategoryRow;
use crate::catalog::TagModel;
use crate::failure::outcome;
use crate::failure::Constraint;
use crate::failure::ErrorModel;
use crate::failure::Failure;
use crate::failure::Key;
use crate::failure::LibraryError;
use crate::failure::Rule;
use crate::failure::Step;
use crate::naming::lemma_with_new_tag;
use crate::naming::with_new_tag;
use crate::order::in_order;
use crate::order::sort;
use crate::order::Ordered;
use crate::rows::lemma_filter_at;
use crate::rows::lemma_filter_has;
use crate::rows::lemma_filter_pair;
use crate::rows::retain;
use crate::text::is_blank;
use crate::text::lemma_text_le_total;
use crate::text::lemma_text_le_transitive;
use crate::text::name_key;
use crate::text::lowered;
use crate::text::nocase;
use crate::text::not_after;
use crate::text::same_but_for_case;
use crate::text::same_nocase;
use crate::text::text_le;
use crate::text::trim;
use crate::text::trimmed;
use crate::tree::category_name;
use crate::tree::category_or_uncategorized;
use crate::tree::delete_result;
use crate::tree::lemma_deleted_wf;
use crate::tree::lemma_with_category;
use crate::tree::tag_name_result;
use crate::tree::taken;
use crate::tree::uncategorized;
use crate::tree::validate_tag;
use crate::tree::with_category;

verus! {

/// A tag as it is handed out.
pub struct TagRecord {
    pub id: i64,
    pub name: String,
    pub category_id: i64,
    pub category: String,
    pub parent_id: Option<i64>,
    pub path: String,
    pub music_count: i64,
}

/// A tag as it is handed out, mathematically.
pub struct TagRecordModel {
    pub id: i64,
    pub name: Seq<char>,
    pub category_id: i64,
    pub category: Seq<char>,
    pub parent_id: Option<i64>,
    pub path: Seq<char>,
    pub music_count: i64,
}

impl View for TagRecord {
    type V = TagRecordModel;

    open spec fn view(&self) -> TagRecordModel {
        TagRecordModel {
            id: self.id,
            name: self.name@,
            category_id: self.category_id,
            category: self.category@,
            parent_id: self.parent_id,
            path: self.path@,
            music_count: self.music_count,
        }
    }
}

/// The name of a category as it is shown: that of the uncategorized tags is not.
pub open spec fn shown_category(name: Seq<char>) -> Seq<char> {
    if nocase(name) == nocase(uncategorized()) {
        Seq::empty()
    } else {
        name
    }
}

/// The tag `t` as it is handed out, carried `count` times.
pub open spec fn tag_record(c: CatalogModel, t: TagModel, count: i64) -> TagRecordModel {
    TagRecordModel {
        id: t.id,
        name: t.name,
        category_id: t.category_id,
        category: shown_category(category(c.categories, t.category_id).name),
        parent_id: t.parent_id,
        path: tag_path(c.tags, t.id),
        music_count: count,
    }
}

/// The category in which a new tag is to stand, with the catalog in which it is; or why
/// there is none. Below a parent it is the parent's, and only that may be asked for.
/// A category asked for by its name is created where none has the name.
pub open spec fn home_result(
    c: CatalogModel,
    category_id: Option<i64>,
    category: Option<Seq<char>>,
    parent_id: Option<i64>,
    now: i64,
) -> Result<(CatalogModel, i64), ErrorModel> {
    match (parent_id, category_id) {
        (Some(p), asked) => if !has_tag(c.tags, p) {
            Err(Failure::Rule(Rule::NoSuchParent))
        } else if asked matches Some(k) && k != tag(c.tags, p).category_id {
            Err(Failure::Rule(Rule::ParentInOtherCategory))
        } else {
            Ok((c, tag(c.tags, p).category_id))
        },
        (None, Some(k)) => Ok((c, k)),
        (None, None) => {
            let name = match category {
                Some(k) => category_name(k),
                None => uncategorized(),
            };
            match with_category(c, name, now) {
                None => Err(Failure::Write(Step::CreateTagCategory, Constraint::Full)),
                Some(d) => Ok((d, category_named(d.categories, name).id)),
            }
        },
    }
}

/// Why a tag of this name cannot be added at this place, if it cannot.
pub open spec fn insert_refusal(
    c: CatalogModel,
    name: Seq<char>,
    category_id: i64,
    parent_id: Option<i64>,
) -> Option<Constraint> {
    if c.tag_seq == i64::MAX {
        Some(Constraint::Full)
    } else if taken(c.tags, 0, category_id, parent_id, name) {
        Some(Constraint::Unique(Key::TagPlace))
    } else if !has_category(c.categories, category_id) {
        Some(Constraint::ForeignKey)
    } else {
        None
    }
}

/// The catalog once a tag was to be created, and the tag's identifier or why there is
/// none. A category created for it stays even where the tag is refused.
pub open spec fn create_tag_result(
    c: CatalogModel,
    name: Seq<char>,
    category_id: Option<i64>,
    category: Option<Seq<char>>,
    parent_id: Option<i64>,
    now: i64,
) -> (CatalogModel, Result<i64, ErrorModel>) {
    match tag_name_result(name) {
        Err(e) => (c, Err(e)),
        Ok(n) => match home_result(c, category_id, category, parent_id, now) {
            Err(e) => (c, Err(e)),
            Ok((d, k)) => match insert_refusal(d, n, k, parent_id) {
                Some(x) => (d, Err(Failure::Write(Step::CreateTag, x))),
                None => (with_new_tag(d, n, k, parent_id, now), Ok((d.tag_seq + 1) as i64)),
            },
        },
    }
}

pub proof fn lemma_home(
    c: CatalogModel,
    category_id: Option<i64>,
    category: Option<Seq<char>>,
    parent_id: Option<i64>,
    now: i64,
)
    requires
        c.wf(),
        home_result(c, category_id, category, parent_id, now) is Ok,
    ensures
        ({
            let (d, k) = home_result(c, category_id, category, parent_id, now)->Ok_0;
            &&& d.wf()
            &&& d.tags == c.tags
            &&& d.tag_seq == c.tag_seq
            &&& forall|x: i64| has_category(c.categories, x) ==> has_category(d.categories, x)
            &&& parent_id matches Some(p) ==> has_tag(c.tags, p) && tag(c.tags, p).category_id == k
        }),
{
    if parent_id is None && category_id is None {
        let name = match category {
            Some(k) => category_name(k),
            None => uncategorized(),
        };
        lemma_with_category(c, name, now);
    }
}

/// What holds once a tag was created: the tables stay in order, every tag stays as it
/// was, and the new tag stands below its parent in its parent's category.
pub proof fn law_create_tag_keeps_the_catalog(
    c: CatalogModel,
    name: Seq<char>,
    category_id: Option<i64>,
    category: Option<Seq<char>>,
    parent_id: Option<i64>,
    now: i64,
)
    requires
        c.wf(),
    ensures
        ({
            let (d, r) = create_tag_result(c, name, category_id, category, parent_id, now);
            &&& d.wf()
            &&& forall|x: i64| #[trigger]
                has_tag(c.tags, x) ==> has_tag(d.tags, x) && tag(d.tags, x) == tag(c.tags, x)
            &&& aligned(c.tags) ==> aligned(d.tags)
            &&& r matches Ok(id) ==> id > c.tag_seq && has_tag(d.tags, id) && d.tags.last() == tag(
                d.tags,
                id,
            )
        }),
{
    let (d, r) = create_tag_result(c, name, category_id, category, parent_id, now);
    if tag_name_result(name) is Ok && home_result(
        c,
        category_id,
        category,
        parent_id,
        now,
    ) is Ok {
        lemma_home(c, category_id, category, parent_id, now);
        let n = tag_name_result(name)->Ok_0;
        let (e, k) = home_result(c, category_id, category, parent_id, now)->Ok_0;
        if insert_refusal(e, n, k, parent_id) is None {
            assert forall|i: int| 0 <= i < e.tags.len() implies !((#[trigger] e.tags[i]).category_id
                == k && e.tags[i].parent_id == parent_id && nocase(e.tags[i].name) == nocase(n)) by {
                assert(1 <= e.tags[i].id);
            }
            lemma_with_new_tag(e, n, k, parent_id, now);
            lemma_tag_at(d.tags, e.tags.len() as int);
        }
    }
}

/// The names above a tag are the same once more tags exist.
proof fn lemma_path_stays(before: CatalogModel, after: CatalogModel, id: i64)
    requires
        before.wf(),
        after.wf(),
        has_tag(before.tags, id),
        forall|x: i64| #[trigger]
            has_tag(before.tags, x) ==> has_tag(after.tags, x) && tag(after.tags, x) == tag(
                before.tags,
                x,
            ),
    ensures
        tag_path(after.tags, id) == tag_path(before.tags, id),
    decreases rank_of(before.tags)(id),
{
    assert(has_tag(after.tags, id));
    match parent_of(before.tags, id) {
        None => {},
        Some(p) => {
            let i = lemma_tag_index(before.tags, id);
            assert(has_tag(before.tags, before.tags[i].parent_id->0));
            assert(is_rank(before.tags, rank_of(before.tags)));
            lemma_path_stays(before, after, p);
        },
    }
}

/// The identifier of a tag that was removed is not given to another.
pub proof fn law_identifiers_are_not_given_twice(
    c: CatalogModel,
    gone: i64,
    name: Seq<char>,
    category_id: Option<i64>,
    category: Option<Seq<char>>,
    parent_id: Option<i64>,
    now: i64,
)
    requires
        c.wf(),
        delete_result(c.tags, gone) is Ok,
    ensures
        ({
            let d = CatalogModel { tags: delete_result(c.tags, gone)->Ok_0, ..c };
            create_tag_result(d, name, category_id, category, parent_id, now).1 matches Ok(id)
                ==> id != gone && !has_tag(c.tags, id)
        }),
{
    let d = CatalogModel { tags: delete_result(c.tags, gone)->Ok_0, ..c };
    lemma_deleted_wf(c.categories, c.tags, c.tag_seq, gone);
    law_create_tag_keeps_the_catalog(d, name, category_id, category, parent_id, now);
    assert forall|x: i64| has_tag(c.tags, x) implies x <= c.tag_seq by {
        let i = lemma_tag_index(c.tags, x);
        assert(c.tags[i].id <= c.tag_seq);
    }
    assert(has_tag(c.tags, gone));
}

/// A new tag is handed out as it will be listed: its path is that of its parent and its
/// own name.
pub proof fn law_created_tag_is_listed_alike(
    c: CatalogModel,
    name: Seq<char>,
    category_id: Option<i64>,
    category: Option<Seq<char>>,
    parent_id: Option<i64>,
    now: i64,
)
    requires
        c.wf(),
        create_tag_result(c, name, category_id, category, parent_id, now).1 is Ok,
    ensures
        ({
            let (d, r) = create_tag_result(c, name, category_id, category, parent_id, now);
            tag_path(d.tags, r->Ok_0) == match parent_id {
                Some(p) => tag_path(c.tags, p) + " / "@ + trimmed(name),
                None => trimmed(name),
            }
        }),
{
    let (d, r) = create_tag_result(c, name, category_id, category, parent_id, now);
    law_create_tag_keeps_the_catalog(c, name, category_id, category, parent_id, now);
    lemma_home(c, category_id, category, parent_id, now);
    assert(d.tags.last().parent_id == parent_id);
    if let Some(p) = parent_id {
        lemma_path_stays(c, d, p);
    }
}

impl Catalog {
    /// The name under which the category `id` is shown.
    pub fn shown(&self, id: i64) -> (r: String)
        requires
            self@.wf(),
            has_category(self@.categories, id),
        ensures
            r@ == shown_category(category(self@.categories, id).name),
    {
        match self.category_index(id) {
            Some(k) => {
                proof {
                    lemma_category_at(self@.categories, self@.category_seq, k as int);
                }
                if same_nocase(self.categories[k].name.as_str(), "未分类") {
                    String::new()
                } else {
                    self.categories[k].name.clone()
                }
            },
            None => String::new(),
        }
    }

    /// The tag `id` as it is handed out, carried `count` times.
    pub fn record(&self, id: i64, count: i64) -> (r: TagRecord)
        requires
            self@.wf(),
            has_tag(self@.tags, id),
        ensures
            r@ == tag_record(self@, tag(self@.tags, id), count),
    {
        let path = self.path(id);
        match self.tag_index(id) {
            Some(i) => {
                proof {
                    lemma_tag_at(self@.tags, i as int);
                    assert(has_category(self@.categories, self@.tags[i as int].category_id));
                }
                let category = self.shown(self.tags[i].category_id);
                TagRecord {
                    id,
                    name: self.tags[i].name.clone(),
                    category_id: self.tags[i].category_id,
                    category,
                    parent_id: self.tags[i].parent_id,
                    path,
                    music_count: count,
                }
            },
            None => TagRecord {
                id,
                name: String::new(),
                category_id: 0,
                category: String::new(),
                parent_id: None,
                path,
                music_count: count,
            },
        }
    }

    /// The category in which a new tag is to stand.
    fn home(
        &mut self,
        category_id: Option<i64>,
        category: Option<&str>,
        parent_id: Option<i64>,
        now: i64,
    ) -> (r: Result<i64, LibraryError>)
        requires
            old(self)@.wf(),
        ensures
            match home_result(
                old(self)@,
                category_id,
                match category {
                    Some(k) => Some(k@),
                    None => None,
                },
                parent_id,
                now,
            ) {
                Ok((d, k)) => r == Ok::<i64, LibraryError>(k) && final(self)@ == d,
                Err(e) => outcome(r) == Err::<i64, ErrorModel>(e) && final(self)@ == old(self)@,
            },
    {
        match parent_id {
            Some(p) => match self.tag_index(p) {
                None => Err(Failure::Rule(Rule::NoSuchParent)),
                Some(i) => {
                    proof {
                        lemma_tag_at(self@.tags, i as int);
                    }
                    let own: i64 = self.tags[i].category_id;
                    match category_id {
                        Some(k) => if k != own {
                            Err(Failure::Rule(Rule::ParentInOtherCategory))
                        } else {
                            Ok(own)
                        },
                        None => Ok(own),
                    }
                },
            },
            None => match category_id {
                Some(k) => Ok(k),
                None => {
                    let name = match category {
                        Some(k) => category_or_uncategorized(k),
                        None => "未分类".to_string(),
                    };
                    match self.find_or_add_category(name.as_str(), now) {
                        Some(k) => Ok(k),
                        None => Err(Failure::Write(Step::CreateTagCategory, Constraint::Full)),
                    }
                },
            },
        }
    }

    /// Creates a tag: below the tag `parent_id`, or at the root of the category
    /// `category_id`, or of the one named `category`, or among the uncategorized.
    pub fn create_tag(
        &mut self,
        name: &str,
        category_id: Option<i64>,
        category: Option<&str>,
        parent_id: Option<i64>,
        now: i64,
    ) -> (r: Result<TagRecord, LibraryError>)
        requires
            old(self)@.wf(),
        ensures
            final(self)@.wf(),
            ({
                let (d, result) = create_tag_result(
                    old(self)@,
                    name@,
                    category_id,
                    match category {
                        Some(k) => Some(k@),
                        None => None,
                    },
                    parent_id,
                    now,
                );
                &&& final(self)@ == d
                &&& match result {
                    Ok(id) => r matches Ok(t) && t@ == tag_record(d, tag(d.tags, id), 0)
                        && t.id == id,
                    Err(e) => r matches Err(f) && f@ == e,
                }
            }),
    {
        let ghost asked = match category {
            Some(k) => Some(k@),
            None => None,
        };
        let ghost before = self@;
        proof {
            law_create_tag_keeps_the_catalog(before, name@, category_id, asked, parent_id, now);
        }
        let n = match validate_tag(name) {
            Ok(n) => n,
            Err(e) => {
                return Err(e);
            },
        };
        let k: i64 = match self.home(category_id, category, parent_id, now) {
            Ok(k) => k,
            Err(e) => {
                return Err(e);
            },
        };
        if self.tag_seq == i64::MAX {
            return Err(Failure::Write(Step::CreateTag, Constraint::Full));
        }
        if self.is_taken(0, k, parent_id, n.as_str()) {
            return Err(Failure::Write(Step::CreateTag, Constraint::Unique(Key::TagPlace)));
        }
        if self.category_index(k).is_none() {
            return Err(Failure::Write(Step::CreateTag, Constraint::ForeignKey));
        }
        proof {
            assert(has_category(self@.categories, k));
        }
        let id = self.push_tag(n.as_str(), k, parent_id, now);
        Ok(self.record(id, 0))
    }
}

/// A category as it is handed out.
pub struct TagCategory {
    pub id: i64,
    pub name: String,
}

/// A category as it is handed out, mathematically.
pub struct TagCategoryModel {
    pub id: i64,
    pub name: Seq<char>,
}

impl View for TagCategory {
    type V = TagCategoryModel;

    open spec fn view(&self) -> TagCategoryModel {
        TagCategoryModel { id: self.id, name: self.name@ }
    }
}

impl Ordered for TagCategory {
    open spec fn le(a: TagCategoryModel, b: TagCategoryModel) -> bool {
        text_le(nocase(a.name), nocase(b.name))
    }

    proof fn le_total(a: TagCategoryModel, b: TagCategoryModel) {
        lemma_text_le_total(nocase(a.name), nocase(b.name));
    }

    proof fn le_transitive(a: TagCategoryModel, b: TagCategoryModel, c: TagCategoryModel) {
        lemma_text_le_transitive(nocase(a.name), nocase(b.name), nocase(c.name));
    }

    fn at_most(&self, other: &Self) -> (r: bool) {
        not_after(name_key(self.name.as_str()).as_str(), name_key(other.name.as_str()).as_str())
    }
}

/// The categories as they are handed out.
pub open spec fn category_records(categories: Seq<CategoryModel>) -> Seq<TagCategoryModel> {
    categories.map_values(|c: CategoryModel| TagCategoryModel { id: c.id, name: c.name })
}

/// The names of categories.
pub open spec fn category_names(categories: Seq<TagCategoryModel>) -> Seq<Seq<char>> {
    categories.map_values(|c: TagCategoryModel| c.name)
}

/// Being a category other than that of the uncategorized tags.
pub open spec fn is_dimension() -> spec_fn(TagCategoryModel) -> bool {
    |c: TagCategoryModel| nocase(c.name) != nocase(uncategorized())
}

/// The catalog with a new category, or why it is refused.
pub open spec fn create_category_result(c: CatalogModel, name: Seq<char>, now: i64) -> Result<
    CatalogModel,
    ErrorModel,
> {
    if is_blank(name) {
        Err(Failure::Rule(Rule::EmptyCategoryName))
    } else if c.category_seq == i64::MAX {
        Err(Failure::Write(Step::CreateCategory, Constraint::Full))
    } else if has_category_named(c.categories, trimmed(name)) {
        Err(Failure::Write(Step::CreateCategory, Constraint::Unique(Key::CategoryName)))
    } else {
        Ok(with_category(c, trimmed(name), now)->0)
    }
}

/// The categories once the one named `old_name` is named `name`.
pub open spec fn categories_renamed(
    categories: Seq<CategoryModel>,
    old_name: Seq<char>,
    name: Seq<char>,
) -> Seq<CategoryModel> {
    Seq::new(
        categories.len(),
        |i: int|
            if nocase(categories[i].name) == nocase(old_name) {
                CategoryModel { name, ..categories[i] }
            } else {
                categories[i]
            },
    )
}

/// The catalog once the category named `old_name` is named `name`, or why it is refused.
/// Names that differ in ASCII case only are the same, and nothing changes then.
pub open spec fn update_category_result(c: CatalogModel, old_name: Seq<char>, name: Seq<char>) -> Result<
    CatalogModel,
    ErrorModel,
> {
    let o = trimmed(old_name);
    let n = trimmed(name);
    if is_blank(old_name) || is_blank(name) {
        Err(Failure::Rule(Rule::EmptyCategoryName))
    } else if lowered(o) == lowered(n) {
        Ok(c)
    } else if !has_category_named(c.categories, o) {
        Err(Failure::Rule(Rule::NoSuchCategory))
    } else if nocase(o) != nocase(n) && has_category_named(c.categories, n) {
        Err(Failure::Write(Step::UpdateCategory, Constraint::Unique(Key::CategoryName)))
    } else {
        Ok(CatalogModel { categories: categories_renamed(c.categories, o, n), ..c })
    }
}

/// Whether a tag stands in the category `id`.
pub open spec fn is_inhabited(tags: Seq<TagModel>, id: i64) -> bool {
    exists|i: int| 0 <= i < tags.len() && (#[trigger] tags[i]).category_id == id
}

/// Being a category other than `id`.
pub open spec fn other_category(id: i64) -> spec_fn(CategoryModel) -> bool {
    |c: CategoryModel| c.id != id
}

/// The catalog without the category named `name`, or why it is refused.
pub open spec fn delete_category_result(c: CatalogModel, name: Seq<char>) -> Result<
    CatalogModel,
    ErrorModel,
> {
    let id = category_named(c.categories, trimmed(name)).id;
    if is_blank(name) {
        Err(Failure::Rule(Rule::EmptyCategoryName))
    } else if !has_category_named(c.categories, trimmed(name)) {
        Err(Failure::Rule(Rule::NoSuchCategory))
    } else if is_inhabited(c.tags, id) {
        Err(Failure::Rule(Rule::CategoryNotEmpty))
    } else {
        Ok(CatalogModel { categories: c.categories.filter(other_category(id)), ..c })
    }
}

pub proof fn lemma_update_category(c: CatalogModel, old_name: Seq<char>, name: Seq<char>)
    requires
        c.wf(),
        update_category_result(c, old_name, name) is Ok,
    ensures
        (update_category_result(c, old_name, name)->Ok_0).wf(),
        (update_category_result(c, old_name, name)->Ok_0).tags == c.tags,
{
    let d = update_category_result(c, old_name, name)->Ok_0;
    let o = trimmed(old_name);
    let n = trimmed(name);
    if lowered(o) != lowered(n) {
        assert forall|i: int, j: int| 0 <= i < j < d.categories.len() implies (
        #[trigger] d.categories[i]).id != (#[trigger] d.categories[j]).id && nocase(
            d.categories[i].name,
        ) != nocase(d.categories[j].name) by {
            assert(c.categories[i].id != c.categories[j].id);
            if nocase(o) != nocase(n) {
                assert(nocase(c.categories[i].name) != nocase(n));
                assert(nocase(c.categories[j].name) != nocase(n));
            }
        }
        assert forall|k: i64| has_category(c.categories, k) implies has_category(
            d.categories,
            k,
        ) by {
            let i = choose|i: int| 0 <= i < c.categories.len() && #[trigger] c.categories[i].id == k;
            assert(d.categories[i].id == k);
        }
        assert forall|i: int| 0 <= i < d.tags.len() implies has_category(
            d.categories,
            (#[trigger] d.tags[i]).category_id,
        ) by {
            assert(has_category(c.categories, c.tags[i].category_id));
        }
        assert forall|i: int| 0 <= i < d.categories.len() implies 1 <= (
        #[trigger] d.categories[i]).id <= d.category_seq by {
            assert(1 <= c.categories[i].id <= c.category_seq);
        }
    }
}

/// Only a category without tags is removed, and it is gone then: no tag is lost with it,
/// and every other category stays.
pub proof fn law_deleted_category_is_gone(c: CatalogModel, name: Seq<char>)
    requires
        c.wf(),
        delete_category_result(c, name) is Ok,
    ensures
        (delete_category_result(c, name)->Ok_0).wf(),
        (delete_category_result(c, name)->Ok_0).tags == c.tags,
        !has_category_named((delete_category_result(c, name)->Ok_0).categories, trimmed(name)),
        forall|other: Seq<char>| #[trigger]
            has_category_named(c.categories, other) && nocase(other) != nocase(trimmed(name))
                ==> has_category_named(
                (delete_category_result(c, name)->Ok_0).categories,
                other,
            ),
{
    let d = delete_category_result(c, name)->Ok_0;
    let gone = category_named(c.categories, trimmed(name));
    let p = other_category(gone.id);
    let g = choose|k: int|
        0 <= k < c.categories.len() && nocase(#[trigger] c.categories[k].name) == nocase(
            trimmed(name),
        );
    assert(gone == c.categories[g]);
    assert forall|i: int, j: int| 0 <= i < j < d.categories.len() implies (
    #[trigger] d.categories[i]).id != (#[trigger] d.categories[j]).id && nocase(
        d.categories[i].name,
    ) != nocase(d.categories[j].name) by {
        let (a, b) = lemma_filter_pair(c.categories, p, i, j);
        assert(c.categories[a].id != c.categories[b].id);
    }
    assert forall|i: int| 0 <= i < d.categories.len() implies 1 <= (#[trigger] d.categories[i]).id
        <= d.category_seq by {
        let a = lemma_filter_at(c.categories, p, i);
        assert(1 <= c.categories[a].id <= c.category_seq);
    }
    assert forall|i: int| 0 <= i < d.tags.len() implies has_category(
        d.categories,
        (#[trigger] d.tags[i]).category_id,
    ) by {
        let k = c.tags[i].category_id;
        assert(has_category(c.categories, k));
        let a = choose|a: int| 0 <= a < c.categories.len() && #[trigger] c.categories[a].id == k;
        let b = lemma_filter_has(c.categories, p, a);
        assert(d.categories[b].id == k);
    }
    if has_category_named(d.categories, trimmed(name)) {
        let i = choose|i: int|
            0 <= i < d.categories.len() && nocase(#[trigger] d.categories[i].name) == nocase(
                trimmed(name),
            );
        let a = lemma_filter_at(c.categories, p, i);
        if a < g {
            assert(nocase(c.categories[a].name) != nocase(c.categories[g].name));
        } else if g < a {
            assert(nocase(c.categories[g].name) != nocase(c.categories[a].name));
        }
    }
    assert forall|other: Seq<char>| #[trigger]
        has_category_named(c.categories, other) && nocase(other) != nocase(
            trimmed(name),
        ) implies has_category_named(d.categories, other) by {
        let a = choose|a: int|
            0 <= a < c.categories.len() && nocase(#[trigger] c.categories[a].name) == nocase(other);
        if a < g {
            assert(c.categories[a].id != c.categories[g].id);
        } else if g < a {
            assert(c.categories[g].id != c.categories[a].id);
        }
        let b = lemma_filter_has(c.categories, p, a);
        assert(nocase(d.categories[b].name) == nocase(other));
    }
}

impl Catalog {
    /// Creates a category.
    pub fn create_tag_category(&mut self, name: &str, now: i64) -> (r: Result<(), LibraryError>)
        requires
            old(self)@.wf(),
        ensures
            final(self)@.wf(),
            match create_category_result(old(self)@, name@, now) {
                Ok(c) => r is Ok && final(self)@ == c,
                Err(e) => outcome(r) == Err::<(), ErrorModel>(e) && final(self)@ == old(self)@,
            },
    {
        let name = trim(name);
        if name.as_str().is_empty() {
            return Err(Failure::Rule(Rule::EmptyCategoryName));
        }
        if self.category_seq == i64::MAX {
            return Err(Failure::Write(Step::CreateCategory, Constraint::Full));
        }
        if self.category_named_index(name.as_str()).is_some() {
            proof {
                assert(has_category_named(self@.categories, name@));
            }
            return Err(Failure::Write(Step::CreateCategory, Constraint::Unique(Key::CategoryName)));
        }
        let id = self.find_or_add_category(name.as_str(), now);
        Ok(())
    }

    /// Gives the category named `old_name` the name `name`.
    pub fn update_tag_category(&mut self, old_name: &str, name: &str) -> (r: Result<
        (),
        LibraryError,
    >)
        requires
            old(self)@.wf(),
        ensures
            final(self)@.wf(),
            match update_category_result(old(self)@, old_name@, name@) {
                Ok(c) => r is Ok && final(self)@ == c,
                Err(e) => outcome(r) == Err::<(), ErrorModel>(e) && final(self)@ == old(self)@,
            },
    {
        let o = trim(old_name);
        let n = trim(name);
        if o.as_str().is_empty() || n.as_str().is_empty() {
            return Err(Failure::Rule(Rule::EmptyCategoryName));
        }
        if same_but_for_case(o.as_str(), n.as_str()) {
            return Ok(());
        }
        let at: usize = match self.category_named_index(o.as_str()) {
            Some(i) => i,
            None => {
                return Err(Failure::Rule(Rule::NoSuchCategory));
            },
        };
        proof {
            assert(nocase(self@.categories[at as int].name) == nocase(o@));
        }
        if !same_nocase(o.as_str(), n.as_str()) && self.category_named_index(
            n.as_str(),
        ).is_some() {
            proof {
                assert(has_category_named(self@.categories, n@));
            }
            return Err(Failure::Write(Step::UpdateCategory, Constraint::Unique(Key::CategoryName)));
        }
        let ghost before = self@;
        proof {
            lemma_update_category(before, old_name@, name@);
        }
        let mut row = self.categories[at].clone();
        row.name = n;
        self.categories.set(at, row);
        proof {
            let after = categories_renamed(before.categories, o@, n@);
            assert forall|k: int| 0 <= k < after.len() implies models(self.categories@)[k]
                == after[k] by {
                if k < at {
                    assert(nocase(before.categories[k].name) != nocase(
                        before.categories[at as int].name,
                    ));
                } else if at < k {
                    assert(nocase(before.categories[at as int].name) != nocase(
                        before.categories[k].name,
                    ));
                }
            }
            assert(models(self.categories@) =~= after);
        }
        Ok(())
    }

    /// Whether a tag stands in the category `id`.
    fn has_tags_in(&self, id: i64) -> (b: bool)
        ensures
            b == is_inhabited(self@.tags, id),
    {
        let mut i: usize = 0;
        while i < self.tags.len()
            invariant
                i <= self.tags@.len(),
                forall|j: int| 0 <= j < i ==> (#[trigger] self@.tags[j]).category_id != id,
            decreases self.tags@.len() - i,
        {
            if self.tags[i].category_id == id {
                assert(self@.tags[i as int].category_id == id);
                return true;
            }
            i = i + 1;
        }
        false
    }

    /// Removes the category named `name`, if no tag stands in it.
    pub fn delete_tag_category(&mut self, name: &str) -> (r: Result<(), LibraryError>)
        requires
            old(self)@.wf(),
        ensures
            final(self)@.wf(),
            match delete_category_result(old(self)@, name@) {
                Ok(c) => r is Ok && final(self)@ == c,
                Err(e) => outcome(r) == Err::<(), ErrorModel>(e) && final(self)@ == old(self)@,
            },
    {
        let t = trim(name);
        if t.as_str().is_empty() {
            return Err(Failure::Rule(Rule::EmptyCategoryName));
        }
        let at: usize = match self.category_named_index(t.as_str()) {
            Some(i) => i,
            None => {
                return Err(Failure::Rule(Rule::NoSuchCategory));
            },
        };
        let id: i64 = self.categories[at].id;
        proof {
            lemma_category_at(self@.categories, self@.category_seq, at as int);
            let k = choose|k: int|
                0 <= k < self@.categories.len() && nocase(#[trigger] self@.categories[k].name)
                    == nocase(t@);
            assert(nocase(self@.categories[at as int].name) == nocase(t@));
            assert(k == at);
        }
        if self.has_tags_in(id) {
            return Err(Failure::Rule(Rule::CategoryNotEmpty));
        }
        proof {
            law_deleted_category_is_gone(self@, name@);
        }
        let keep = |c: &CategoryRow| -> (b: bool)
            ensures
                b == (c@.id != id),
            { c.id != id };
        retain(&mut self.categories, Ghost(other_category(id)), keep);
        Ok(())
    }

    /// The categories as they are handed out.
    fn category_rows(&self) -> (r: Vec<TagCategory>)
        ensures
            models(r@) == category_records(self@.categories),
    {
        let mut r: Vec<TagCategory> = Vec::new();
        let mut i: usize = 0;
        while i < self.categories.len()
            invariant
                i <= self.categories@.len(),
                r@.len() == i,
                forall|j: int|
                    0 <= j < i ==> (#[trigger] r@[j])@ == category_records(self@.categories)[j],
            decreases self.categories@.len() - i,
        {
            r.push(
                TagCategory { id: self.categories[i].id, name: self.categories[i].name.clone() },
            );
            i = i + 1;
        }
        proof {
            assert(models(r@) =~= category_records(self@.categories));
        }
        r
    }

    /// The categories, by name.
    pub fn list_tag_category_records(&self) -> (r: Vec<TagCategory>)
        ensures
            in_order::<TagCategory>(models(r@)),
            models(r@).to_multiset() == category_records(self@.categories).to_multiset(),
    {
        sort(self.category_rows())
    }

    /// The names of the categories but that of the uncategorized tags, in order.
    pub fn list_tag_categories(&self) -> (r: Vec<String>)
        ensures
            exists|c: Seq<TagCategoryModel>|
                in_order::<TagCategory>(c) && c.to_multiset() == category_records(
                    self@.categories,
                ).filter(is_dimension()).to_multiset() && models(r@) == #[trigger] category_names(c),
    {
        let mut rows = self.category_rows();
        let keep = |c: &TagCategory| -> (b: bool)
            ensures
                b == (nocase(c@.name) != nocase(uncategorized())),
            { !same_nocase(c.name.as_str(), "未分类") };
        retain(&mut rows, Ghost(is_dimension()), keep);
        let sorted = sort(rows);
        let ghost c = models(sorted@);
        let mut r: Vec<String> = Vec::new();
        let mut i: usize = 0;
        while i < sorted.len()
            invariant
                i <= sorted@.len(),
                r@.len() == i,
                c == models(sorted@),
                forall|j: int| 0 <= j < i ==> (#[trigger] r@[j])@ == category_names(c)[j],
            decreases sorted@.len() - i,
        {
            r.push(sorted[i].name.clone());
            i = i + 1;
        }
        proof {
            assert(models(r@) =~= category_names(c));
        }
        r
    }
}

} // verus!

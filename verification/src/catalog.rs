//! The catalog of tags: filter dimensions ("categories"), and in each of them tags
//! that form trees.
use vstd::prelude::*;

use crate::text::nocase;
use crate::text::same_nocase;

verus! {

/// The views of `rows`, in order.
pub open spec fn models<R: View>(rows: Seq<R>) -> Seq<R::V> {
    rows.map_values(|r: R| r@)
}

/// A filter dimension.
pub struct CategoryRow {
    pub id: i64,
    pub name: String,
    pub created_at: i64,
}

/// A filter dimension, mathematically.
pub struct CategoryModel {
    pub id: i64,
    pub name: Seq<char>,
    pub created_at: i64,
}

impl View for CategoryRow {
    type V = CategoryModel;

    open spec fn view(&self) -> CategoryModel {
        CategoryModel { id: self.id, name: self.name@, created_at: self.created_at }
    }
}

impl Clone for CategoryRow {
    fn clone(&self) -> (r: Self)
        ensures
            r == *self,
    {
        CategoryRow { id: self.id, name: self.name.clone(), created_at: self.created_at }
    }
}

/// A tag: at the root of its category, or below another tag.
pub struct TagRow {
    pub id: i64,
    pub name: String,
    pub category_id: i64,
    pub parent_id: Option<i64>,
    pub created_at: i64,
}

/// A tag, mathematically.
pub struct TagModel {
    pub id: i64,
    pub name: Seq<char>,
    pub category_id: i64,
    pub parent_id: Option<i64>,
    pub created_at: i64,
}

impl View for TagRow {
    type V = TagModel;

    open spec fn view(&self) -> TagModel {
        TagModel {
            id: self.id,
            name: self.name@,
            category_id: self.category_id,
            parent_id: self.parent_id,
            created_at: self.created_at,
        }
    }
}

impl Clone for TagRow {
    fn clone(&self) -> (r: Self)
        ensures
            r == *self,
    {
        TagRow {
            id: self.id,
            name: self.name.clone(),
            category_id: self.category_id,
            parent_id: self.parent_id,
            created_at: self.created_at,
        }
    }
}

/// The categories and tags, with the largest identifier that either table ever gave.
pub struct Catalog {
    pub categories: Vec<CategoryRow>,
    pub category_seq: i64,
    pub tags: Vec<TagRow>,
    pub tag_seq: i64,
}

/// The catalog, mathematically.
#[verifier::ext_equal]
pub struct CatalogModel {
    pub categories: Seq<CategoryModel>,
    pub category_seq: i64,
    pub tags: Seq<TagModel>,
    pub tag_seq: i64,
}

impl View for Catalog {
    type V = CatalogModel;

    open spec fn view(&self) -> CatalogModel {
        CatalogModel {
            categories: models(self.categories@),
            category_seq: self.category_seq,
            tags: models(self.tags@),
            tag_seq: self.tag_seq,
        }
    }
}

impl Clone for Catalog {
    fn clone(&self) -> (r: Self)
        ensures
            r@ == self@,
    {
        let categories = self.categories.clone();
        let tags = self.tags.clone();
        proof {
            assert(categories@ =~= self.categories@);
            assert(tags@ =~= self.tags@);
        }
        Catalog { categories, category_seq: self.category_seq, tags, tag_seq: self.tag_seq }
    }
}

/// Whether a category has the identifier `id`.
pub open spec fn has_category(categories: Seq<CategoryModel>, id: i64) -> bool {
    exists|i: int| 0 <= i < categories.len() && #[trigger] categories[i].id == id
}

/// The category with the identifier `id`.
pub open spec fn category(categories: Seq<CategoryModel>, id: i64) -> CategoryModel {
    categories[choose|i: int| 0 <= i < categories.len() && #[trigger] categories[i].id == id]
}

/// Whether a category has the name `name`, ASCII case aside.
pub open spec fn has_category_named(categories: Seq<CategoryModel>, name: Seq<char>) -> bool {
    exists|i: int|
        0 <= i < categories.len() && nocase(#[trigger] categories[i].name) == nocase(name)
}

/// The category with the name `name`, ASCII case aside.
pub open spec fn category_named(categories: Seq<CategoryModel>, name: Seq<char>) -> CategoryModel {
    categories[choose|i: int|
        0 <= i < categories.len() && nocase(#[trigger] categories[i].name) == nocase(name)]
}

/// Whether a tag has the identifier `id`.
pub open spec fn has_tag(tags: Seq<TagModel>, id: i64) -> bool {
    exists|i: int| 0 <= i < tags.len() && #[trigger] tags[i].id == id
}

/// The tag with the identifier `id`.
pub open spec fn tag(tags: Seq<TagModel>, id: i64) -> TagModel {
    tags[choose|i: int| 0 <= i < tags.len() && #[trigger] tags[i].id == id]
}

/// The tag above the tag `id`, if there is one.
pub open spec fn parent_of(tags: Seq<TagModel>, id: i64) -> Option<i64> {
    if has_tag(tags, id) {
        tag(tags, id).parent_id
    } else {
        None
    }
}

/// Whether two tags stand at the same place under the same name, ASCII case aside.
pub open spec fn same_place(a: TagModel, b: TagModel) -> bool {
    &&& a.category_id == b.category_id
    &&& a.parent_id == b.parent_id
    &&& nocase(a.name) == nocase(b.name)
}

/// No two tags stand at the same place under the same name.
pub open spec fn siblings_unique(tags: Seq<TagModel>) -> bool {
    forall|i: int, j: int|
        0 <= i < j < tags.len() ==> !same_place(#[trigger] tags[i], #[trigger] tags[j])
}

/// No two tags have the same identifier.
pub open spec fn tag_ids_unique(tags: Seq<TagModel>) -> bool {
    forall|i: int, j: int|
        0 <= i < j < tags.len() ==> (#[trigger] tags[i]).id != (#[trigger] tags[j]).id
}

/// `rank` falls along every step from a tag to its parent.
pub open spec fn is_rank(tags: Seq<TagModel>, rank: spec_fn(i64) -> nat) -> bool {
    forall|i: int|
        0 <= i < tags.len() && (#[trigger] tags[i]).parent_id is Some ==> rank(
            tags[i].parent_id->0,
        ) < rank(tags[i].id)
}

/// No tag is above itself.
pub open spec fn acyclic(tags: Seq<TagModel>) -> bool {
    exists|rank: spec_fn(i64) -> nat| is_rank(tags, rank)
}

/// A number for every tag that falls along every step from a tag to its parent.
pub open spec fn rank_of(tags: Seq<TagModel>) -> spec_fn(i64) -> nat {
    choose|rank: spec_fn(i64) -> nat| is_rank(tags, rank)
}

/// Whether the tag `above` is the parent of the tag `id`, or above that parent.
pub open spec fn descends(tags: Seq<TagModel>, id: i64, above: i64) -> bool
    decreases rank_of(tags)(id),
    when acyclic(tags)
{
    match parent_of(tags, id) {
        Some(p) => p == above || descends(tags, p, above),
        None => false,
    }
}

/// The names from the root down to the tag `id`.
pub open spec fn tag_path(tags: Seq<TagModel>, id: i64) -> Seq<char>
    decreases rank_of(tags)(id),
    when acyclic(tags)
{
    match parent_of(tags, id) {
        Some(p) => tag_path(tags, p) + " / "@ + tag(tags, id).name,
        None => tag(tags, id).name,
    }
}

/// Categories have distinct names and identifiers, none above the largest given.
pub open spec fn categories_wf(categories: Seq<CategoryModel>, seq: i64) -> bool {
    &&& 0 <= seq
    &&& forall|i: int|
        0 <= i < categories.len() ==> 1 <= (#[trigger] categories[i]).id <= seq
    &&& forall|i: int, j: int|
        0 <= i < j < categories.len() ==> (#[trigger] categories[i]).id != (
        #[trigger] categories[j]).id && nocase(categories[i].name) != nocase(categories[j].name)
}

/// Tags have distinct identifiers, none above the largest given, stand in categories
/// that exist and below tags that exist, and none is above itself.
pub open spec fn tags_linked(
    categories: Seq<CategoryModel>,
    tags: Seq<TagModel>,
    seq: i64,
) -> bool {
    &&& 0 <= seq
    &&& forall|i: int| 0 <= i < tags.len() ==> 1 <= (#[trigger] tags[i]).id <= seq
    &&& forall|i: int|
        0 <= i < tags.len() ==> has_category(categories, (#[trigger] tags[i]).category_id)
    &&& forall|i: int|
        0 <= i < tags.len() && (#[trigger] tags[i]).parent_id is Some ==> has_tag(
            tags,
            tags[i].parent_id->0,
        )
    &&& tag_ids_unique(tags)
    &&& acyclic(tags)
}

/// Tags are linked to what exists, and stand at places of their own.
pub open spec fn tags_wf(
    categories: Seq<CategoryModel>,
    tags: Seq<TagModel>,
    seq: i64,
) -> bool {
    &&& tags_linked(categories, tags, seq)
    &&& siblings_unique(tags)
}

/// Every tag below another stands in the category of the tag above it.
pub open spec fn aligned(tags: Seq<TagModel>) -> bool {
    forall|i: int|
        0 <= i < tags.len() && (#[trigger] tags[i]).parent_id is Some ==> tags[i].category_id
            == tag(tags, tags[i].parent_id->0).category_id
}

impl CatalogModel {
    /// What the tables of the catalog always satisfy.
    pub open spec fn wf(self) -> bool {
        &&& categories_wf(self.categories, self.category_seq)
        &&& tags_wf(self.categories, self.tags, self.tag_seq)
    }
}

pub proof fn lemma_tag_at(tags: Seq<TagModel>, i: int)
    requires
        tag_ids_unique(tags),
        0 <= i < tags.len(),
    ensures
        has_tag(tags, tags[i].id),
        tag(tags, tags[i].id) == tags[i],
{
    let k = choose|k: int| 0 <= k < tags.len() && #[trigger] tags[k].id == tags[i].id;
    assert(tags[i].id == tags[i].id);
    assert(0 <= k < tags.len() && tags[k].id == tags[i].id);
    if k < i {
        assert(tags[k].id != tags[i].id);
    } else if i < k {
        assert(tags[i].id != tags[k].id);
    }
}

pub proof fn lemma_tag_index(tags: Seq<TagModel>, id: i64) -> (i: int)
    requires
        has_tag(tags, id),
    ensures
        0 <= i < tags.len(),
        tags[i].id == id,
        tag(tags, id) == tags[i],
{
    choose|i: int| 0 <= i < tags.len() && #[trigger] tags[i].id == id
}

pub proof fn lemma_category_at(categories: Seq<CategoryModel>, seq: i64, i: int)
    requires
        categories_wf(categories, seq),
        0 <= i < categories.len(),
    ensures
        has_category(categories, categories[i].id),
        category(categories, categories[i].id) == categories[i],
        has_category_named(categories, categories[i].name),
        category_named(categories, categories[i].name) == categories[i],
{
    let id = categories[i].id;
    let name = categories[i].name;
    assert(categories[i].id == id);
    let k = choose|k: int| 0 <= k < categories.len() && #[trigger] categories[k].id == id;
    assert(k == i);
    assert(nocase(categories[i].name) == nocase(name));
    let m = choose|m: int|
        0 <= m < categories.len() && nocase(#[trigger] categories[m].name) == nocase(name);
    assert(m == i);
}

impl Catalog {
    /// The position of the tag with the identifier `id`.
    pub fn tag_index(&self, id: i64) -> (r: Option<usize>)
        ensures
            match r {
                Some(i) => i < self@.tags.len() && self@.tags[i as int].id == id,
                None => !has_tag(self@.tags, id),
            },
    {
        let mut i: usize = 0;
        while i < self.tags.len()
            invariant
                i <= self.tags@.len(),
                forall|j: int| 0 <= j < i ==> (#[trigger] self@.tags[j]).id != id,
            decreases self.tags@.len() - i,
        {
            if self.tags[i].id == id {
                return Some(i);
            }
            i = i + 1;
        }
        None
    }

    /// The position of the category with the identifier `id`.
    pub fn category_index(&self, id: i64) -> (r: Option<usize>)
        ensures
            match r {
                Some(i) => i < self@.categories.len() && self@.categories[i as int].id == id,
                None => !has_category(self@.categories, id),
            },
    {
        let mut i: usize = 0;
        while i < self.categories.len()
            invariant
                i <= self.categories@.len(),
                forall|j: int| 0 <= j < i ==> (#[trigger] self@.categories[j]).id != id,
            decreases self.categories@.len() - i,
        {
            if self.categories[i].id == id {
                return Some(i);
            }
            i = i + 1;
        }
        None
    }

    /// The position of the category with the name `name`, ASCII case aside.
    pub fn category_named_index(&self, name: &str) -> (r: Option<usize>)
        ensures
            match r {
                Some(i) => i < self@.categories.len() && nocase(self@.categories[i as int].name)
                    == nocase(name@),
                None => !has_category_named(self@.categories, name@),
            },
    {
        let mut i: usize = 0;
        while i < self.categories.len()
            invariant
                i <= self.categories@.len(),
                forall|j: int|
                    0 <= j < i ==> nocase(#[trigger] self@.categories[j].name) != nocase(name@),
            decreases self.categories@.len() - i,
        {
            if same_nocase(self.categories[i].name.as_str(), name) {
                return Some(i);
            }
            i = i + 1;
        }
        None
    }

    /// Whether the tag `above` is the parent of the tag `id`, or above that parent.
    pub fn is_below(&self, id: i64, above: i64) -> (b: bool)
        requires
            tag_ids_unique(self@.tags),
            acyclic(self@.tags),
        ensures
            b == descends(self@.tags, id, above),
    {
        let mut cur: i64 = id;
        loop
            invariant
                tag_ids_unique(self@.tags),
                acyclic(self@.tags),
                descends(self@.tags, id, above) == descends(self@.tags, cur, above),
            decreases rank_of(self@.tags)(cur),
        {
            match self.tag_index(cur) {
                None => {
                    return false;
                },
                Some(i) => {
                    proof {
                        lemma_tag_at(self@.tags, i as int);
                    }
                    match self.tags[i].parent_id {
                        None => {
                            return false;
                        },
                        Some(p) => {
                            if p == above {
                                return true;
                            }
                            cur = p;
                        },
                    }
                },
            }
        }
    }

    /// The names from the root down to the tag `id`, with " / " between them.
    pub fn path(&self, id: i64) -> (r: String)
        requires
            tags_wf(self@.categories, self@.tags, self@.tag_seq),
            has_tag(self@.tags, id),
        ensures
            r@ == tag_path(self@.tags, id),
        decreases rank_of(self@.tags)(id),
    {
        match self.tag_index(id) {
            None => String::new(),
            Some(i) => {
                proof {
                    lemma_tag_at(self@.tags, i as int);
                    assert(is_rank(self@.tags, rank_of(self@.tags)));
                }
                match self.tags[i].parent_id {
                    None => self.tags[i].name.clone(),
                    Some(p) => {
                        let mut r = self.path(p);
                        r.append(" / ");
                        r.append(self.tags[i].name.as_str());
                        r
                    },
                }
            },
        }
    }
}

} // verus!

//! Moving, renaming and removing tags of the tree.
use vstd::prelude::*;

use crate::catalog::acyclic;
use crate::catalog::aligned;
use crate::catalog::category_named;
use crate::catalog::descends;
use crate::catalog::has_category;
use crate::catalog::has_category_named;
use crate::catalog::has_tag;
use crate::catalog::is_rank;
use crate::catalog::lemma_category_at;
use crate::catalog::lemma_tag_at;
use crate::catalog::lemma_tag_index;
use crate::catalog::models;
use crate::catalog::parent_of;
use crate::catalog::rank_of;
use crate::catalog::same_place;
use crate::catalog::siblings_unique;
use crate::catalog::tag;
use crate::catalog::tag_ids_unique;
use crate::catalog::tags_wf;
use crate::catalog::Catalog;
use crate::catalog::CatalogModel;
use crate::catalog::CategoryModel;
use crate::catalog::CategoryRow;
use crate::catalog::TagModel;
use crate::catalog::TagRow;
use crate::failure::outcome;
use crate::failure::Constraint;
use crate::failure::ErrorModel;
use crate::failure::Failure;
use crate::failure::Key;
use crate::failure::LibraryError;
use crate::failure::Rule;
use crate::failure::Step;
use crate::rows::lemma_filter_at;
use crate::rows::lemma_filter_has;
use crate::rows::lemma_filter_pair;
use crate::rows::retain;
use crate::text::is_blank;
use crate::text::nocase;
use crate::text::same_nocase;
use crate::text::trim;
use crate::text::trimmed;

verus! {

/// The name of the category for tags that nobody assigned to one.
pub open spec fn uncategorized() -> Seq<char> {
    "未分类"@
}

/// Whether a tag other than `id` stands at the place given, under the name given,
/// ASCII case aside.
pub open spec fn taken(
    tags: Seq<TagModel>,
    id: i64,
    category: i64,
    parent: Option<i64>,
    name: Seq<char>,
) -> bool {
    exists|i: int|
        0 <= i < tags.len() && (#[trigger] tags[i]).id != id && tags[i].category_id == category
            && tags[i].parent_id == parent && nocase(tags[i].name) == nocase(name)
}

/// The tag `t` once the tag `id` stands below `parent` in `category`: that tag is
/// moved, and where `follow` holds those below it change category with it.
pub open spec fn placed_tag(
    tags: Seq<TagModel>,
    t: TagModel,
    id: i64,
    parent: Option<i64>,
    category: i64,
    follow: bool,
) -> TagModel {
    if t.id == id {
        TagModel { parent_id: parent, category_id: category, ..t }
    } else if follow && descends(tags, t.id, id) {
        TagModel { category_id: category, ..t }
    } else {
        t
    }
}

/// The tags once the tag `id` stands below `parent` in `category`.
pub open spec fn placed(
    tags: Seq<TagModel>,
    id: i64,
    parent: Option<i64>,
    category: i64,
    follow: bool,
) -> Seq<TagModel> {
    Seq::new(tags.len(), |i: int| placed_tag(tags, tags[i], id, parent, category, follow))
}

/// The category that a move of the tag `id` leads to, or why there is no such move.
/// Below a parent it is the parent's; at the root it is the one asked for, and where
/// none is asked for, the tag stays in its own.
pub open spec fn move_target(
    c: CatalogModel,
    id: i64,
    parent: Option<i64>,
    category: Option<i64>,
) -> Result<i64, ErrorModel> {
    if parent == Some(id) {
        Err(Failure::Rule(Rule::MoveToSelf))
    } else if !has_tag(c.tags, id) {
        Err(Failure::Rule(Rule::NoSuchTag))
    } else {
        match parent {
            Some(p) => if !has_tag(c.tags, p) {
                Err(Failure::Rule(Rule::NoSuchParent))
            } else if descends(c.tags, p, id) {
                Err(Failure::Rule(Rule::MoveIntoDescendant))
            } else {
                Ok(tag(c.tags, p).category_id)
            },
            None => match category {
                Some(k) => Ok(k),
                None => Ok(tag(c.tags, id).category_id),
            },
        }
    }
}

/// The tags after a move of the tag `id`, or why it is refused.
pub open spec fn move_result(
    c: CatalogModel,
    id: i64,
    parent: Option<i64>,
    category: Option<i64>,
) -> Result<Seq<TagModel>, ErrorModel> {
    match move_target(c, id, parent, category) {
        Err(e) => Err(e),
        Ok(target) => {
            let t = tag(c.tags, id);
            let moved = placed(c.tags, id, parent, target, target != t.category_id);
            if taken(c.tags, id, target, parent, t.name) {
                Err(Failure::NameTaken(t.name))
            } else if !has_category(c.categories, target) {
                Err(Failure::Write(Step::MoveTag, Constraint::ForeignKey))
            } else if !siblings_unique(moved) {
                Err(Failure::Write(Step::MoveSubtree, Constraint::Unique(Key::TagPlace)))
            } else {
                Ok(moved)
            }
        },
    }
}

/// The tags once the children of the tag `id` stand where that tag stands.
pub open spec fn lifted(tags: Seq<TagModel>, id: i64) -> Seq<TagModel> {
    Seq::new(
        tags.len(),
        |i: int|
            if tags[i].parent_id == Some(id) {
                TagModel { parent_id: parent_of(tags, id), ..tags[i] }
            } else {
                tags[i]
            },
    )
}

/// Being a tag other than `id`.
pub open spec fn other_tag(id: i64) -> spec_fn(TagModel) -> bool {
    |t: TagModel| t.id != id
}

/// The tags after the removal of the tag `id`, or why it is refused.
pub open spec fn delete_result(tags: Seq<TagModel>, id: i64) -> Result<Seq<TagModel>, ErrorModel> {
    if !has_tag(tags, id) {
        Err(Failure::Rule(Rule::NoSuchTag))
    } else if !siblings_unique(lifted(tags, id)) {
        Err(Failure::Write(Step::LiftChildren, Constraint::Unique(Key::TagPlace)))
    } else {
        Ok(lifted(tags, id).filter(other_tag(id)))
    }
}

/// The tags once the tag `id` has the name `name`.
pub open spec fn renamed(tags: Seq<TagModel>, id: i64, name: Seq<char>) -> Seq<TagModel> {
    Seq::new(
        tags.len(),
        |i: int|
            if tags[i].id == id {
                TagModel { name, ..tags[i] }
            } else {
                tags[i]
            },
    )
}

/// The name of a category as it is looked up: trimmed, and where nothing is left,
/// that of the uncategorized tags.
pub open spec fn category_name(name: Seq<char>) -> Seq<char> {
    if is_blank(name) {
        uncategorized()
    } else {
        trimmed(name)
    }
}

/// The catalog with a category of the name `name`, which is new where none had that
/// name; `None` where the identifiers have run out. An identifier is drawn before the
/// name is looked up, and is lost where the category is there already.
pub open spec fn with_category(c: CatalogModel, name: Seq<char>, now: i64) -> Option<
    CatalogModel,
> {
    if c.category_seq == i64::MAX {
        None
    } else {
        let id = (c.category_seq + 1) as i64;
        Some(
            CatalogModel {
                categories: if has_category_named(c.categories, name) {
                    c.categories
                } else {
                    c.categories.push(CategoryModel { id, name, created_at: now })
                },
                category_seq: id,
                ..c
            },
        )
    }
}

/// The catalog after a move of the tag `id` to the root of the category named
/// `category`, which is new where none had that name; or why it is refused.
pub open spec fn root_result(c: CatalogModel, id: i64, category: Seq<char>, now: i64) -> Result<
    CatalogModel,
    ErrorModel,
> {
    match with_category(c, category_name(category), now) {
        None => Err(Failure::Write(Step::CreateTagCategory, Constraint::Full)),
        Some(d) => {
            let t = tag(c.tags, id);
            let target = category_named(d.categories, category_name(category)).id;
            let moved = placed(c.tags, id, None, target, target != t.category_id);
            if taken(c.tags, id, target, None, t.name) {
                Err(Failure::NameTaken(t.name))
            } else if !siblings_unique(moved) {
                Err(Failure::Write(Step::MoveSubtree, Constraint::Unique(Key::TagPlace)))
            } else {
                Ok(CatalogModel { tags: moved, ..d })
            }
        },
    }
}

/// A name as a tag may have it: trimmed; and that nothing is left of it, if nothing is.
pub open spec fn tag_name_result(name: Seq<char>) -> Result<Seq<char>, ErrorModel> {
    if is_blank(name) {
        Err(Failure::Rule(Rule::EmptyTagName))
    } else {
        Ok(trimmed(name))
    }
}

/// The catalog after a change of the name of the tag `id`, and where a category is
/// named, after its move to the root of that category; or why it is refused.
pub open spec fn update_result(
    c: CatalogModel,
    id: i64,
    name: Seq<char>,
    category: Option<Seq<char>>,
    now: i64,
) -> Result<CatalogModel, ErrorModel> {
    match tag_name_result(name) {
        Err(e) => Err(e),
        Ok(n) => {
            let tags = renamed(c.tags, id, n);
            if !has_tag(c.tags, id) {
                Err(Failure::Rule(Rule::NoSuchTag))
            } else if !siblings_unique(tags) {
                Err(Failure::Write(Step::UpdateTag, Constraint::Unique(Key::TagPlace)))
            } else {
                match category {
                    None => Ok(CatalogModel { tags, ..c }),
                    Some(k) => root_result(CatalogModel { tags, ..c }, id, k, now),
                }
            }
        },
    }
}

/// With the same identifiers in the same order, the same tags exist.
pub proof fn lemma_same_ids(a: Seq<TagModel>, b: Seq<TagModel>)
    requires
        a.len() == b.len(),
        forall|i: int| 0 <= i < a.len() ==> (#[trigger] a[i]).id == (#[trigger] b[i]).id,
    ensures
        forall|id: i64| has_tag(a, id) <==> has_tag(b, id),
        tag_ids_unique(a) ==> tag_ids_unique(b),
{
    assert forall|id: i64| has_tag(a, id) <==> has_tag(b, id) by {
        if has_tag(a, id) {
            let i = lemma_tag_index(a, id);
            assert(b[i].id == id);
        }
        if has_tag(b, id) {
            let i = lemma_tag_index(b, id);
            assert(a[i].id == id);
        }
    }
    if tag_ids_unique(a) {
        assert forall|i: int, j: int| 0 <= i < j < b.len() implies (#[trigger] b[i]).id != (
        #[trigger] b[j]).id by {
            assert(a[i].id != a[j].id);
        }
    }
}

proof fn lemma_placed_acyclic(
    tags: Seq<TagModel>,
    id: i64,
    parent: Option<i64>,
    category: i64,
    follow: bool,
)
    requires
        tag_ids_unique(tags),
        acyclic(tags),
        has_tag(tags, id),
        parent matches Some(p) ==> p != id && !descends(tags, p, id),
    ensures
        acyclic(placed(tags, id, parent, category, follow)),
{
    let after = placed(tags, id, parent, category, follow);
    let rank = rank_of(tags);
    assert(is_rank(tags, rank));
    let shift: nat = match parent {
        Some(p) => rank(p) + 1,
        None => 0,
    };
    let rerank = |x: i64|
        if x == id || descends(tags, x, id) {
            rank(x) + shift
        } else {
            rank(x)
        };
    assert forall|i: int|
        0 <= i < after.len() && (#[trigger] after[i]).parent_id is Some implies rerank(
        after[i].parent_id->0,
    ) < rerank(after[i].id) by {
        let t = tags[i];
        lemma_tag_at(tags, i);
        if t.id != id {
            assert(parent_of(tags, t.id) == t.parent_id);
        }
    }
    assert(is_rank(after, rerank));
}

pub proof fn lemma_placed_wf(
    categories: Seq<CategoryModel>,
    tags: Seq<TagModel>,
    seq: i64,
    id: i64,
    parent: Option<i64>,
    category: i64,
    follow: bool,
)
    requires
        tags_wf(categories, tags, seq),
        has_tag(tags, id),
        parent matches Some(p) ==> has_tag(tags, p) && p != id && !descends(tags, p, id),
        has_category(categories, category),
        siblings_unique(placed(tags, id, parent, category, follow)),
    ensures
        tags_wf(categories, placed(tags, id, parent, category, follow), seq),
{
    let after = placed(tags, id, parent, category, follow);
    lemma_same_ids(tags, after);
    lemma_placed_acyclic(tags, id, parent, category, follow);
    assert forall|i: int| 0 <= i < after.len() implies has_category(
        categories,
        (#[trigger] after[i]).category_id,
    ) by {
        assert(has_category(categories, tags[i].category_id));
    }
    assert forall|i: int|
        0 <= i < after.len() && (#[trigger] after[i]).parent_id is Some implies has_tag(
        after,
        after[i].parent_id->0,
    ) by {
        let t = tags[i];
        if t.id != id {
            assert(has_tag(tags, t.parent_id->0));
        }
    }
    assert forall|i: int| 0 <= i < after.len() implies 1 <= (#[trigger] after[i]).id <= seq by {
        assert(1 <= tags[i].id <= seq);
    }
}

/// Whatever is moved where, every tag below another stands in the category of the tag
/// above it, if it was so before: a tag takes those below it along.
pub proof fn law_move_keeps_categories_aligned(
    c: CatalogModel,
    id: i64,
    parent: Option<i64>,
    category: Option<i64>,
)
    requires
        c.wf(),
        aligned(c.tags),
        move_result(c, id, parent, category) is Ok,
    ensures
        aligned(move_result(c, id, parent, category)->Ok_0),
{
    let target = move_target(c, id, parent, category)->Ok_0;
    lemma_placed_aligned(c.categories, c.tags, c.tag_seq, id, parent, target);
}

pub proof fn lemma_placed_aligned(
    categories: Seq<CategoryModel>,
    tags: Seq<TagModel>,
    seq: i64,
    id: i64,
    parent: Option<i64>,
    target: i64,
)
    requires
        tags_wf(categories, tags, seq),
        aligned(tags),
        has_tag(tags, id),
        parent matches Some(p) ==> has_tag(tags, p) && p != id && !descends(tags, p, id) && tag(
            tags,
            p,
        ).category_id == target,
    ensures
        aligned(placed(tags, id, parent, target, target != tag(tags, id).category_id)),
{
    let follow = target != tag(tags, id).category_id;
    let after = placed(tags, id, parent, target, follow);
    lemma_same_ids(tags, after);
    assert forall|i: int|
        0 <= i < after.len() && (#[trigger] after[i]).parent_id is Some implies after[i].category_id
        == tag(after, after[i].parent_id->0).category_id by {
        let t = tags[i];
        lemma_tag_at(tags, i);
        let p = after[i].parent_id->0;
        assert(has_tag(tags, p)) by {
            if t.id != id {
                assert(has_tag(tags, t.parent_id->0));
            }
        }
        let k = lemma_tag_index(tags, p);
        lemma_tag_at(after, k);
        assert(after[k].id == p);
        lemma_tag_at(tags, k);
        if t.id != id {
            assert(t.category_id == tag(tags, p).category_id);
            assert(parent_of(tags, t.id) == Some(p));
            let m = lemma_tag_index(tags, id);
            lemma_tag_at(tags, m);
        }
    }
}

/// A tag has a smaller rank than those below it.
proof fn lemma_descends_rank(tags: Seq<TagModel>, id: i64, above: i64)
    requires
        tag_ids_unique(tags),
        acyclic(tags),
        descends(tags, id, above),
    ensures
        rank_of(tags)(above) < rank_of(tags)(id),
    decreases rank_of(tags)(id),
{
    let rank = rank_of(tags);
    assert(is_rank(tags, rank));
    let i = lemma_tag_index(tags, id);
    let p = parent_of(tags, id)->0;
    assert(rank(p) < rank(id));
    if p != above {
        lemma_descends_rank(tags, p, above);
    }
}

/// In an aligned tree a tag stands in the category of every tag above it.
proof fn lemma_below_aligned(
    categories: Seq<CategoryModel>,
    tags: Seq<TagModel>,
    seq: i64,
    id: i64,
    above: i64,
)
    requires
        tags_wf(categories, tags, seq),
        aligned(tags),
        descends(tags, id, above),
    ensures
        tag(tags, id).category_id == tag(tags, above).category_id,
    decreases rank_of(tags)(id),
{
    assert(is_rank(tags, rank_of(tags)));
    let i = lemma_tag_index(tags, id);
    let p = parent_of(tags, id)->0;
    assert(tags[i].parent_id == Some(p));
    if p != above {
        lemma_below_aligned(categories, tags, seq, p, above);
    }
}

/// The tags below the tag `id` are the same wherever that tag stands.
proof fn lemma_placed_below(
    tags: Seq<TagModel>,
    id: i64,
    parent: Option<i64>,
    category: i64,
    follow: bool,
    x: i64,
)
    requires
        tag_ids_unique(tags),
        acyclic(tags),
        acyclic(placed(tags, id, parent, category, follow)),
        x != id,
    ensures
        descends(placed(tags, id, parent, category, follow), x, id) == descends(tags, x, id),
    decreases rank_of(tags)(x),
{
    let after = placed(tags, id, parent, category, follow);
    assert(is_rank(tags, rank_of(tags)));
    lemma_same_ids(tags, after);
    if has_tag(tags, x) {
        let i = lemma_tag_index(tags, x);
        assert(after[i].id == x);
        lemma_tag_at(after, i);
        assert(parent_of(after, x) == parent_of(tags, x));
        match parent_of(tags, x) {
            None => {},
            Some(p) => {
                if p != id {
                    lemma_placed_below(tags, id, parent, category, follow, p);
                }
            },
        }
    }
}

/// A tag that was moved can be moved back, with those below it, and the tags are then
/// what they were, if every tag stood in the category of the tag above it.
pub proof fn law_move_is_undone(
    c: CatalogModel,
    id: i64,
    parent: Option<i64>,
    category: Option<i64>,
)
    requires
        c.wf(),
        aligned(c.tags),
        move_result(c, id, parent, category) is Ok,
    ensures
        move_result(
            (CatalogModel { tags: move_result(c, id, parent, category)->Ok_0, ..c }),
            id,
            tag(c.tags, id).parent_id,
            Some(tag(c.tags, id).category_id),
        ) == Ok::<Seq<TagModel>, ErrorModel>(c.tags),
{
    let tags = c.tags;
    let target = move_target(c, id, parent, category)->Ok_0;
    let home = tag(tags, id);
    let follow = target != home.category_id;
    let after = placed(tags, id, parent, target, follow);
    let d = CatalogModel { tags: after, ..c };
    let m = lemma_tag_index(tags, id);
    let rank = rank_of(tags);
    assert(is_rank(tags, rank));
    lemma_placed_wf(c.categories, tags, c.tag_seq, id, parent, target, follow);
    lemma_same_ids(tags, after);
    assert(after[m].id == id);
    lemma_tag_at(after, m);
    assert(has_category(c.categories, tags[m].category_id));
    match home.parent_id {
        None => {},
        Some(p) => {
            assert(has_tag(tags, tags[m].parent_id->0));
            assert(rank(p) < rank(id));
            if descends(tags, p, id) {
                lemma_descends_rank(tags, p, id);
            }
            lemma_placed_below(tags, id, parent, target, follow, p);
            let k = lemma_tag_index(tags, p);
            assert(after[k].id == p);
            lemma_tag_at(after, k);
            assert(tags[m].category_id == tag(tags, p).category_id);
        },
    }
    assert(move_target(d, id, home.parent_id, Some(home.category_id)) == Ok::<i64, ErrorModel>(
        home.category_id,
    ));
    assert(!taken(after, id, home.category_id, home.parent_id, after[m].name)) by {
        assert forall|i: int|
            0 <= i < after.len() && (#[trigger] after[i]).id != id && after[i].category_id
                == home.category_id && after[i].parent_id == home.parent_id implies nocase(
            after[i].name,
        ) != nocase(home.name) by {
            lemma_tag_at(tags, i);
            assert(parent_of(tags, tags[i].id) == tags[i].parent_id);
            assert(!same_place(tags[i], tags[m])) by {
                if i < m {
                    assert(!same_place(tags[i], tags[m]));
                } else {
                    assert(!same_place(tags[m], tags[i]));
                }
            }
        }
    }
    let back = placed(after, id, home.parent_id, home.category_id, home.category_id != target);
    assert forall|i: int| 0 <= i < tags.len() implies back[i] == tags[i] by {
        lemma_tag_at(tags, i);
        lemma_tag_at(after, i);
        if tags[i].id != id {
            lemma_placed_below(tags, id, parent, target, follow, tags[i].id);
            if descends(tags, tags[i].id, id) {
                lemma_below_aligned(c.categories, tags, c.tag_seq, tags[i].id, id);
            }
        }
    }
    assert(back =~= tags);
}

/// Whatever is renamed and moved to the root of whatever category, every tag below
/// another stands in the category of the tag above it, if it was so before.
pub proof fn law_update_keeps_categories_aligned(
    c: CatalogModel,
    id: i64,
    name: Seq<char>,
    category: Option<Seq<char>>,
    now: i64,
)
    requires
        c.wf(),
        aligned(c.tags),
        update_result(c, id, name, category, now) is Ok,
    ensures
        aligned((update_result(c, id, name, category, now)->Ok_0).tags),
{
    let tags = renamed(c.tags, id, trimmed(name));
    lemma_renamed(c, id, trimmed(name));
    match category {
        None => {},
        Some(k) => {
            let d = with_category(CatalogModel { tags, ..c }, category_name(k), now)->0;
            let target = category_named(d.categories, category_name(k)).id;
            lemma_placed_aligned(c.categories, tags, c.tag_seq, id, None, target);
        },
    }
}

pub proof fn lemma_renamed(c: CatalogModel, id: i64, name: Seq<char>)
    requires
        c.wf(),
        siblings_unique(renamed(c.tags, id, name)),
    ensures
        tags_wf(c.categories, renamed(c.tags, id, name), c.tag_seq),
        has_tag(c.tags, id) ==> has_tag(renamed(c.tags, id, name), id) && tag(
            renamed(c.tags, id, name),
            id,
        ).category_id == tag(c.tags, id).category_id,
        aligned(c.tags) ==> aligned(renamed(c.tags, id, name)),
{
    let after = renamed(c.tags, id, name);
    lemma_same_ids(c.tags, after);
    assert(is_rank(after, rank_of(c.tags))) by {
        assert(is_rank(c.tags, rank_of(c.tags)));
    }
    assert forall|i: int| 0 <= i < after.len() implies has_category(
        c.categories,
        (#[trigger] after[i]).category_id,
    ) by {
        assert(has_category(c.categories, c.tags[i].category_id));
    }
    assert forall|i: int|
        0 <= i < after.len() && (#[trigger] after[i]).parent_id is Some implies has_tag(
        after,
        after[i].parent_id->0,
    ) by {
        assert(has_tag(c.tags, c.tags[i].parent_id->0));
    }
    if has_tag(c.tags, id) {
        let k = lemma_tag_index(c.tags, id);
        lemma_tag_at(after, k);
        assert(after[k].id == id);
    }
    if aligned(c.tags) {
        assert forall|i: int|
            0 <= i < after.len() && (#[trigger] after[i]).parent_id is Some implies
            after[i].category_id == tag(after, after[i].parent_id->0).category_id by {
            let p = c.tags[i].parent_id->0;
            assert(has_tag(c.tags, p));
            let k = lemma_tag_index(c.tags, p);
            lemma_tag_at(after, k);
            assert(after[k].id == p);
        }
    }
}

pub proof fn lemma_deleted_wf(categories: Seq<CategoryModel>, tags: Seq<TagModel>, seq: i64, id: i64)
    requires
        tags_wf(categories, tags, seq),
        delete_result(tags, id) is Ok,
    ensures
        tags_wf(categories, delete_result(tags, id)->Ok_0, seq),
        forall|x: i64|
            has_tag(delete_result(tags, id)->Ok_0, x) <==> has_tag(tags, x) && x != id,
        forall|x: i64| #[trigger]
            has_tag(delete_result(tags, id)->Ok_0, x) ==> tag(delete_result(tags, id)->Ok_0, x)
                == tag(lifted(tags, id), x),
{
    let up = lifted(tags, id);
    let p = other_tag(id);
    let after = up.filter(p);
    let rank = rank_of(tags);
    assert(is_rank(tags, rank));
    lemma_same_ids(tags, up);
    assert forall|i: int, j: int| 0 <= i < j < after.len() implies (#[trigger] after[i]).id != (
    #[trigger] after[j]).id && !same_place(after[i], after[j]) by {
        let (a, b) = lemma_filter_pair(up, p, i, j);
        assert(up[a].id != up[b].id);
        assert(!same_place(up[a], up[b]));
    }
    assert(tag_ids_unique(after));
    assert forall|x: i64| has_tag(after, x) <==> has_tag(tags, x) && x != id by {
        if has_tag(after, x) {
            let i = lemma_tag_index(after, x);
            let a = lemma_filter_at(up, p, i);
            assert(tags[a].id == x);
        }
        if has_tag(tags, x) && x != id {
            let a = lemma_tag_index(tags, x);
            assert(up[a].id == x);
            let i = lemma_filter_has(up, p, a);
            assert(after[i].id == x);
        }
    }
    assert forall|x: i64| #[trigger] has_tag(after, x) implies tag(after, x) == tag(up, x) by {
        let i = lemma_tag_index(after, x);
        let a = lemma_filter_at(up, p, i);
        lemma_tag_at(up, a);
        assert(up[a].id == x);
    }
    let m = lemma_tag_index(tags, id);
    lemma_tag_at(tags, m);
    assert(parent_of(tags, id) == tags[m].parent_id);
    assert forall|i: int| 0 <= i < after.len() implies 1 <= (#[trigger] after[i]).id <= seq
        && has_category(categories, after[i].category_id) by {
        let a = lemma_filter_at(up, p, i);
        assert(1 <= tags[a].id <= seq);
        assert(has_category(categories, tags[a].category_id));
    }
    assert forall|i: int| 0 <= i < after.len() && (#[trigger] after[i]).parent_id is Some implies
        has_tag(after, after[i].parent_id->0) && rank(after[i].parent_id->0) < rank(
        after[i].id,
    ) by {
        let a = lemma_filter_at(up, p, i);
        let t = tags[a];
        if t.parent_id == Some(id) {
            assert(tags[m].parent_id is Some);
            assert(has_tag(tags, tags[m].parent_id->0));
            assert(rank(tags[m].parent_id->0) < rank(id));
            assert(rank(t.parent_id->0) < rank(t.id));
        } else {
            assert(has_tag(tags, t.parent_id->0));
            assert(rank(t.parent_id->0) < rank(t.id));
        }
    }
    assert(is_rank(after, rank));
}

/// Whatever tag is removed, every tag below another stands in the category of the tag
/// above it, if it was so before: the children go where the tag stood.
pub proof fn law_delete_keeps_categories_aligned(c: CatalogModel, id: i64)
    requires
        c.wf(),
        aligned(c.tags),
        delete_result(c.tags, id) is Ok,
    ensures
        aligned(delete_result(c.tags, id)->Ok_0),
{
    let tags = c.tags;
    let up = lifted(tags, id);
    let p = other_tag(id);
    let after = up.filter(p);
    lemma_deleted_wf(c.categories, tags, c.tag_seq, id);
    lemma_same_ids(tags, up);
    let m = lemma_tag_index(tags, id);
    lemma_tag_at(tags, m);
    assert forall|i: int|
        0 <= i < after.len() && (#[trigger] after[i]).parent_id is Some implies after[i].category_id
        == tag(after, after[i].parent_id->0).category_id by {
        let a = lemma_filter_at(up, p, i);
        let t = tags[a];
        let q = after[i].parent_id->0;
        assert(has_tag(after, q));
        let k = lemma_tag_index(tags, q);
        lemma_tag_at(tags, k);
        lemma_tag_at(up, k);
        assert(up[k].id == q);
        assert(tag(after, q).category_id == tags[k].category_id);
        if t.parent_id == Some(id) {
            assert(tags[m].parent_id == Some(q));
            assert(tags[m].category_id == tag(tags, q).category_id);
            assert(t.category_id == tag(tags, id).category_id);
        } else {
            assert(t.category_id == tag(tags, q).category_id);
        }
    }
}

pub proof fn lemma_with_category(c: CatalogModel, name: Seq<char>, now: i64)
    requires
        c.wf(),
        with_category(c, name, now) is Some,
    ensures
        (with_category(c, name, now)->0).wf(),
        (with_category(c, name, now)->0).tags == c.tags,
        (with_category(c, name, now)->0).tag_seq == c.tag_seq,
        has_category_named((with_category(c, name, now)->0).categories, name),
        has_category(
            (with_category(c, name, now)->0).categories,
            category_named((with_category(c, name, now)->0).categories, name).id,
        ),
        nocase(category_named((with_category(c, name, now)->0).categories, name).name) == nocase(
            name,
        ),
        forall|k: i64|
            has_category(c.categories, k) ==> has_category(
                (with_category(c, name, now)->0).categories,
                k,
            ),
{
    let d = with_category(c, name, now)->0;
    if !has_category_named(c.categories, name) {
        let n = c.categories.len() as int;
        assert(d.categories[n].name == name);
        assert forall|i: int, j: int| 0 <= i < j < d.categories.len() implies (
        #[trigger] d.categories[i]).id != (#[trigger] d.categories[j]).id && nocase(
            d.categories[i].name,
        ) != nocase(d.categories[j].name) by {
            if j == n {
                assert(nocase(c.categories[i].name) != nocase(name));
                assert(c.categories[i].id <= c.category_seq);
            }
        }
        assert forall|i: int| 0 <= i < d.categories.len() implies 1 <= (
        #[trigger] d.categories[i]).id <= d.category_seq by {
            if i < n {
                assert(c.categories[i].id <= c.category_seq);
            }
        }
        assert forall|k: i64| has_category(c.categories, k) implies has_category(
            d.categories,
            k,
        ) by {
            let i = choose|i: int| 0 <= i < c.categories.len() && #[trigger] c.categories[i].id == k;
            assert(d.categories[i].id == k);
        }
        assert forall|i: int| 0 <= i < d.tags.len() implies has_category(
            d.categories,
            (#[trigger] d.tags[i]).category_id,
        ) by {
            assert(has_category(c.categories, c.tags[i].category_id));
        }
    }
    let k = choose|k: int|
        0 <= k < d.categories.len() && nocase(#[trigger] d.categories[k].name) == nocase(name);
    assert(d.categories[k].id == category_named(d.categories, name).id);
}

/// Whether no two tags stand at the same place under the same name.
pub fn places_distinct(tags: &Vec<TagRow>) -> (b: bool)
    ensures
        b == siblings_unique(models(tags@)),
{
    let ghost m = models(tags@);
    let mut i: usize = 0;
    while i < tags.len()
        invariant
            i <= tags@.len(),
            m == models(tags@),
            forall|a: int, b: int|
                0 <= a < b < m.len() && a < i ==> !same_place(#[trigger] m[a], #[trigger] m[b]),
        decreases tags@.len() - i,
    {
        let mut j: usize = i + 1;
        while j < tags.len()
            invariant
                i < j <= tags@.len(),
                m == models(tags@),
                forall|b: int| i < b < j ==> !same_place(m[i as int], #[trigger] m[b]),
            decreases tags@.len() - j,
        {
            if tags[i].category_id == tags[j].category_id && tags[i].parent_id == tags[j].parent_id
                && same_nocase(tags[i].name.as_str(), tags[j].name.as_str()) {
                assert(same_place(m[i as int], m[j as int]));
                return false;
            }
            j = j + 1;
        }
        i = i + 1;
    }
    true
}

impl Catalog {
    /// Whether a tag other than `id` stands at the place given, under the name given.
    pub fn is_taken(&self, id: i64, category: i64, parent: Option<i64>, name: &str) -> (b: bool)
        ensures
            b == taken(self@.tags, id, category, parent, name@),
    {
        let mut i: usize = 0;
        while i < self.tags.len()
            invariant
                i <= self.tags@.len(),
                forall|j: int|
                    0 <= j < i ==> !((#[trigger] self@.tags[j]).id != id
                        && self@.tags[j].category_id == category && self@.tags[j].parent_id
                        == parent && nocase(self@.tags[j].name) == nocase(name@)),
            decreases self.tags@.len() - i,
        {
            if self.tags[i].id != id && self.tags[i].category_id == category
                && self.tags[i].parent_id == parent && same_nocase(
                self.tags[i].name.as_str(),
                name,
            ) {
                assert(self@.tags[i as int].id != id);
                return true;
            }
            i = i + 1;
        }
        false
    }

    /// The tags once the tag `id` stands below `parent` in `category`; those below it
    /// change category with it where `follow` holds.
    pub fn place(&self, id: i64, parent: Option<i64>, category: i64, follow: bool) -> (r: Vec<
        TagRow,
    >)
        requires
            tag_ids_unique(self@.tags),
            acyclic(self@.tags),
        ensures
            models(r@) == placed(self@.tags, id, parent, category, follow),
    {
        let mut r: Vec<TagRow> = Vec::new();
        let ghost after = placed(self@.tags, id, parent, category, follow);
        let mut i: usize = 0;
        while i < self.tags.len()
            invariant
                i <= self.tags@.len(),
                r@.len() == i,
                tag_ids_unique(self@.tags),
                acyclic(self@.tags),
                after == placed(self@.tags, id, parent, category, follow),
                forall|j: int| 0 <= j < i ==> (#[trigger] r@[j])@ == after[j],
            decreases self.tags@.len() - i,
        {
            let mut t = self.tags[i].clone();
            if t.id == id {
                t.parent_id = parent;
                t.category_id = category;
            } else if follow && self.is_below(t.id, id) {
                t.category_id = category;
            }
            r.push(t);
            i = i + 1;
        }
        proof {
            assert(models(r@) =~= after);
        }
        r
    }

    /// Moves the tag `id` below the tag `parent_id`, or to the root of the category
    /// `category_id` (its own, where none is given). A tag takes those below it along.
    pub fn move_tag_in(
        &mut self,
        id: i64,
        parent_id: Option<i64>,
        category_id: Option<i64>,
    ) -> (r: Result<(), LibraryError>)
        requires
            old(self)@.wf(),
        ensures
            final(self)@.wf(),
            match move_result(old(self)@, id, parent_id, category_id) {
                Ok(tags) => r is Ok && final(self)@ == (CatalogModel { tags, ..old(self)@ }),
                Err(e) => outcome(r) == Err::<(), ErrorModel>(e) && final(self)@ == old(self)@,
            },
    {
        if parent_id == Some(id) {
            return Err(Failure::Rule(Rule::MoveToSelf));
        }
        let at: usize = match self.tag_index(id) {
            Some(i) => i,
            None => {
                return Err(Failure::Rule(Rule::NoSuchTag));
            },
        };
        proof {
            lemma_tag_at(self@.tags, at as int);
        }
        let current: i64 = self.tags[at].category_id;
        let target: i64 = match parent_id {
            Some(p) => {
                match self.tag_index(p) {
                    None => {
                        return Err(Failure::Rule(Rule::NoSuchParent));
                    },
                    Some(k) => {
                        proof {
                            lemma_tag_at(self@.tags, k as int);
                        }
                        if self.is_below(p, id) {
                            return Err(Failure::Rule(Rule::MoveIntoDescendant));
                        }
                        self.tags[k].category_id
                    },
                }
            },
            None => match category_id {
                Some(k) => k,
                None => current,
            },
        };
        let name = self.tags[at].name.clone();
        if self.is_taken(id, target, parent_id, name.as_str()) {
            return Err(Failure::NameTaken(name));
        }
        if self.category_index(target).is_none() {
            return Err(Failure::Write(Step::MoveTag, Constraint::ForeignKey));
        }
        let moved = self.place(id, parent_id, target, target != current);
        if !places_distinct(&moved) {
            return Err(Failure::Write(Step::MoveSubtree, Constraint::Unique(Key::TagPlace)));
        }
        proof {
            lemma_placed_wf(
                self@.categories,
                self@.tags,
                self@.tag_seq,
                id,
                parent_id,
                target,
                target != current,
            );
        }
        self.tags = moved;
        Ok(())
    }

    /// The identifier of the category named `name`, which is created where none has
    /// that name; `None`, and nothing created, where the identifiers have run out.
    pub fn find_or_add_category(&mut self, name: &str, now: i64) -> (r: Option<i64>)
        requires
            old(self)@.wf(),
        ensures
            final(self)@.wf(),
            match with_category(old(self)@, name@, now) {
                Some(c) => final(self)@ == c && r == Some(category_named(c.categories, name@).id),
                None => final(self)@ == old(self)@ && r is None,
            },
    {
        if self.category_seq == i64::MAX {
            return None;
        }
        let id: i64 = self.category_seq + 1;
        let ghost before = self@;
        proof {
            lemma_with_category(before, name@, now);
        }
        match self.category_named_index(name) {
            Some(i) => {
                self.category_seq = id;
                proof {
                    lemma_category_at(self@.categories, self@.category_seq, i as int);
                    let k = choose|k: int|
                        0 <= k < self@.categories.len() && nocase(#[trigger] self@.categories[k].name)
                            == nocase(name@);
                    assert(self@.categories[i as int].name == self@.categories[i as int].name);
                    assert(k == i);
                }
                Some(self.categories[i].id)
            },
            None => {
                self.categories.push(
                    CategoryRow { id, name: name.to_string(), created_at: now },
                );
                self.category_seq = id;
                proof {
                    let c = with_category(before, name@, now)->0;
                    assert(self@.categories =~= c.categories);
                    let n = before.categories.len() as int;
                    lemma_category_at(c.categories, c.category_seq, n);
                    assert(c.categories[n].name == name@);
                }
                Some(id)
            },
        }
    }

    /// Renames the tag `id`, and where a category is named, moves it to the root of
    /// that category, which is created where none has that name.
    pub fn update_tag(
        &mut self,
        id: i64,
        name: &str,
        category: Option<&str>,
        now: i64,
    ) -> (r: Result<(), LibraryError>)
        requires
            old(self)@.wf(),
        ensures
            final(self)@.wf(),
            match update_result(
                old(self)@,
                id,
                name@,
                match category {
                    Some(k) => Some(k@),
                    None => None,
                },
                now,
            ) {
                Ok(c) => r is Ok && final(self)@ == c,
                Err(e) => outcome(r) == Err::<(), ErrorModel>(e) && final(self)@ == old(self)@,
            },
    {
        let name = match validate_tag(name) {
            Ok(n) => n,
            Err(e) => {
                return Err(e);
            },
        };
        if self.tag_index(id).is_none() {
            return Err(Failure::Rule(Rule::NoSuchTag));
        }
        proof {
            assert(has_tag(self@.tags, id));
        }
        let tags = self.rename(id, name.as_str());
        if !places_distinct(&tags) {
            return Err(Failure::Write(Step::UpdateTag, Constraint::Unique(Key::TagPlace)));
        }
        proof {
            lemma_renamed(self@, id, name@);
        }
        match category {
            None => {
                self.tags = tags;
                Ok(())
            },
            Some(k) => {
                let mut next = self.clone();
                next.tags = tags;
                match next.move_to_root(id, k, now) {
                    Ok(_) => {
                        *self = next;
                        Ok(())
                    },
                    Err(e) => Err(e),
                }
            },
        }
    }

    /// Moves the tag `id` to the root of the category named `category`, which is created
    /// where none has that name. A tag takes those below it along.
    fn move_to_root(&mut self, id: i64, category: &str, now: i64) -> (r: Result<
        (),
        LibraryError,
    >)
        requires
            old(self)@.wf(),
            has_tag(old(self)@.tags, id),
        ensures
            match root_result(old(self)@, id, category@, now) {
                Ok(c) => r is Ok && final(self)@ == c && c.wf(),
                Err(e) => outcome(r) == Err::<(), ErrorModel>(e),
            },
    {
        let at: usize = match self.tag_index(id) {
            Some(i) => i,
            None => {
                return Err(Failure::Rule(Rule::NoSuchTag));
            },
        };
        proof {
            lemma_tag_at(self@.tags, at as int);
        }
        let current: i64 = self.tags[at].category_id;
        let name = self.tags[at].name.clone();
        let k = category_or_uncategorized(category);
        let ghost before = self@;
        let target: i64 = match self.find_or_add_category(k.as_str(), now) {
            Some(t) => t,
            None => {
                return Err(Failure::Write(Step::CreateTagCategory, Constraint::Full));
            },
        };
        proof {
            lemma_with_category(before, k@, now);
        }
        if self.is_taken(id, target, None, name.as_str()) {
            return Err(Failure::NameTaken(name));
        }
        let moved = self.place(id, None, target, target != current);
        if !places_distinct(&moved) {
            return Err(Failure::Write(Step::MoveSubtree, Constraint::Unique(Key::TagPlace)));
        }
        proof {
            lemma_placed_wf(
                self@.categories,
                self@.tags,
                self@.tag_seq,
                id,
                None,
                target,
                target != current,
            );
        }
        self.tags = moved;
        Ok(())
    }

    /// The tags once the tag `id` has the name `name`.
    pub fn rename(&self, id: i64, name: &str) -> (r: Vec<TagRow>)
        ensures
            models(r@) == renamed(self@.tags, id, name@),
    {
        let mut r: Vec<TagRow> = Vec::new();
        let ghost after = renamed(self@.tags, id, name@);
        let mut i: usize = 0;
        while i < self.tags.len()
            invariant
                i <= self.tags@.len(),
                r@.len() == i,
                after == renamed(self@.tags, id, name@),
                forall|j: int| 0 <= j < i ==> (#[trigger] r@[j])@ == after[j],
            decreases self.tags@.len() - i,
        {
            let mut t = self.tags[i].clone();
            if t.id == id {
                t.name = name.to_string();
            }
            r.push(t);
            i = i + 1;
        }
        proof {
            assert(models(r@) =~= after);
        }
        r
    }

    /// Removes the tag `id`; its children go where it stood.
    pub fn remove_tag(&mut self, id: i64) -> (r: Result<(), LibraryError>)
        requires
            old(self)@.wf(),
        ensures
            final(self)@.wf(),
            match delete_result(old(self)@.tags, id) {
                Ok(tags) => r is Ok && final(self)@ == (CatalogModel { tags, ..old(self)@ }),
                Err(e) => outcome(r) == Err::<(), ErrorModel>(e) && final(self)@ == old(self)@,
            },
    {
        let at: usize = match self.tag_index(id) {
            Some(i) => i,
            None => {
                return Err(Failure::Rule(Rule::NoSuchTag));
            },
        };
        proof {
            lemma_tag_at(self@.tags, at as int);
        }
        let parent: Option<i64> = self.tags[at].parent_id;
        let mut up: Vec<TagRow> = Vec::new();
        let ghost lift = lifted(self@.tags, id);
        let mut i: usize = 0;
        while i < self.tags.len()
            invariant
                i <= self.tags@.len(),
                up@.len() == i,
                lift == lifted(self@.tags, id),
                parent == parent_of(self@.tags, id),
                forall|j: int| 0 <= j < i ==> (#[trigger] up@[j])@ == lift[j],
            decreases self.tags@.len() - i,
        {
            let mut t = self.tags[i].clone();
            if t.parent_id == Some(id) {
                t.parent_id = parent;
            }
            up.push(t);
            i = i + 1;
        }
        proof {
            assert(models(up@) =~= lift);
        }
        if !places_distinct(&up) {
            return Err(Failure::Write(Step::LiftChildren, Constraint::Unique(Key::TagPlace)));
        }
        let keep = |t: &TagRow| -> (b: bool)
            ensures
                b == (t@.id != id),
            { t.id != id };
        retain(&mut up, Ghost(other_tag(id)), keep);
        proof {
            lemma_deleted_wf(self@.categories, self@.tags, self@.tag_seq, id);
        }
        self.tags = up;
        Ok(())
    }
}

/// A name as a tag may have it: trimmed, and not empty then.
pub fn validate_tag(name: &str) -> (r: Result<String, LibraryError>)
    ensures
        match tag_name_result(name@) {
            Ok(n) => r matches Ok(s) && s@ == n,
            Err(e) => r matches Err(f) && f@ == e,
        },
{
    let t = trim(name);
    if t.as_str().is_empty() {
        return Err(Failure::Rule(Rule::EmptyTagName));
    }
    Ok(t)
}

/// The name of a category as it is looked up: trimmed, and where nothing is left,
/// that of the uncategorized tags.
pub fn category_or_uncategorized(name: &str) -> (r: String)
    ensures
        r@ == category_name(name@),
{
    let t = trim(name);
    if t.as_str().is_empty() {
        "未分类".to_string()
    } else {
        t
    }
}

} // verus!

//! Tags as an earlier schema kept them: in one level, each with the name of its category.
use vstd::prelude::*;

use crate::catalog::aligned;
use crate::catalog::category;
use crate::catalog::category_named;
use crate::catalog::has_category;
use crate::catalog::has_category_named;
use crate::catalog::has_tag;
use crate::catalog::is_rank;
use crate::catalog::lemma_category_at;
use crate::catalog::lemma_tag_at;
use crate::catalog::models;
use crate::catalog::siblings_unique;
use crate::catalog::tag;
use crate::catalog::tag_ids_unique;
use crate::catalog::Catalog;
use crate::catalog::CatalogModel;
use crate::catalog::CategoryModel;
use crate::catalog::TagModel;
use crate::catalog::TagRow;
use crate::failure::Constraint;
use crate::failure::ErrorModel;
use crate::failure::Failure;
use crate::failure::Key;
use crate::failure::LibraryError;
use crate::failure::Step;
use crate::text::nocase;
use crate::text::not_after;
use crate::text::same_text;
use crate::text::text_le;
use crate::tree::lemma_with_category;
use crate::tree::places_distinct;
use crate::tree::uncategorized;
use crate::tree::with_category;

verus! {

/// A category of the earlier schema, or the category that tags of it name.
pub struct LegacyCategory {
    pub name: String,
    pub created_at: i64,
}

/// A category of the earlier schema, mathematically.
pub struct LegacyCategoryModel {
    pub name: Seq<char>,
    pub created_at: i64,
}

impl View for LegacyCategory {
    type V = LegacyCategoryModel;

    open spec fn view(&self) -> LegacyCategoryModel {
        LegacyCategoryModel { name: self.name@, created_at: self.created_at }
    }
}

/// A tag of the earlier schema.
pub struct LegacyTag {
    pub id: i64,
    pub name: String,
    pub category: String,
    pub created_at: i64,
}

/// A tag of the earlier schema, mathematically.
pub struct LegacyTagModel {
    pub id: i64,
    pub name: Seq<char>,
    pub category: Seq<char>,
    pub created_at: i64,
}

impl View for LegacyTag {
    type V = LegacyTagModel;

    open spec fn view(&self) -> LegacyTagModel {
        LegacyTagModel {
            id: self.id,
            name: self.name@,
            category: self.category@,
            created_at: self.created_at,
        }
    }
}

/// The name that a category of the earlier schema has now: what was not assigned to a
/// category, or to one of the user's making, is uncategorized.
pub open spec fn dimension(name: Seq<char>) -> Seq<char> {
    if name.len() == 0 || name == "自定义"@ {
        uncategorized()
    } else {
        name
    }
}

/// The groups with one more member: each group has a name, they stand in the order of
/// their names, and each is as old as its oldest member.
pub open spec fn with_member(
    groups: Seq<LegacyCategoryModel>,
    name: Seq<char>,
    created_at: i64,
) -> Seq<LegacyCategoryModel>
    decreases groups.len(),
{
    let g = LegacyCategoryModel { name, created_at };
    if groups.len() == 0 {
        seq![g]
    } else if groups[0].name == name {
        seq![
            LegacyCategoryModel {
                name,
                created_at: if created_at < groups[0].created_at {
                    created_at
                } else {
                    groups[0].created_at
                },
            },
        ] + groups.drop_first()
    } else if text_le(name, groups[0].name) {
        seq![g] + groups
    } else {
        seq![groups[0]] + with_member(groups.drop_first(), name, created_at)
    }
}

/// The categories by the names that they have now.
pub open spec fn category_groups(rows: Seq<LegacyCategoryModel>) -> Seq<LegacyCategoryModel>
    decreases rows.len(),
{
    if rows.len() == 0 {
        Seq::empty()
    } else {
        with_member(
            category_groups(rows.drop_last()),
            dimension(rows.last().name),
            rows.last().created_at,
        )
    }
}

/// The categories that tags name, by the names that they have now.
pub open spec fn tag_groups(rows: Seq<LegacyTagModel>) -> Seq<LegacyCategoryModel>
    decreases rows.len(),
{
    if rows.len() == 0 {
        Seq::empty()
    } else {
        with_member(
            tag_groups(rows.drop_last()),
            dimension(rows.last().category),
            rows.last().created_at,
        )
    }
}

/// The catalog with each of the groups for a category; or why there is no such catalog.
pub open spec fn with_groups(c: CatalogModel, groups: Seq<LegacyCategoryModel>) -> Result<
    CatalogModel,
    ErrorModel,
>
    decreases groups.len(),
{
    if groups.len() == 0 {
        Ok(c)
    } else if c.category_seq == i64::MAX {
        Err(Failure::Write(Step::MigrateCategories, Constraint::Full))
    } else if has_category_named(c.categories, groups[0].name) {
        Err(Failure::Write(Step::MigrateCategories, Constraint::Unique(Key::LegacyCategoryName)))
    } else {
        with_groups(
            with_category(c, groups[0].name, groups[0].created_at)->0,
            groups.drop_first(),
        )
    }
}

/// The catalog with a category for each of the groups that has none yet; or that the
/// identifiers ran out.
pub open spec fn with_missing_groups(c: CatalogModel, groups: Seq<LegacyCategoryModel>) -> Result<
    CatalogModel,
    ErrorModel,
>
    decreases groups.len(),
{
    if groups.len() == 0 {
        Ok(c)
    } else {
        match with_category(c, groups[0].name, groups[0].created_at) {
            None => Err(Failure::Write(Step::FillCategories, Constraint::Full)),
            Some(d) => with_missing_groups(d, groups.drop_first()),
        }
    }
}

/// A tag of the earlier schema as it stands in the catalog: at the root of its category.
pub open spec fn planted(c: CatalogModel, t: LegacyTagModel) -> TagModel {
    TagModel {
        id: t.id,
        name: t.name,
        category_id: category_named(c.categories, dimension(t.category)).id,
        parent_id: None,
        created_at: t.created_at,
    }
}

/// The tags of the earlier schema as they stand in the catalog.
pub open spec fn all_planted(c: CatalogModel, tags: Seq<LegacyTagModel>) -> Seq<TagModel> {
    tags.map_values(|t: LegacyTagModel| planted(c, t))
}

/// The largest identifier of tags of the earlier schema.
pub open spec fn largest_id(tags: Seq<LegacyTagModel>) -> i64
    decreases tags.len(),
{
    if tags.len() == 0 {
        0
    } else if tags.last().id > largest_id(tags.drop_last()) {
        tags.last().id
    } else {
        largest_id(tags.drop_last())
    }
}

/// The catalog without anything in it.
pub open spec fn empty_catalog() -> CatalogModel {
    CatalogModel { categories: Seq::empty(), category_seq: 0, tags: Seq::empty(), tag_seq: 0 }
}

/// The categories of the earlier schema, and those that its tags name.
pub open spec fn legacy_categories(
    categories: Seq<LegacyCategoryModel>,
    tags: Seq<LegacyTagModel>,
) -> Result<CatalogModel, ErrorModel> {
    match with_groups(empty_catalog(), category_groups(categories)) {
        Err(e) => Err(e),
        Ok(c) => with_missing_groups(c, tag_groups(tags)),
    }
}

/// The catalog made of what the earlier schema held, or why there is none.
pub open spec fn legacy_catalog(
    categories: Seq<LegacyCategoryModel>,
    tags: Seq<LegacyTagModel>,
) -> Result<CatalogModel, ErrorModel> {
    match legacy_categories(categories, tags) {
        Err(e) => Err(e),
        Ok(c) => {
            let rows = all_planted(c, tags);
            if !tag_ids_unique(rows) {
                Err(Failure::Write(Step::MigrateTags, Constraint::Unique(Key::LegacyTagId)))
            } else if !siblings_unique(rows) {
                Err(Failure::Write(Step::SwitchTagTables, Constraint::Unique(Key::TagPlace)))
            } else {
                Ok(CatalogModel { tags: rows, tag_seq: largest_id(tags), ..c })
            }
        },
    }
}

/// Tags of the earlier schema have identifiers from one on.
pub open spec fn legacy_wf(tags: Seq<LegacyTagModel>) -> bool {
    forall|i: int| 0 <= i < tags.len() ==> 1 <= (#[trigger] tags[i]).id
}

/// Whether a group has the name `name`.
pub open spec fn has_group(groups: Seq<LegacyCategoryModel>, name: Seq<char>) -> bool {
    exists|i: int| 0 <= i < groups.len() && (#[trigger] groups[i]).name == name
}

proof fn lemma_with_member(groups: Seq<LegacyCategoryModel>, name: Seq<char>, created_at: i64)
    ensures
        has_group(with_member(groups, name, created_at), name),
        forall|n: Seq<char>| #[trigger]
            has_group(groups, n) ==> has_group(with_member(groups, name, created_at), n),
    decreases groups.len(),
{
    let after = with_member(groups, name, created_at);
    if groups.len() == 0 {
        assert(after[0].name == name);
    } else if groups[0].name == name {
        assert(after[0].name == name);
        assert forall|n: Seq<char>| #[trigger] has_group(groups, n) implies has_group(after, n) by {
            let i = choose|i: int| 0 <= i < groups.len() && (#[trigger] groups[i]).name == n;
            assert(after[i].name == n);
        }
    } else if text_le(name, groups[0].name) {
        assert(after[0].name == name);
        assert forall|n: Seq<char>| #[trigger] has_group(groups, n) implies has_group(after, n) by {
            let i = choose|i: int| 0 <= i < groups.len() && (#[trigger] groups[i]).name == n;
            assert(after[i + 1].name == n);
        }
    } else {
        let rest = groups.drop_first();
        let tail = with_member(rest, name, created_at);
        lemma_with_member(rest, name, created_at);
        let k = choose|k: int| 0 <= k < tail.len() && (#[trigger] tail[k]).name == name;
        assert(after[k + 1].name == name);
        assert forall|n: Seq<char>| #[trigger] has_group(groups, n) implies has_group(after, n) by {
            let i = choose|i: int| 0 <= i < groups.len() && (#[trigger] groups[i]).name == n;
            if i == 0 {
                assert(after[0].name == n);
            } else {
                assert(rest[i - 1].name == n);
                assert(has_group(rest, n));
                assert(has_group(tail, n));
                let m = choose|m: int| 0 <= m < tail.len() && (#[trigger] tail[m]).name == n;
                assert(after[m + 1].name == n);
            }
        }
    }
}

proof fn lemma_tag_groups(tags: Seq<LegacyTagModel>)
    ensures
        forall|i: int|
            0 <= i < tags.len() ==> has_group(
                tag_groups(tags),
                dimension((#[trigger] tags[i]).category),
            ),
    decreases tags.len(),
{
    if tags.len() > 0 {
        let before = tags.drop_last();
        lemma_tag_groups(before);
        lemma_with_member(
            tag_groups(before),
            dimension(tags.last().category),
            tags.last().created_at,
        );
        assert forall|i: int| 0 <= i < tags.len() implies has_group(
            tag_groups(tags),
            dimension((#[trigger] tags[i]).category),
        ) by {
            if i < before.len() {
                assert(before[i] == tags[i]);
                assert(has_group(tag_groups(before), dimension(before[i].category)));
            }
        }
    }
}

proof fn lemma_category_groups(rows: Seq<LegacyCategoryModel>)
    ensures
        forall|i: int|
            0 <= i < rows.len() ==> has_group(
                category_groups(rows),
                dimension((#[trigger] rows[i]).name),
            ),
    decreases rows.len(),
{
    if rows.len() > 0 {
        let before = rows.drop_last();
        lemma_category_groups(before);
        lemma_with_member(
            category_groups(before),
            dimension(rows.last().name),
            rows.last().created_at,
        );
        assert forall|i: int| 0 <= i < rows.len() implies has_group(
            category_groups(rows),
            dimension((#[trigger] rows[i]).name),
        ) by {
            if i < before.len() {
                assert(before[i] == rows[i]);
                assert(has_group(category_groups(before), dimension(before[i].name)));
            }
        }
    }
}

/// A category that was there is there still when another is added.
proof fn lemma_categories_stay(c: CatalogModel, name: Seq<char>, now: i64)
    requires
        c.wf(),
        with_category(c, name, now) is Some,
    ensures
        forall|n: Seq<char>| #[trigger]
            has_category_named(c.categories, n) ==> has_category_named(
                (with_category(c, name, now)->0).categories,
                n,
            ),
{
    let d = with_category(c, name, now)->0;
    assert forall|n: Seq<char>| #[trigger] has_category_named(c.categories, n) implies
        has_category_named(d.categories, n) by {
        let i = choose|i: int|
            0 <= i < c.categories.len() && nocase(#[trigger] c.categories[i].name) == nocase(n);
        assert(d.categories[i] == c.categories[i]);
    }
}

proof fn lemma_with_groups(c: CatalogModel, groups: Seq<LegacyCategoryModel>)
    requires
        c.wf(),
        with_groups(c, groups) is Ok,
    ensures
        (with_groups(c, groups)->Ok_0).wf(),
        (with_groups(c, groups)->Ok_0).tags == c.tags,
        (with_groups(c, groups)->Ok_0).tag_seq == c.tag_seq,
        forall|n: Seq<char>| #[trigger]
            has_category_named(c.categories, n) ==> has_category_named(
                (with_groups(c, groups)->Ok_0).categories,
                n,
            ),
        forall|n: Seq<char>| #[trigger]
            has_group(groups, n) ==> has_category_named(
                (with_groups(c, groups)->Ok_0).categories,
                n,
            ),
    decreases groups.len(),
{
    if groups.len() > 0 {
        let d = with_category(c, groups[0].name, groups[0].created_at)->0;
        let rest = groups.drop_first();
        lemma_with_category(c, groups[0].name, groups[0].created_at);
        lemma_categories_stay(c, groups[0].name, groups[0].created_at);
        lemma_with_groups(d, rest);
        let e = with_groups(c, groups)->Ok_0;
        assert forall|n: Seq<char>| #[trigger] has_category_named(c.categories, n) implies
            has_category_named(e.categories, n) by {
            assert(has_category_named(d.categories, n));
        }
        assert forall|n: Seq<char>| #[trigger] has_group(groups, n) implies has_category_named(
            e.categories,
            n,
        ) by {
            let i = choose|i: int| 0 <= i < groups.len() && (#[trigger] groups[i]).name == n;
            if i > 0 {
                assert(rest[i - 1].name == n);
                assert(has_group(rest, n));
            } else {
                assert(has_category_named(d.categories, n));
            }
        }
    }
}

proof fn lemma_with_missing_groups(c: CatalogModel, groups: Seq<LegacyCategoryModel>)
    requires
        c.wf(),
        with_missing_groups(c, groups) is Ok,
    ensures
        (with_missing_groups(c, groups)->Ok_0).wf(),
        (with_missing_groups(c, groups)->Ok_0).tags == c.tags,
        (with_missing_groups(c, groups)->Ok_0).tag_seq == c.tag_seq,
        forall|n: Seq<char>| #[trigger]
            has_category_named(c.categories, n) ==> has_category_named(
                (with_missing_groups(c, groups)->Ok_0).categories,
                n,
            ),
        forall|n: Seq<char>| #[trigger]
            has_group(groups, n) ==> has_category_named(
                (with_missing_groups(c, groups)->Ok_0).categories,
                n,
            ),
    decreases groups.len(),
{
    if groups.len() > 0 {
        let d = with_category(c, groups[0].name, groups[0].created_at)->0;
        let rest = groups.drop_first();
        lemma_with_category(c, groups[0].name, groups[0].created_at);
        lemma_categories_stay(c, groups[0].name, groups[0].created_at);
        lemma_with_missing_groups(d, rest);
        let e = with_missing_groups(c, groups)->Ok_0;
        assert forall|n: Seq<char>| #[trigger] has_category_named(c.categories, n) implies
            has_category_named(e.categories, n) by {
            assert(has_category_named(d.categories, n));
        }
        assert forall|n: Seq<char>| #[trigger] has_group(groups, n) implies has_category_named(
            e.categories,
            n,
        ) by {
            let i = choose|i: int| 0 <= i < groups.len() && (#[trigger] groups[i]).name == n;
            if i > 0 {
                assert(rest[i - 1].name == n);
                assert(has_group(rest, n));
            } else {
                assert(has_category_named(d.categories, n));
            }
        }
    }
}

proof fn lemma_largest_id(tags: Seq<LegacyTagModel>)
    ensures
        0 <= largest_id(tags),
        forall|i: int| 0 <= i < tags.len() ==> (#[trigger] tags[i]).id <= largest_id(tags),
    decreases tags.len(),
{
    if tags.len() > 0 {
        lemma_largest_id(tags.drop_last());
        assert forall|i: int| 0 <= i < tags.len() implies (#[trigger] tags[i]).id <= largest_id(
            tags,
        ) by {
            if i < tags.len() - 1 {
                assert(tags.drop_last()[i] == tags[i]);
            }
        }
    }
}

proof fn lemma_empty_catalog()
    ensures
        empty_catalog().wf(),
{
    assert(is_rank(empty_catalog().tags, |x: i64| 0nat));
}

/// What is made of categories is in order.
pub proof fn lemma_legacy_categories(
    categories: Seq<LegacyCategoryModel>,
    tags: Seq<LegacyTagModel>,
)
    requires
        legacy_categories(categories, tags) is Ok,
    ensures
        (legacy_categories(categories, tags)->Ok_0).wf(),
{
    let first = with_groups(empty_catalog(), category_groups(categories))->Ok_0;
    lemma_empty_catalog();
    lemma_with_groups(empty_catalog(), category_groups(categories));
    lemma_with_missing_groups(first, tag_groups(tags));
}

/// Whether a category has exactly the name `name`.
pub open spec fn is_category_name(categories: Seq<CategoryModel>, name: Seq<char>) -> bool {
    exists|k: int| 0 <= k < categories.len() && (#[trigger] categories[k]).name == name
}

/// Whether a category of the earlier schema has the name `name` now.
pub open spec fn names_category(categories: Seq<LegacyCategoryModel>, name: Seq<char>) -> bool {
    exists|i: int| 0 <= i < categories.len() && dimension((#[trigger] categories[i]).name) == name
}

/// Whether a tag of the earlier schema names a category that has the name `name` now.
pub open spec fn names_home(tags: Seq<LegacyTagModel>, name: Seq<char>) -> bool {
    exists|i: int| 0 <= i < tags.len() && dimension((#[trigger] tags[i]).category) == name
}

/// Whether no other name that the earlier schema held is the same as `name` but for case.
pub open spec fn is_written_in_one_way(
    categories: Seq<LegacyCategoryModel>,
    tags: Seq<LegacyTagModel>,
    name: Seq<char>,
) -> bool {
    forall|n: Seq<char>|
        (#[trigger] names_category(categories, n) || names_home(tags, n)) && nocase(n) == nocase(
            name,
        ) ==> n == name
}

proof fn lemma_member_only(groups: Seq<LegacyCategoryModel>, name: Seq<char>, created_at: i64, n: Seq<char>)
    requires
        has_group(with_member(groups, name, created_at), n),
    ensures
        has_group(groups, n) || n == name,
    decreases groups.len(),
{
    let after = with_member(groups, name, created_at);
    let i = choose|i: int| 0 <= i < after.len() && (#[trigger] after[i]).name == n;
    if groups.len() == 0 {
        assert(after[i].name == name);
    } else if groups[0].name == name {
        if i > 0 {
            assert(groups[i].name == n);
        }
    } else if text_le(name, groups[0].name) {
        if i > 0 {
            assert(groups[i - 1].name == n);
        }
    } else if i == 0 {
        assert(groups[0].name == n);
    } else {
        let rest = groups.drop_first();
        let tail = with_member(rest, name, created_at);
        assert(tail[i - 1].name == n);
        assert(has_group(tail, n));
        lemma_member_only(rest, name, created_at, n);
        if has_group(rest, n) {
            let k = choose|k: int| 0 <= k < rest.len() && (#[trigger] rest[k]).name == n;
            assert(groups[k + 1].name == n);
        }
    }
}

proof fn lemma_category_groups_only(rows: Seq<LegacyCategoryModel>, n: Seq<char>)
    requires
        has_group(category_groups(rows), n),
    ensures
        names_category(rows, n),
    decreases rows.len(),
{
    if rows.len() > 0 {
        let before = rows.drop_last();
        lemma_member_only(
            category_groups(before),
            dimension(rows.last().name),
            rows.last().created_at,
            n,
        );
        if has_group(category_groups(before), n) {
            lemma_category_groups_only(before, n);
            let i = choose|i: int|
                0 <= i < before.len() && dimension((#[trigger] before[i]).name) == n;
            assert(rows[i] == before[i]);
        } else {
            assert(dimension(rows[rows.len() - 1].name) == n);
        }
    }
}

proof fn lemma_tag_groups_only(tags: Seq<LegacyTagModel>, n: Seq<char>)
    requires
        has_group(tag_groups(tags), n),
    ensures
        names_home(tags, n),
    decreases tags.len(),
{
    if tags.len() > 0 {
        let before = tags.drop_last();
        lemma_member_only(
            tag_groups(before),
            dimension(tags.last().category),
            tags.last().created_at,
            n,
        );
        if has_group(tag_groups(before), n) {
            lemma_tag_groups_only(before, n);
            let i = choose|i: int|
                0 <= i < before.len() && dimension((#[trigger] before[i]).category) == n;
            assert(tags[i] == before[i]);
        } else {
            assert(dimension(tags[tags.len() - 1].category) == n);
        }
    }
}

proof fn lemma_with_category_only(c: CatalogModel, name: Seq<char>, now: i64, n: Seq<char>)
    requires
        with_category(c, name, now) is Some,
        is_category_name((with_category(c, name, now)->0).categories, n),
    ensures
        is_category_name(c.categories, n) || n == name,
{
    let d = with_category(c, name, now)->0;
    let k = choose|k: int| 0 <= k < d.categories.len() && (#[trigger] d.categories[k]).name == n;
    if k < c.categories.len() {
        assert(c.categories[k].name == n);
    }
}

proof fn lemma_with_groups_only(c: CatalogModel, groups: Seq<LegacyCategoryModel>, n: Seq<char>)
    requires
        with_groups(c, groups) is Ok,
        is_category_name((with_groups(c, groups)->Ok_0).categories, n),
    ensures
        is_category_name(c.categories, n) || has_group(groups, n),
    decreases groups.len(),
{
    if groups.len() > 0 {
        let d = with_category(c, groups[0].name, groups[0].created_at)->0;
        let rest = groups.drop_first();
        lemma_with_groups_only(d, rest, n);
        if has_group(rest, n) {
            let k = choose|k: int| 0 <= k < rest.len() && (#[trigger] rest[k]).name == n;
            assert(groups[k + 1].name == n);
        } else {
            lemma_with_category_only(c, groups[0].name, groups[0].created_at, n);
            if n == groups[0].name {
                assert(has_group(groups, n));
            }
        }
    }
}

proof fn lemma_with_missing_groups_only(
    c: CatalogModel,
    groups: Seq<LegacyCategoryModel>,
    n: Seq<char>,
)
    requires
        with_missing_groups(c, groups) is Ok,
        is_category_name((with_missing_groups(c, groups)->Ok_0).categories, n),
    ensures
        is_category_name(c.categories, n) || has_group(groups, n),
    decreases groups.len(),
{
    if groups.len() > 0 {
        let d = with_category(c, groups[0].name, groups[0].created_at)->0;
        let rest = groups.drop_first();
        lemma_with_missing_groups_only(d, rest, n);
        if has_group(rest, n) {
            let k = choose|k: int| 0 <= k < rest.len() && (#[trigger] rest[k]).name == n;
            assert(groups[k + 1].name == n);
        } else {
            lemma_with_category_only(c, groups[0].name, groups[0].created_at, n);
            if n == groups[0].name {
                assert(has_group(groups, n));
            }
        }
    }
}

/// Every category has a name that the earlier schema held, as it is now.
proof fn lemma_names_come_from_the_tables(
    categories: Seq<LegacyCategoryModel>,
    tags: Seq<LegacyTagModel>,
    n: Seq<char>,
)
    requires
        legacy_categories(categories, tags) is Ok,
        is_category_name((legacy_categories(categories, tags)->Ok_0).categories, n),
    ensures
        names_category(categories, n) || names_home(tags, n),
{
    let first = with_groups(empty_catalog(), category_groups(categories))->Ok_0;
    lemma_with_missing_groups_only(first, tag_groups(tags), n);
    if has_group(tag_groups(tags), n) {
        lemma_tag_groups_only(tags, n);
    } else {
        lemma_with_groups_only(empty_catalog(), category_groups(categories), n);
        lemma_category_groups_only(categories, n);
    }
}

/// No tag of the earlier schema is lost, none is added, and every one keeps its
/// identifier and its name; it stands at the root of the category that it named, which is
/// called exactly so where the name was written in one way only. Every category is there
/// still, under the name that it has now.
pub proof fn law_legacy_tags_keep_their_identity(
    categories: Seq<LegacyCategoryModel>,
    tags: Seq<LegacyTagModel>,
)
    requires
        legacy_wf(tags),
        legacy_catalog(categories, tags) is Ok,
    ensures
        ({
            let c = legacy_catalog(categories, tags)->Ok_0;
            &&& c.wf()
            &&& aligned(c.tags)
            &&& c.tags.len() == tags.len()
            &&& forall|i: int|
                0 <= i < tags.len() ==> {
                    let t = tag(c.tags, (#[trigger] tags[i]).id);
                    &&& has_tag(c.tags, tags[i].id)
                    &&& t.id == tags[i].id
                    &&& t.name == tags[i].name
                    &&& t.parent_id is None
                    &&& t.created_at == tags[i].created_at
                    &&& has_category(c.categories, t.category_id)
                    &&& nocase(category(c.categories, t.category_id).name) == nocase(
                        dimension(tags[i].category),
                    )
                    &&& is_written_in_one_way(categories, tags, dimension(tags[i].category))
                        ==> category(c.categories, t.category_id).name == dimension(
                        tags[i].category,
                    )
                }
            &&& forall|i: int|
                0 <= i < categories.len() ==> has_category_named(
                    c.categories,
                    dimension((#[trigger] categories[i]).name),
                )
        }),
{
    let c = legacy_catalog(categories, tags)->Ok_0;
    let d = legacy_categories(categories, tags)->Ok_0;
    let first = with_groups(empty_catalog(), category_groups(categories))->Ok_0;
    lemma_empty_catalog();
    lemma_category_groups(categories);
    lemma_tag_groups(tags);
    lemma_with_groups(empty_catalog(), category_groups(categories));
    lemma_with_missing_groups(first, tag_groups(tags));
    lemma_largest_id(tags);
    assert forall|i: int| 0 <= i < tags.len() implies has_category(
        d.categories,
        (#[trigger] c.tags[i]).category_id,
    ) && nocase(category(d.categories, c.tags[i].category_id).name) == nocase(
        dimension(tags[i].category),
    ) by {
        let name = dimension(tags[i].category);
        assert(has_group(tag_groups(tags), name));
        assert(has_category_named(d.categories, name));
        let k = choose|k: int|
            0 <= k < d.categories.len() && nocase(#[trigger] d.categories[k].name) == nocase(name);
        assert(category_named(d.categories, name) == d.categories[k]);
        lemma_category_at(d.categories, d.category_seq, k);
    }
    assert(is_rank(c.tags, |x: i64| 0nat));
    assert forall|i: int| 0 <= i < c.tags.len() implies 1 <= (#[trigger] c.tags[i]).id
        <= c.tag_seq by {
        assert(1 <= tags[i].id);
    }
    assert forall|i: int| 0 <= i < tags.len() implies ({
        let t = tag(c.tags, (#[trigger] tags[i]).id);
        &&& has_tag(c.tags, tags[i].id)
        &&& t.id == tags[i].id
        &&& t.name == tags[i].name
        &&& t.parent_id is None
        &&& t.created_at == tags[i].created_at
        &&& has_category(c.categories, t.category_id)
        &&& nocase(category(c.categories, t.category_id).name) == nocase(
            dimension(tags[i].category),
        )
        &&& is_written_in_one_way(categories, tags, dimension(tags[i].category)) ==> category(
            c.categories,
            t.category_id,
        ).name == dimension(tags[i].category)
    }) by {
        lemma_tag_at(c.tags, i);
        assert(c.tags[i] == planted(d, tags[i]));
        let n = category(d.categories, c.tags[i].category_id).name;
        let k = choose|k: int|
            0 <= k < d.categories.len() && #[trigger] d.categories[k].id == c.tags[i].category_id;
        assert(d.categories[k].name == n);
        assert(is_category_name(d.categories, n));
        lemma_names_come_from_the_tables(categories, tags, n);
    }
    assert forall|i: int| 0 <= i < categories.len() implies has_category_named(
        c.categories,
        dimension((#[trigger] categories[i]).name),
    ) by {
        let name = dimension(categories[i].name);
        assert(has_group(category_groups(categories), name));
        assert(has_category_named(first.categories, name));
    }
}

/// The name that a category of the earlier schema has now.
fn dimension_now(name: &str) -> (r: String)
    ensures
        r@ == dimension(name@),
{
    if name.is_empty() || same_text(name, "自定义") {
        "未分类".to_string()
    } else {
        name.to_string()
    }
}

/// Adds a member to the groups.
fn add_member(groups: &mut Vec<LegacyCategory>, name: String, created_at: i64)
    ensures
        models(final(groups)@) == with_member(models(old(groups)@), name@, created_at),
{
    let ghost m = models(groups@);
    let ghost all = with_member(m, name@, created_at);
    let mut k: usize = 0;
    proof {
        assert(m.skip(0) =~= m);
        assert(m.take(0) + all =~= all);
    }
    while k < groups.len()
        invariant
            k <= groups@.len(),
            m == models(groups@),
            m == models(old(groups)@),
            all == with_member(m, name@, created_at),
            all == m.take(k as int) + with_member(m.skip(k as int), name@, created_at),
        decreases groups@.len() - k,
    {
        let ghost rest = m.skip(k as int);
        proof {
            assert(rest[0] == m[k as int]);
            assert(rest.drop_first() =~= m.skip(k + 1));
        }
        if same_text(groups[k].name.as_str(), name.as_str()) {
            let oldest: i64 = if created_at < groups[k].created_at {
                created_at
            } else {
                groups[k].created_at
            };
            groups.set(k, LegacyCategory { name, created_at: oldest });
            proof {
                assert(models(groups@) =~= all);
            }
            return;
        }
        if not_after(name.as_str(), groups[k].name.as_str()) {
            groups.insert(k, LegacyCategory { name, created_at });
            proof {
                assert(models(groups@) =~= all);
            }
            return;
        }
        proof {
            assert(all =~= m.take(k + 1) + with_member(m.skip(k + 1), name@, created_at));
        }
        k = k + 1;
    }
    groups.push(LegacyCategory { name, created_at });
    proof {
        assert(m.take(k as int) =~= m);
        assert(m.skip(k as int) =~= Seq::empty());
        assert(models(groups@) =~= all);
    }
}

/// The categories by the names that they have now.
fn group_categories(rows: &Vec<LegacyCategory>) -> (r: Vec<LegacyCategory>)
    ensures
        models(r@) == category_groups(models(rows@)),
{
    let ghost m = models(rows@);
    let mut r: Vec<LegacyCategory> = Vec::new();
    let mut i: usize = 0;
    proof {
        assert(models(r@) =~= Seq::empty());
    }
    while i < rows.len()
        invariant
            i <= rows@.len(),
            m == models(rows@),
            models(r@) == category_groups(m.take(i as int)),
        decreases rows@.len() - i,
    {
        proof {
            assert(m.take(i + 1).drop_last() =~= m.take(i as int));
            assert(m.take(i + 1).last() == m[i as int]);
        }
        add_member(&mut r, dimension_now(rows[i].name.as_str()), rows[i].created_at);
        i = i + 1;
    }
    proof {
        assert(m.take(m.len() as int) =~= m);
    }
    r
}

/// The categories that tags name, by the names that they have now.
fn group_tags(rows: &Vec<LegacyTag>) -> (r: Vec<LegacyCategory>)
    ensures
        models(r@) == tag_groups(models(rows@)),
{
    let ghost m = models(rows@);
    let mut r: Vec<LegacyCategory> = Vec::new();
    let mut i: usize = 0;
    proof {
        assert(models(r@) =~= Seq::empty());
    }
    while i < rows.len()
        invariant
            i <= rows@.len(),
            m == models(rows@),
            models(r@) == tag_groups(m.take(i as int)),
        decreases rows@.len() - i,
    {
        proof {
            assert(m.take(i + 1).drop_last() =~= m.take(i as int));
            assert(m.take(i + 1).last() == m[i as int]);
        }
        add_member(&mut r, dimension_now(rows[i].category.as_str()), rows[i].created_at);
        i = i + 1;
    }
    proof {
        assert(m.take(m.len() as int) =~= m);
    }
    r
}

/// Whether no two tags have the same identifier.
pub fn ids_distinct(tags: &Vec<TagRow>) -> (b: bool)
    ensures
        b == tag_ids_unique(models(tags@)),
{
    let ghost m = models(tags@);
    let mut i: usize = 0;
    while i < tags.len()
        invariant
            i <= tags@.len(),
            m == models(tags@),
            forall|a: int, b: int|
                0 <= a < b < m.len() && a < i ==> (#[trigger] m[a]).id != (#[trigger] m[b]).id,
        decreases tags@.len() - i,
    {
        let mut j: usize = i + 1;
        while j < tags.len()
            invariant
                i < j <= tags@.len(),
                m == models(tags@),
                forall|b: int| i < b < j ==> m[i as int].id != (#[trigger] m[b]).id,
            decreases tags@.len() - j,
        {
            if tags[i].id == tags[j].id {
                assert(m[i as int].id == m[j as int].id);
                return false;
            }
            j = j + 1;
        }
        i = i + 1;
    }
    true
}

/// Adds a category for each of the groups.
fn add_groups(catalog: &mut Catalog, groups: &Vec<LegacyCategory>) -> (r: Result<
    (),
    LibraryError,
>)
    requires
        old(catalog)@.wf(),
    ensures
        final(catalog)@.wf(),
        match with_groups(old(catalog)@, models(groups@)) {
            Ok(c) => r is Ok && final(catalog)@ == c,
            Err(e) => r matches Err(f) && f@ == e,
        },
{
    let ghost m = models(groups@);
    let ghost all = with_groups(catalog@, m);
    let mut i: usize = 0;
    proof {
        assert(m.skip(0) =~= m);
    }
    while i < groups.len()
        invariant
            i <= groups@.len(),
            m == models(groups@),
            catalog@.wf(),
            all == with_groups(old(catalog)@, m),
            all == with_groups(catalog@, m.skip(i as int)),
        decreases groups@.len() - i,
    {
        proof {
            assert(m.skip(i as int).drop_first() =~= m.skip(i + 1));
            assert(m.skip(i as int)[0] == m[i as int]);
        }
        if catalog.category_seq == i64::MAX {
            return Err(Failure::Write(Step::MigrateCategories, Constraint::Full));
        }
        if catalog.category_named_index(groups[i].name.as_str()).is_some() {
            proof {
                assert(has_category_named(catalog@.categories, m[i as int].name));
            }
            return Err(Failure::Write(Step::MigrateCategories, Constraint::Unique(Key::LegacyCategoryName)));
        }
        let id = catalog.find_or_add_category(groups[i].name.as_str(), groups[i].created_at);
        i = i + 1;
    }
    Ok(())
}

/// Adds a category for each of the groups that has none yet.
fn add_missing_groups(catalog: &mut Catalog, groups: &Vec<LegacyCategory>) -> (r: Result<
    (),
    LibraryError,
>)
    requires
        old(catalog)@.wf(),
    ensures
        final(catalog)@.wf(),
        match with_missing_groups(old(catalog)@, models(groups@)) {
            Ok(c) => r is Ok && final(catalog)@ == c,
            Err(e) => r matches Err(f) && f@ == e,
        },
{
    let ghost m = models(groups@);
    let ghost all = with_missing_groups(catalog@, m);
    let mut i: usize = 0;
    proof {
        assert(m.skip(0) =~= m);
    }
    while i < groups.len()
        invariant
            i <= groups@.len(),
            m == models(groups@),
            catalog@.wf(),
            all == with_missing_groups(old(catalog)@, m),
            all == with_missing_groups(catalog@, m.skip(i as int)),
        decreases groups@.len() - i,
    {
        proof {
            assert(m.skip(i as int).drop_first() =~= m.skip(i + 1));
            assert(m.skip(i as int)[0] == m[i as int]);
        }
        if catalog.find_or_add_category(
            groups[i].name.as_str(),
            groups[i].created_at,
        ).is_none() {
            return Err(Failure::Write(Step::FillCategories, Constraint::Full));
        }
        i = i + 1;
    }
    Ok(())
}

/// Makes a catalog of what the earlier schema held.
pub fn migrate_legacy_tag_tree(categories: &Vec<LegacyCategory>, tags: &Vec<LegacyTag>) -> (r:
    Result<Catalog, LibraryError>)
    requires
        legacy_wf(models(tags@)),
    ensures
        match legacy_catalog(models(categories@), models(tags@)) {
            Ok(c) => r matches Ok(k) && k@ == c && c.wf(),
            Err(e) => r matches Err(f) && f@ == e,
        },
{
    let ghost old_tags = models(tags@);
    let mut catalog = Catalog {
        categories: Vec::new(),
        category_seq: 0,
        tags: Vec::new(),
        tag_seq: 0,
    };
    proof {
        assert(catalog@ =~= empty_catalog());
        lemma_empty_catalog();
    }
    match add_groups(&mut catalog, &group_categories(categories)) {
        Err(e) => {
            return Err(e);
        },
        Ok(_) => {},
    }
    let ghost first = catalog@;
    match add_missing_groups(&mut catalog, &group_tags(tags)) {
        Err(e) => {
            return Err(e);
        },
        Ok(_) => {},
    }
    proof {
        lemma_with_groups(empty_catalog(), category_groups(models(categories@)));
        lemma_with_missing_groups(first, tag_groups(old_tags));
        lemma_tag_groups(old_tags);
    }
    let ghost c = catalog@;
    let mut rows: Vec<TagRow> = Vec::new();
    let mut largest: i64 = 0;
    let mut i: usize = 0;
    while i < tags.len()
        invariant
            i <= tags@.len(),
            rows@.len() == i,
            old_tags == models(tags@),
            catalog@ == c,
            c.wf(),
            largest == largest_id(old_tags.take(i as int)),
            forall|j: int|
                0 <= j < old_tags.len() ==> has_group(
                    tag_groups(old_tags),
                    dimension((#[trigger] old_tags[j]).category),
                ),
            forall|n: Seq<char>| #[trigger]
                has_group(tag_groups(old_tags), n) ==> has_category_named(c.categories, n),
            forall|j: int| 0 <= j < i ==> (#[trigger] rows@[j])@ == planted(c, old_tags[j]),
        decreases tags@.len() - i,
    {
        proof {
            assert(old_tags.take(i + 1).drop_last() =~= old_tags.take(i as int));
            assert(old_tags.take(i + 1).last() == old_tags[i as int]);
        }
        let home = dimension_now(tags[i].category.as_str());
        proof {
            assert(has_group(tag_groups(old_tags), dimension(old_tags[i as int].category)));
            assert(has_category_named(c.categories, home@));
        }
        let category_id: i64 = match catalog.category_named_index(home.as_str()) {
            Some(k) => {
                proof {
                    assert(nocase(c.categories[k as int].name) == nocase(home@));
                    let x = choose|x: int|
                        0 <= x < c.categories.len() && nocase(#[trigger] c.categories[x].name)
                            == nocase(home@);
                    assert(x == k);
                }
                catalog.categories[k].id
            },
            None => 0,
        };
        rows.push(
            TagRow {
                id: tags[i].id,
                name: tags[i].name.clone(),
                category_id,
                parent_id: None,
                created_at: tags[i].created_at,
            },
        );
        if tags[i].id > largest {
            largest = tags[i].id;
        }
        i = i + 1;
    }
    proof {
        assert(models(rows@) =~= all_planted(c, old_tags));
        assert(old_tags.take(old_tags.len() as int) =~= old_tags);
    }
    if !ids_distinct(&rows) {
        return Err(Failure::Write(Step::MigrateTags, Constraint::Unique(Key::LegacyTagId)));
    }
    if !places_distinct(&rows) {
        return Err(Failure::Write(Step::SwitchTagTables, Constraint::Unique(Key::TagPlace)));
    }
    catalog.tags = rows;
    catalog.tag_seq = largest;
    proof {
        law_legacy_tags_keep_their_identity(models(categories@), old_tags);
    }
    Ok(catalog)
}

} // verus!

//! Laws of the tags that an earlier schema kept.
use vstd::prelude::*;

use crate::catalog::has_category_named;
use crate::catalog::siblings_unique;
use crate::catalog::tag_ids_unique;
use crate::catalog::CatalogModel;
use crate::catalog::CategoryModel;
use crate::legacy::all_planted;
use crate::legacy::category_groups;
use crate::legacy::dimension;
use crate::legacy::empty_catalog;
use crate::legacy::legacy_catalog;
use crate::legacy::legacy_categories;
use crate::legacy::legacy_wf;
use crate::legacy::planted;
use crate::legacy::tag_groups;
use crate::legacy::with_groups;
use crate::legacy::with_member;
use crate::legacy::with_missing_groups;
use crate::legacy::LegacyCategoryModel;
use crate::legacy::LegacyTagModel;
use crate::text::lemma_text_le_total;
use crate::text::lemma_text_le_transitive;
use crate::text::nocase;
use crate::text::text_le;
use crate::tree::with_category;

verus! {

/// A category without a name, or of the user's making, is the one for unassigned tags now; any
/// other has its name still.
pub proof fn law_categories_have_their_names_still(name: Seq<char>)
    ensures
        name == ""@ || name == "自定义"@ ==> dimension(name) == "未分类"@,
        name != ""@ && name != "自定义"@ ==> dimension(name) == name,
{
    reveal_strlit("");
    assert(""@ =~= Seq::<char>::empty());
    if name.len() == 0 {
        assert(name =~= ""@);
    }
}

/// Whether groups have different names and stand in the order of these.
pub open spec fn are_ordered(groups: Seq<LegacyCategoryModel>) -> bool {
    forall|i: int, j: int|
        0 <= i < j < groups.len() ==> text_le(
            (#[trigger] groups[i]).name,
            (#[trigger] groups[j]).name,
        ) && groups[i].name != groups[j].name
}

/// Whether one of the groups has the name and is as old as that, or older.
pub open spec fn covers(groups: Seq<LegacyCategoryModel>, m: LegacyCategoryModel) -> bool {
    exists|i: int|
        0 <= i < groups.len() && (#[trigger] groups[i]).name == m.name && groups[i].created_at
            <= m.created_at
}

/// Whether `groups` are the members by their names: in the order of the names, each as old as
/// the oldest member of the name.
pub open spec fn are_grouped(
    groups: Seq<LegacyCategoryModel>,
    members: Seq<LegacyCategoryModel>,
) -> bool {
    &&& are_ordered(groups)
    &&& groups.len() <= members.len()
    &&& forall|i: int| 0 <= i < groups.len() ==> members.contains(#[trigger] groups[i])
    &&& forall|k: int| 0 <= k < members.len() ==> covers(groups, #[trigger] members[k])
}

proof fn lemma_member(groups: Seq<LegacyCategoryModel>, name: Seq<char>, created_at: i64)
    requires
        are_ordered(groups),
    ensures
        ({
            let after = with_member(groups, name, created_at);
            let m = LegacyCategoryModel { name, created_at };
            &&& are_ordered(after)
            &&& after.len() <= groups.len() + 1
            &&& covers(after, m)
            &&& forall|i: int|
                0 <= i < after.len() ==> groups.contains(#[trigger] after[i]) || after[i] == m
            &&& forall|i: int| 0 <= i < groups.len() ==> covers(after, #[trigger] groups[i])
        }),
    decreases groups.len(),
{
    let after = with_member(groups, name, created_at);
    let m = LegacyCategoryModel { name, created_at };
    if groups.len() == 0 {
        assert(after[0] == m);
    } else if groups[0].name == name {
        assert(after.len() == groups.len());
        assert(after[0].name == name);
        assert forall|i: int| 1 <= i < after.len() implies #[trigger] after[i] == groups[i] by {}
        assert forall|i: int| 0 <= i < groups.len() implies covers(after, #[trigger] groups[i]) by {
            assert(after[i].name == groups[i].name);
        }
        assert forall|i: int, j: int| 0 <= i < j < after.len() implies text_le(
            (#[trigger] after[i]).name,
            (#[trigger] after[j]).name,
        ) && after[i].name != after[j].name by {
            assert(after[i].name == groups[i].name && after[j].name == groups[j].name);
        }
        assert forall|i: int| 0 <= i < after.len() implies groups.contains(#[trigger] after[i])
            || after[i] == m by {
            if i > 0 {
                assert(groups[i] == after[i]);
            } else {
                assert(groups[0] == after[0] || after[0] == m);
            }
        }
    } else if text_le(name, groups[0].name) {
        assert(after[0] == m);
        assert forall|i: int| 0 <= i < groups.len() implies covers(after, #[trigger] groups[i]) by {
            assert(after[i + 1] == groups[i]);
        }
        assert forall|i: int| 0 <= i < after.len() implies groups.contains(#[trigger] after[i])
            || after[i] == m by {
            if i > 0 {
                assert(groups[i - 1] == after[i]);
            }
        }
        assert forall|i: int, j: int| 0 <= i < j < after.len() implies text_le(
            (#[trigger] after[i]).name,
            (#[trigger] after[j]).name,
        ) && after[i].name != after[j].name by {
            assert(after[j] == groups[j - 1]);
            if i > 0 {
                assert(after[i] == groups[i - 1]);
            } else if j > 1 {
                lemma_text_le_transitive(name, groups[0].name, groups[j - 1].name);
                if name == groups[j - 1].name {
                    crate::text::lemma_text_le_antisymmetric(groups[0].name, name);
                }
            }
        }
    } else {
        let rest = groups.drop_first();
        let tail = with_member(rest, name, created_at);
        assert forall|i: int, j: int| 0 <= i < j < rest.len() implies text_le(
            (#[trigger] rest[i]).name,
            (#[trigger] rest[j]).name,
        ) && rest[i].name != rest[j].name by {
            assert(rest[i] == groups[i + 1] && rest[j] == groups[j + 1]);
        }
        lemma_member(rest, name, created_at);
        lemma_text_le_total(name, groups[0].name);
        assert forall|j: int| 0 <= j < tail.len() implies text_le(
            groups[0].name,
            (#[trigger] tail[j]).name,
        ) && groups[0].name != tail[j].name && (groups.contains(tail[j]) || tail[j] == m) by {
            if rest.contains(tail[j]) {
                let k = choose|k: int| 0 <= k < rest.len() && rest[k] == tail[j];
                assert(groups[k + 1] == tail[j]);
                assert(groups[0].name != groups[k + 1].name);
            }
        }
        assert forall|i: int, j: int| 0 <= i < j < after.len() implies text_le(
            (#[trigger] after[i]).name,
            (#[trigger] after[j]).name,
        ) && after[i].name != after[j].name by {
            assert(after[j] == tail[j - 1]);
            if i > 0 {
                assert(after[i] == tail[i - 1]);
            }
        }
        assert forall|i: int| 0 <= i < after.len() implies groups.contains(#[trigger] after[i])
            || after[i] == m by {
            if i > 0 {
                assert(after[i] == tail[i - 1]);
            } else {
                assert(groups[0] == after[0]);
            }
        }
        assert forall|x: LegacyCategoryModel| #[trigger] covers(tail, x) implies covers(
            after,
            x,
        ) by {
            let k = choose|k: int|
                0 <= k < tail.len() && (#[trigger] tail[k]).name == x.name && tail[k].created_at
                    <= x.created_at;
            assert(after[k + 1] == tail[k]);
        }
        assert(covers(tail, m));
        assert forall|i: int| 0 <= i < groups.len() implies covers(after, #[trigger] groups[i]) by {
            if i > 0 {
                assert(rest[i - 1] == groups[i]);
                assert(covers(tail, rest[i - 1]));
            } else {
                assert(after[0] == groups[0]);
            }
        }
    }
}

proof fn lemma_grouped_further(
    groups: Seq<LegacyCategoryModel>,
    members: Seq<LegacyCategoryModel>,
    m: LegacyCategoryModel,
)
    requires
        are_grouped(groups, members),
    ensures
        are_grouped(with_member(groups, m.name, m.created_at), members.push(m)),
{
    let after = with_member(groups, m.name, m.created_at);
    let all = members.push(m);
    lemma_member(groups, m.name, m.created_at);
    assert forall|i: int| 0 <= i < after.len() implies all.contains(#[trigger] after[i]) by {
        if after[i] == m {
            assert(all[members.len() as int] == m);
        } else {
            let g = choose|g: int| 0 <= g < groups.len() && groups[g] == after[i];
            assert(members.contains(groups[g]));
            let k = choose|k: int| 0 <= k < members.len() && members[k] == groups[g];
            assert(all[k] == after[i]);
        }
    }
    assert forall|k: int| 0 <= k < all.len() implies covers(after, #[trigger] all[k]) by {
        if k < members.len() {
            assert(all[k] == members[k]);
            assert(covers(groups, members[k]));
            let g = choose|g: int|
                0 <= g < groups.len() && (#[trigger] groups[g]).name == members[k].name
                    && groups[g].created_at <= members[k].created_at;
            assert(covers(after, groups[g]));
            let i = choose|i: int|
                0 <= i < after.len() && (#[trigger] after[i]).name == groups[g].name
                    && after[i].created_at <= groups[g].created_at;
            assert(after[i].name == all[k].name);
        } else {
            assert(all[k] == m);
        }
    }
}

/// The categories of the earlier schema, by the names that they have now.
pub open spec fn renamed(rows: Seq<LegacyCategoryModel>) -> Seq<LegacyCategoryModel> {
    rows.map_values(
        |r: LegacyCategoryModel|
            LegacyCategoryModel { name: dimension(r.name), created_at: r.created_at },
    )
}

/// The categories that tags name, by the names that they have now.
pub open spec fn told(rows: Seq<LegacyTagModel>) -> Seq<LegacyCategoryModel> {
    rows.map_values(
        |r: LegacyTagModel|
            LegacyCategoryModel { name: dimension(r.category), created_at: r.created_at },
    )
}

/// Categories are grouped by the names that they have now.
pub proof fn law_categories_are_grouped_by_name(rows: Seq<LegacyCategoryModel>)
    ensures
        are_grouped(category_groups(rows), renamed(rows)),
    decreases rows.len(),
{
    if rows.len() > 0 {
        let before = rows.drop_last();
        law_categories_are_grouped_by_name(before);
        let m = LegacyCategoryModel {
            name: dimension(rows.last().name),
            created_at: rows.last().created_at,
        };
        lemma_grouped_further(category_groups(before), renamed(before), m);
        assert(renamed(rows) =~= renamed(before).push(m));
    }
}

/// The categories that tags name are grouped by the names that they have now.
pub proof fn law_categories_of_tags_are_grouped_by_name(rows: Seq<LegacyTagModel>)
    ensures
        are_grouped(tag_groups(rows), told(rows)),
    decreases rows.len(),
{
    if rows.len() > 0 {
        let before = rows.drop_last();
        law_categories_of_tags_are_grouped_by_name(before);
        let m = LegacyCategoryModel {
            name: dimension(rows.last().category),
            created_at: rows.last().created_at,
        };
        lemma_grouped_further(tag_groups(before), told(before), m);
        assert(told(rows) =~= told(before).push(m));
    }
}

/// Whether names differ in more than case.
pub open spec fn differ(groups: Seq<LegacyCategoryModel>) -> bool {
    forall|i: int, j: int|
        0 <= i < j < groups.len() ==> nocase((#[trigger] groups[i]).name) != nocase(
            (#[trigger] groups[j]).name,
        )
}

/// Whether no category has one of the names.
spec fn are_free(categories: Seq<CategoryModel>, groups: Seq<LegacyCategoryModel>) -> bool {
    forall|i: int|
        0 <= i < groups.len() ==> !has_category_named(categories, (#[trigger] groups[i]).name)
}

/// The groups as categories, with identifiers behind `seq`.
spec fn rows_of(seq: i64, groups: Seq<LegacyCategoryModel>) -> Seq<CategoryModel> {
    Seq::new(
        groups.len(),
        |k: int|
            CategoryModel {
                id: (seq + 1 + k) as i64,
                name: groups[k].name,
                created_at: groups[k].created_at,
            },
    )
}

proof fn lemma_groups_added(c: CatalogModel, groups: Seq<LegacyCategoryModel>)
    requires
        c.category_seq + groups.len() <= i64::MAX,
    ensures
        with_groups(c, groups) is Ok <==> differ(groups) && are_free(c.categories, groups),
        with_groups(c, groups) is Ok ==> (with_groups(c, groups)->Ok_0).categories == c.categories
            + rows_of(c.category_seq, groups) && (with_groups(c, groups)->Ok_0).category_seq
            == c.category_seq + groups.len(),
    decreases groups.len(),
{
    if groups.len() == 0 {
        assert(c.categories + rows_of(c.category_seq, groups) =~= c.categories);
    } else if has_category_named(c.categories, groups[0].name) {
        assert(!are_free(c.categories, groups));
    } else {
        let d = with_category(c, groups[0].name, groups[0].created_at)->0;
        let rest = groups.drop_first();
        lemma_groups_added(d, rest);
        let n = c.categories.len() as int;
        assert(d.categories[n].name == groups[0].name);
        assert forall|x: Seq<char>| #[trigger] has_category_named(d.categories, x) <==>
            has_category_named(c.categories, x) || nocase(groups[0].name) == nocase(x) by {
            if has_category_named(c.categories, x) {
                let i = choose|i: int|
                    0 <= i < c.categories.len() && nocase(#[trigger] c.categories[i].name)
                        == nocase(x);
                assert(d.categories[i] == c.categories[i]);
            }
            if has_category_named(d.categories, x) {
                let i = choose|i: int|
                    0 <= i < d.categories.len() && nocase(#[trigger] d.categories[i].name)
                        == nocase(x);
                if i < n {
                    assert(c.categories[i] == d.categories[i]);
                }
            }
        }
        if differ(rest) && are_free(d.categories, rest) {
            assert forall|i: int, j: int| 0 <= i < j < groups.len() implies nocase(
                (#[trigger] groups[i]).name,
            ) != nocase((#[trigger] groups[j]).name) by {
                assert(groups[j] == rest[j - 1]);
                if i > 0 {
                    assert(groups[i] == rest[i - 1]);
                }
            }
            assert forall|i: int| 0 <= i < groups.len() implies !has_category_named(
                c.categories,
                (#[trigger] groups[i]).name,
            ) by {
                if i > 0 {
                    assert(groups[i] == rest[i - 1]);
                }
            }
        }
        if differ(groups) && are_free(c.categories, groups) {
            assert forall|i: int, j: int| 0 <= i < j < rest.len() implies nocase(
                (#[trigger] rest[i]).name,
            ) != nocase((#[trigger] rest[j]).name) by {
                assert(groups[i + 1] == rest[i] && groups[j + 1] == rest[j]);
            }
            assert forall|i: int| 0 <= i < rest.len() implies !has_category_named(
                d.categories,
                (#[trigger] rest[i]).name,
            ) by {
                assert(groups[i + 1] == rest[i]);
                assert(nocase(groups[0].name) != nocase(groups[i + 1].name));
            }
        }
        if with_groups(c, groups) is Ok {
            assert(d.categories + rows_of(d.category_seq, rest) =~= c.categories + rows_of(
                c.category_seq,
                groups,
            ));
        }
    }
}

/// Whether a category is one of the groups, and one that was missing.
spec fn was_missing(
    categories: Seq<CategoryModel>,
    groups: Seq<LegacyCategoryModel>,
    x: CategoryModel,
) -> bool {
    &&& !has_category_named(categories, x.name)
    &&& groups.contains(LegacyCategoryModel { name: x.name, created_at: x.created_at })
}

proof fn lemma_missing_added(c: CatalogModel, groups: Seq<LegacyCategoryModel>)
    requires
        c.category_seq + groups.len() <= i64::MAX,
    ensures
        with_missing_groups(c, groups) is Ok,
        ({
            let d = with_missing_groups(c, groups)->Ok_0;
            &&& c.categories.len() <= d.categories.len()
            &&& d.categories.take(c.categories.len() as int) == c.categories
            &&& forall|i: int|
                c.categories.len() <= i < d.categories.len() ==> was_missing(
                    c.categories,
                    groups,
                    #[trigger] d.categories[i],
                )
            &&& forall|k: int|
                0 <= k < groups.len() ==> has_category_named(
                    d.categories,
                    (#[trigger] groups[k]).name,
                )
        }),
    decreases groups.len(),
{
    assert(c.categories.take(c.categories.len() as int) =~= c.categories);
    if groups.len() > 0 {
        let m = with_category(c, groups[0].name, groups[0].created_at)->0;
        let rest = groups.drop_first();
        lemma_missing_added(m, rest);
        let d = with_missing_groups(c, groups)->Ok_0;
        let (n, k) = (c.categories.len() as int, m.categories.len() as int);
        assert(m.categories.take(n) =~= c.categories);
        assert(d.categories.take(n) =~= d.categories.take(k).take(n));
        assert forall|x: Seq<char>| #[trigger] has_category_named(c.categories, x) implies
            has_category_named(m.categories, x) by {
            let i = choose|i: int|
                0 <= i < c.categories.len() && nocase(#[trigger] c.categories[i].name) == nocase(x);
            assert(m.categories[i] == c.categories[i]);
        }
        assert forall|x: Seq<char>| #[trigger] has_category_named(m.categories, x) implies
            has_category_named(d.categories, x) by {
            let i = choose|i: int|
                0 <= i < m.categories.len() && nocase(#[trigger] m.categories[i].name) == nocase(x);
            assert(d.categories.take(k)[i] == m.categories[i]);
        }
        assert(has_category_named(m.categories, groups[0].name)) by {
            if !has_category_named(c.categories, groups[0].name) {
                assert(m.categories[n].name == groups[0].name);
            }
        }
        assert forall|g: int| 0 <= g < groups.len() implies has_category_named(
            d.categories,
            (#[trigger] groups[g]).name,
        ) by {
            if g > 0 {
                assert(rest[g - 1] == groups[g]);
            }
        }
        assert forall|i: int| n <= i < d.categories.len() implies was_missing(
            c.categories,
            groups,
            #[trigger] d.categories[i],
        ) by {
            let x = d.categories[i];
            if i < k {
                assert(d.categories.take(k)[i] == m.categories[i]);
                assert(groups[0] == (LegacyCategoryModel {
                    name: x.name,
                    created_at: x.created_at,
                }));
            } else {
                assert(was_missing(m.categories, rest, x));
                let g = choose|g: int|
                    0 <= g < rest.len() && rest[g] == (LegacyCategoryModel {
                        name: x.name,
                        created_at: x.created_at,
                    });
                assert(groups[g + 1] == rest[g]);
            }
        }
    }
}

/// Whether a category of the earlier schema is now named so, case aside.
pub open spec fn is_kept(categories: Seq<LegacyCategoryModel>, name: Seq<char>) -> bool {
    exists|i: int|
        0 <= i < categories.len() && nocase(dimension((#[trigger] categories[i]).name)) == nocase(
            name,
        )
}

/// Every category that is made of tags and categories of the earlier schema is one that a
/// category was, or that a tag names that no category was; and it is as old as the oldest of
/// those that have its name.
pub proof fn law_categories_are_as_old_as_their_oldest(
    categories: Seq<LegacyCategoryModel>,
    tags: Seq<LegacyTagModel>,
    x: int,
)
    requires
        legacy_wf(tags),
        categories.len() + tags.len() <= i64::MAX,
        legacy_catalog(categories, tags) is Ok,
        0 <= x < (legacy_catalog(categories, tags)->Ok_0).categories.len(),
    ensures
        ({
            let c = (legacy_catalog(categories, tags)->Ok_0).categories[x];
            &&& is_kept(categories, c.name) ==> exists|i: int|
                0 <= i < categories.len() && dimension((#[trigger] categories[i]).name) == c.name
                    && categories[i].created_at == c.created_at
            &&& is_kept(categories, c.name) ==> forall|i: int|
                0 <= i < categories.len() && dimension((#[trigger] categories[i]).name) == c.name
                    ==> c.created_at <= categories[i].created_at
            &&& !is_kept(categories, c.name) ==> exists|i: int|
                0 <= i < tags.len() && dimension((#[trigger] tags[i]).category) == c.name
                    && tags[i].created_at == c.created_at
            &&& !is_kept(categories, c.name) ==> forall|i: int|
                0 <= i < tags.len() && dimension((#[trigger] tags[i]).category) == c.name
                    ==> c.created_at <= tags[i].created_at
        }),
{
    let all = legacy_catalog(categories, tags)->Ok_0;
    let c = all.categories[x];
    let (groups, others) = (category_groups(categories), tag_groups(tags));
    let first = with_groups(empty_catalog(), groups)->Ok_0;
    law_categories_are_grouped_by_name(categories);
    law_categories_of_tags_are_grouped_by_name(tags);
    lemma_groups_added(empty_catalog(), groups);
    lemma_missing_added(first, others);
    let n = first.categories.len() as int;
    let g = LegacyCategoryModel { name: c.name, created_at: c.created_at };
    if x < n {
        assert(all.categories.take(n)[x] == first.categories[x]);
        assert(groups[x] == g);
        assert(renamed(categories).contains(groups[x]));
        let i = choose|i: int| 0 <= i < renamed(categories).len() && renamed(categories)[i] == g;
        assert(dimension(categories[i].name) == c.name && categories[i].created_at == c.created_at);
        assert(is_kept(categories, c.name));
        assert forall|i: int|
            0 <= i < categories.len() && dimension((#[trigger] categories[i]).name)
                == c.name implies c.created_at <= categories[i].created_at by {
            assert(covers(groups, renamed(categories)[i]));
            let k = choose|k: int|
                0 <= k < groups.len() && (#[trigger] groups[k]).name == c.name
                    && groups[k].created_at <= categories[i].created_at;
            assert(k == x) by {
                if k < x {
                    assert(groups[k].name != groups[x].name);
                } else if x < k {
                    assert(groups[x].name != groups[k].name);
                }
            }
        }
    } else {
        assert(was_missing(first.categories, others, c));
        assert(!is_kept(categories, c.name)) by {
            if is_kept(categories, c.name) {
                let i = choose|i: int|
                    0 <= i < categories.len() && nocase(dimension((#[trigger] categories[i]).name))
                        == nocase(c.name);
                assert(covers(groups, renamed(categories)[i]));
                let k = choose|k: int|
                    0 <= k < groups.len() && (#[trigger] groups[k]).name == dimension(
                        categories[i].name,
                    ) && groups[k].created_at <= categories[i].created_at;
                assert(first.categories[k].name == groups[k].name);
                assert(has_category_named(first.categories, c.name));
            }
        }
        let y = choose|y: int| 0 <= y < others.len() && others[y] == g;
        assert(told(tags).contains(others[y]));
        let i = choose|i: int| 0 <= i < told(tags).len() && told(tags)[i] == g;
        assert(dimension(tags[i].category) == c.name && tags[i].created_at == c.created_at);
        assert forall|i: int|
            0 <= i < tags.len() && dimension((#[trigger] tags[i]).category)
                == c.name implies c.created_at <= tags[i].created_at by {
            assert(covers(others, told(tags)[i]));
            let k = choose|k: int|
                0 <= k < others.len() && (#[trigger] others[k]).name == c.name
                    && others[k].created_at <= tags[i].created_at;
            assert(k == y) by {
                if k < y {
                    assert(others[k].name != others[y].name);
                } else if y < k {
                    assert(others[y].name != others[k].name);
                }
            }
        }
    }
}

/// Categories of the earlier schema become categories in the order of their names, with
/// identifiers from one on.
pub proof fn law_categories_stand_in_the_order_of_names(
    categories: Seq<LegacyCategoryModel>,
    tags: Seq<LegacyTagModel>,
)
    requires
        categories.len() + tags.len() <= i64::MAX,
        legacy_catalog(categories, tags) is Ok,
    ensures
        ({
            let c = legacy_catalog(categories, tags)->Ok_0;
            forall|i: int, j: int|
                0 <= i < j < c.categories.len() && is_kept(
                    categories,
                    (#[trigger] c.categories[j]).name,
                ) ==> is_kept(categories, (#[trigger] c.categories[i]).name)
                    && c.categories[i].id == i + 1 && c.categories[j].id == j + 1 && text_le(
                    c.categories[i].name,
                    c.categories[j].name,
                )
        }),
{
    let all = legacy_catalog(categories, tags)->Ok_0;
    let (groups, others) = (category_groups(categories), tag_groups(tags));
    let first = with_groups(empty_catalog(), groups)->Ok_0;
    law_categories_are_grouped_by_name(categories);
    law_categories_of_tags_are_grouped_by_name(tags);
    lemma_groups_added(empty_catalog(), groups);
    lemma_missing_added(first, others);
    let n = first.categories.len() as int;
    assert forall|i: int, j: int|
        0 <= i < j < all.categories.len() && is_kept(
            categories,
            (#[trigger] all.categories[j]).name,
        ) implies is_kept(categories, (#[trigger] all.categories[i]).name) && all.categories[i].id
        == i + 1 && all.categories[j].id == j + 1 && text_le(
        all.categories[i].name,
        all.categories[j].name,
    ) by {
        assert(j < n) by {
            if j >= n {
                let x = all.categories[j];
                assert(was_missing(first.categories, others, x));
                let i = choose|i: int|
                    0 <= i < categories.len() && nocase(dimension((#[trigger] categories[i]).name))
                        == nocase(x.name);
                assert(covers(groups, renamed(categories)[i]));
                let k = choose|k: int|
                    0 <= k < groups.len() && (#[trigger] groups[k]).name == dimension(
                        categories[i].name,
                    ) && groups[k].created_at <= categories[i].created_at;
                assert(first.categories[k].name == groups[k].name);
                assert(has_category_named(first.categories, x.name));
            }
        }
        assert(all.categories.take(n)[i] == first.categories[i]);
        assert(all.categories.take(n)[j] == first.categories[j]);
        assert(first.categories[i].name == groups[i].name);
        assert(first.categories[j].name == groups[j].name);
        assert(renamed(categories).contains(groups[i]));
        let k = choose|k: int|
            0 <= k < renamed(categories).len() && renamed(categories)[k] == groups[i];
        assert(dimension(categories[k].name) == groups[i].name);
    }
}

/// Tags of the earlier schema become a catalog wherever categories that are named the same but
/// for case are named the same, every tag has an identifier of its own, and no two tags of one
/// category have one name; names of categories and tags are told apart by more than case.
pub proof fn law_tags_of_old_can_be_kept(
    categories: Seq<LegacyCategoryModel>,
    tags: Seq<LegacyTagModel>,
)
    requires
        legacy_wf(tags),
        categories.len() + tags.len() <= i64::MAX,
    ensures
        legacy_catalog(categories, tags) is Ok <==> {
            &&& forall|i: int, j: int|
                0 <= i < categories.len() && 0 <= j < categories.len() && nocase(
                    dimension((#[trigger] categories[i]).name),
                ) == nocase(dimension((#[trigger] categories[j]).name)) ==> dimension(
                    categories[i].name,
                ) == dimension(categories[j].name)
            &&& forall|i: int, j: int|
                0 <= i < j < tags.len() ==> (#[trigger] tags[i]).id != (#[trigger] tags[j]).id && !(
                nocase(dimension(tags[i].category)) == nocase(dimension(tags[j].category))
                    && nocase(tags[i].name) == nocase(tags[j].name))
        },
{
    let (groups, others) = (category_groups(categories), tag_groups(tags));
    law_categories_are_grouped_by_name(categories);
    law_categories_of_tags_are_grouped_by_name(tags);
    lemma_groups_added(empty_catalog(), groups);
    assert(are_free(empty_catalog().categories, groups));
    let names = forall|i: int, j: int|
        0 <= i < categories.len() && 0 <= j < categories.len() && nocase(
            dimension((#[trigger] categories[i]).name),
        ) == nocase(dimension((#[trigger] categories[j]).name)) ==> dimension(categories[i].name)
            == dimension(categories[j].name);
    assert(differ(groups) <==> names) by {
        if differ(groups) {
            assert forall|i: int, j: int|
                0 <= i < categories.len() && 0 <= j < categories.len() && nocase(
                    dimension((#[trigger] categories[i]).name),
                ) == nocase(dimension((#[trigger] categories[j]).name)) implies dimension(
                categories[i].name,
            ) == dimension(categories[j].name) by {
                assert(covers(groups, renamed(categories)[i]));
                assert(covers(groups, renamed(categories)[j]));
                let a = choose|a: int|
                    0 <= a < groups.len() && (#[trigger] groups[a]).name == dimension(
                        categories[i].name,
                    ) && groups[a].created_at <= categories[i].created_at;
                let b = choose|b: int|
                    0 <= b < groups.len() && (#[trigger] groups[b]).name == dimension(
                        categories[j].name,
                    ) && groups[b].created_at <= categories[j].created_at;
                assert(a == b) by {
                    if a < b {
                        assert(nocase(groups[a].name) != nocase(groups[b].name));
                    } else if b < a {
                        assert(nocase(groups[b].name) != nocase(groups[a].name));
                    }
                }
            }
        }
        if names {
            assert forall|i: int, j: int| 0 <= i < j < groups.len() implies nocase(
                (#[trigger] groups[i]).name,
            ) != nocase((#[trigger] groups[j]).name) by {
                assert(renamed(categories).contains(groups[i]));
                assert(renamed(categories).contains(groups[j]));
                let a = choose|a: int|
                    0 <= a < renamed(categories).len() && renamed(categories)[a] == groups[i];
                let b = choose|b: int|
                    0 <= b < renamed(categories).len() && renamed(categories)[b] == groups[j];
                assert(dimension(categories[a].name) == groups[i].name);
                assert(dimension(categories[b].name) == groups[j].name);
                assert(groups[i].name != groups[j].name);
            }
        }
    }
    if names {
        let first = with_groups(empty_catalog(), groups)->Ok_0;
        lemma_missing_added(first, others);
        let c = legacy_categories(categories, tags)->Ok_0;
        crate::legacy::lemma_legacy_categories(categories, tags);
        let rows = all_planted(c, tags);
        assert forall|i: int| 0 <= i < tags.len() implies exists|k: int|
            0 <= k < c.categories.len() && (#[trigger] c.categories[k]).id == (
            #[trigger] rows[i]).category_id && nocase(c.categories[k].name) == nocase(
                dimension(tags[i].category),
            ) by {
            let name = dimension(tags[i].category);
            assert(covers(others, told(tags)[i]));
            let g = choose|g: int|
                0 <= g < others.len() && (#[trigger] others[g]).name == name
                    && others[g].created_at <= tags[i].created_at;
            assert(has_category_named(c.categories, others[g].name));
            let k = choose|k: int|
                0 <= k < c.categories.len() && nocase(#[trigger] c.categories[k].name) == nocase(
                    name,
                );
            assert(rows[i] == planted(c, tags[i]));
            assert(c.categories[k].id == rows[i].category_id);
        }
        assert forall|i: int, j: int| 0 <= i < j < tags.len() implies ((
        #[trigger] rows[i]).category_id == (#[trigger] rows[j]).category_id <==> nocase(
            dimension(tags[i].category),
        ) == nocase(dimension(tags[j].category))) by {
            let a = choose|k: int|
                0 <= k < c.categories.len() && (#[trigger] c.categories[k]).id
                    == rows[i].category_id && nocase(c.categories[k].name) == nocase(
                    dimension(tags[i].category),
                );
            let b = choose|k: int|
                0 <= k < c.categories.len() && (#[trigger] c.categories[k]).id
                    == rows[j].category_id && nocase(c.categories[k].name) == nocase(
                    dimension(tags[j].category),
                );
            if a < b {
                assert(c.categories[a].id != c.categories[b].id);
            } else if b < a {
                assert(c.categories[b].id != c.categories[a].id);
            }
        }
        let apart = forall|i: int, j: int|
            0 <= i < j < tags.len() ==> (#[trigger] tags[i]).id != (#[trigger] tags[j]).id && !(
            nocase(dimension(tags[i].category)) == nocase(dimension(tags[j].category)) && nocase(
                tags[i].name,
            ) == nocase(tags[j].name));
        if apart {
            assert forall|i: int, j: int| 0 <= i < j < rows.len() implies (#[trigger] rows[i]).id
                != (#[trigger] rows[j]).id by {
                assert(tags[i].id != tags[j].id);
            }
            assert(tag_ids_unique(rows));
            assert(siblings_unique(rows)) by {
                assert forall|i: int, j: int| 0 <= i < j < rows.len() implies !((
                #[trigger] rows[i]).category_id == (#[trigger] rows[j]).category_id
                    && rows[i].parent_id == rows[j].parent_id && nocase(rows[i].name) == nocase(
                    rows[j].name,
                )) by {
                    assert(tags[i].id != tags[j].id);
                }
            }
        }
        if tag_ids_unique(rows) && siblings_unique(rows) {
            assert forall|i: int, j: int| 0 <= i < j < tags.len() implies (#[trigger] tags[i]).id
                != (#[trigger] tags[j]).id && !(nocase(dimension(tags[i].category)) == nocase(
                dimension(tags[j].category),
            ) && nocase(tags[i].name) == nocase(tags[j].name)) by {
                assert(rows[i].id != rows[j].id);
            }
        }
    }
}

} // verus!

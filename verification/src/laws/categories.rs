//! Laws of categories, and of tags that are renamed and assigned to them.
use vstd::prelude::*;

use crate::catalog::aligned;
use crate::catalog::category_named;
use crate::catalog::descends;
use crate::catalog::has_category_named;
use crate::catalog::has_tag;
use crate::catalog::is_rank;
use crate::catalog::lemma_category_at;
use crate::catalog::lemma_tag_at;
use crate::catalog::rank_of;
use crate::catalog::same_place;
use crate::catalog::siblings_unique;
use crate::catalog::CatalogModel;
use crate::catalog::CategoryModel;
use crate::failure::Constraint;
use crate::failure::ErrorModel;
use crate::failure::Failure;
use crate::failure::Key;
use crate::failure::Rule;
use crate::failure::Step;
use crate::laws::tags::asked_name;
use crate::laws::tags::holds_category;
use crate::laws::tags::is_named;
use crate::laws::tags::lemma_all_but_one;
use crate::laws::tags::lemma_category_held;
use crate::laws::tags::lemma_move_clashes_at_its_end_only;
use crate::laws::tags::name_is_there;
use crate::tags::create_category_result;
use crate::tags::delete_category_result;
use crate::tags::other_category;
use crate::tags::update_category_result;
use crate::text::is_blank;
use crate::text::lowered;
use crate::text::nocase;
use crate::text::trimmed;
use crate::tree::lemma_renamed;
use crate::tree::renamed;
use crate::tree::taken;
use crate::tree::update_result;
use crate::tree::with_category;

verus! {

/// What stands below what does not depend on names.
proof fn lemma_below_in_spite_of_names(c: CatalogModel, i: int, name: Seq<char>, j: int)
    requires
        c.wf(),
        0 <= i < c.tags.len(),
        0 <= j < c.tags.len(),
        siblings_unique(renamed(c.tags, c.tags[i].id, name)),
    ensures
        descends(renamed(c.tags, c.tags[i].id, name), c.tags[j].id, c.tags[i].id) == descends(
            c.tags,
            c.tags[j].id,
            c.tags[i].id,
        ),
    decreases rank_of(c.tags)(c.tags[j].id),
{
    let after = renamed(c.tags, c.tags[i].id, name);
    lemma_renamed(c, c.tags[i].id, name);
    lemma_tag_at(c.tags, j);
    lemma_tag_at(after, j);
    assert(after[j].id == c.tags[j].id);
    assert(is_rank(c.tags, rank_of(c.tags)));
    if let Some(p) = c.tags[j].parent_id {
        assert(has_tag(c.tags, p));
        let k = choose|k: int| 0 <= k < c.tags.len() && #[trigger] c.tags[k].id == p;
        lemma_below_in_spite_of_names(c, i, name, k);
    }
}

/// A tag that was changed has the name asked for, trimmed; where no category was named it
/// stands where it stood, and where one was, at the root of that category. Nothing else of it
/// changes; every other tag keeps all but its category, which changes only with that of the
/// tag, and only below it.
pub proof fn law_updated_tag_is_renamed_and_assigned(
    c: CatalogModel,
    i: int,
    name: Seq<char>,
    category: Option<Seq<char>>,
    now: i64,
)
    requires
        c.wf(),
        0 <= i < c.tags.len(),
        update_result(c, c.tags[i].id, name, category, now) is Ok,
    ensures
        ({
            let d = update_result(c, c.tags[i].id, name, category, now)->Ok_0;
            let (t, u) = (c.tags[i], d.tags[i]);
            &&& d.tags.len() == c.tags.len()
            &&& d.tag_seq == c.tag_seq
            &&& !is_blank(name)
            &&& u.id == t.id
            &&& u.name == trimmed(name)
            &&& u.created_at == t.created_at
            &&& match category {
                None => u.parent_id == t.parent_id && u.category_id == t.category_id && d.categories
                    == c.categories,
                Some(_) => u.parent_id is None && is_named(
                    d.categories,
                    u.category_id,
                    asked_name(category),
                ) && holds_category(c.categories, d.categories, asked_name(category), now),
            }
            &&& forall|j: int|
                0 <= j < c.tags.len() && j != i ==> (#[trigger] d.tags[j]).id == c.tags[j].id
                    && d.tags[j].name == c.tags[j].name && d.tags[j].parent_id
                    == c.tags[j].parent_id && d.tags[j].created_at == c.tags[j].created_at
                    && d.tags[j].category_id == if u.category_id != t.category_id && descends(
                    c.tags,
                    c.tags[j].id,
                    t.id,
                ) {
                    u.category_id
                } else {
                    c.tags[j].category_id
                }
        }),
{
    let id = c.tags[i].id;
    let n = trimmed(name);
    let tags = renamed(c.tags, id, n);
    let d = update_result(c, id, name, category, now)->Ok_0;
    lemma_tag_at(c.tags, i);
    lemma_renamed(c, id, n);
    lemma_tag_at(tags, i);
    if let Some(k) = category {
        lemma_category_held(CatalogModel { tags, ..c }, asked_name(category), now);
    }
    assert forall|j: int| 0 <= j < c.tags.len() && j != i implies (#[trigger] d.tags[j]).id
        == c.tags[j].id && d.tags[j].name == c.tags[j].name && d.tags[j].parent_id
        == c.tags[j].parent_id && d.tags[j].created_at == c.tags[j].created_at
        && d.tags[j].category_id == if d.tags[i].category_id != c.tags[i].category_id && descends(
        c.tags,
        c.tags[j].id,
        id,
    ) {
        d.tags[i].category_id
    } else {
        c.tags[j].category_id
    } by {
        if j < i {
            assert(c.tags[j].id != c.tags[i].id);
        } else {
            assert(c.tags[i].id != c.tags[j].id);
        }
        lemma_below_in_spite_of_names(c, i, n, j);
    }
}

/// A tag can be renamed where its new name is not blank and no other tag has it where it
/// stands; and assigned to a category, which need not exist, as long as there are identifiers
/// and no other tag has the name at its root.
pub proof fn law_tag_can_be_updated(
    c: CatalogModel,
    i: int,
    name: Seq<char>,
    category: Option<Seq<char>>,
    now: i64,
)
    requires
        c.wf(),
        aligned(c.tags),
        0 <= i < c.tags.len(),
    ensures
        update_result(c, c.tags[i].id, name, category, now) is Ok <==> !is_blank(name)
            && !name_is_there(
            c.tags,
            i,
            c.tags[i].parent_id,
            c.tags[i].category_id,
            trimmed(name),
        ) && (category is Some ==> c.category_seq < i64::MAX && forall|x: int|
            0 <= x < c.categories.len() && nocase((#[trigger] c.categories[x]).name) == nocase(
                asked_name(category),
            ) ==> !name_is_there(c.tags, i, None, c.categories[x].id, trimmed(name))),
{
    let id = c.tags[i].id;
    let n = trimmed(name);
    let tags = renamed(c.tags, id, n);
    let here = name_is_there(c.tags, i, c.tags[i].parent_id, c.tags[i].category_id, n);
    lemma_tag_at(c.tags, i);
    assert forall|j: int| 0 <= j < tags.len() && j != i implies #[trigger] tags[j] == c.tags[j] by {
        if j < i {
            assert(c.tags[j].id != c.tags[i].id);
        } else {
            assert(c.tags[i].id != c.tags[j].id);
        }
    }
    assert(siblings_unique(tags) <==> !here) by {
        if here {
            let j = choose|j: int|
                0 <= j < c.tags.len() && j != i && (#[trigger] c.tags[j]).parent_id
                    == c.tags[i].parent_id && c.tags[j].category_id == c.tags[i].category_id
                    && nocase(c.tags[j].name) == nocase(n);
            assert(tags[j] == c.tags[j]);
            assert(same_place(tags[i], tags[j]) && same_place(tags[j], tags[i]));
            if i < j {
                assert(!siblings_unique(tags));
            } else {
                assert(!siblings_unique(tags));
            }
        }
        if !siblings_unique(tags) {
            let (x, y) = choose|x: int, y: int|
                0 <= x < y < tags.len() && same_place(#[trigger] tags[x], #[trigger] tags[y]);
            assert(!same_place(c.tags[x], c.tags[y]));
            if x == i {
                assert(tags[y] == c.tags[y]);
            } else {
                assert(tags[x] == c.tags[x]);
                assert(y == i);
            }
        }
    }
    if !is_blank(name) && !here && category is Some && c.category_seq < i64::MAX {
        let e = CatalogModel { tags, ..c };
        let want = asked_name(category);
        lemma_renamed(c, id, n);
        lemma_tag_at(tags, i);
        let d = with_category(e, want, now)->0;
        let k = category_named(d.categories, want).id;
        lemma_category_held(e, want, now);
        let y = choose|y: int|
            0 <= y < d.categories.len() && (#[trigger] d.categories[y]).id == k && nocase(
                d.categories[y].name,
            ) == nocase(want);
        assert(taken(tags, id, k, None, n) <==> name_is_there(c.tags, i, None, k, n)) by {
            if taken(tags, id, k, None, n) {
                let j = choose|j: int|
                    0 <= j < tags.len() && (#[trigger] tags[j]).id != id && tags[j].category_id == k
                        && tags[j].parent_id == None::<i64> && nocase(tags[j].name) == nocase(n);
                assert(tags[j] == c.tags[j]);
            }
            if name_is_there(c.tags, i, None, k, n) {
                let j = choose|j: int|
                    0 <= j < c.tags.len() && j != i && (#[trigger] c.tags[j]).parent_id
                        == None::<i64> && c.tags[j].category_id == k && nocase(c.tags[j].name)
                        == nocase(n);
                assert(tags[j] == c.tags[j]);
                assert(tags[j].id != id) by {
                    if j < i {
                        assert(c.tags[j].id != c.tags[i].id);
                    } else {
                        assert(c.tags[i].id != c.tags[j].id);
                    }
                }
            }
        }
        if !name_is_there(c.tags, i, None, k, n) {
            assert(!name_is_there(tags, i, None, k, tags[i].name)) by {
                if name_is_there(tags, i, None, k, tags[i].name) {
                    let j = choose|j: int|
                        0 <= j < tags.len() && j != i && (#[trigger] tags[j]).parent_id
                            == None::<i64> && tags[j].category_id == k && nocase(tags[j].name)
                            == nocase(tags[i].name);
                    assert(tags[j] == c.tags[j]);
                }
            }
            lemma_move_clashes_at_its_end_only(e, i, None, k);
        }
        if has_category_named(c.categories, want) {
            assert forall|x: int|
                0 <= x < c.categories.len() && nocase((#[trigger] c.categories[x]).name) == nocase(
                    want,
                ) implies x == y by {
                if x < y {
                    assert(nocase(c.categories[x].name) != nocase(c.categories[y].name));
                } else if y < x {
                    assert(nocase(c.categories[y].name) != nocase(c.categories[x].name));
                }
            }
        } else {
            assert(y == c.categories.len()) by {
                if y < c.categories.len() {
                    assert(d.categories.take(c.categories.len() as int)[y] == c.categories[y]);
                }
            }
            assert forall|j: int| 0 <= j < c.tags.len() implies (#[trigger] c.tags[j]).category_id
                != k by {
                assert(crate::catalog::has_category(c.categories, c.tags[j].category_id));
                let x = choose|x: int|
                    0 <= x < c.categories.len() && #[trigger] c.categories[x].id
                        == c.tags[j].category_id;
                assert(c.categories[x].id < d.categories.last().id);
            }
        }
    }
}

/// A category is created under any name that is not blank and that no category has, as long as
/// there are identifiers: trimmed, at the end, beside what is there.
pub proof fn law_created_category_is_there(c: CatalogModel, name: Seq<char>, now: i64)
    requires
        c.wf(),
    ensures
        ({
            let r = create_category_result(c, name, now);
            let there = exists|x: int|
                0 <= x < c.categories.len() && nocase((#[trigger] c.categories[x]).name) == nocase(
                    trimmed(name),
                );
            &&& r is Ok <==> !is_blank(name) && c.category_seq < i64::MAX && !there
            &&& r matches Ok(d) ==> d.tags == c.tags && d.tag_seq == c.tag_seq && d.categories.len()
                == c.categories.len() + 1 && d.categories.drop_last() == c.categories
                && d.categories.last().name == trimmed(name) && d.categories.last().created_at == now
                && d.categories.last().id == c.category_seq + 1
            &&& is_blank(name) ==> r == Err::<CatalogModel, ErrorModel>(
                Failure::Rule(Rule::EmptyCategoryName),
            )
            &&& !is_blank(name) && c.category_seq < i64::MAX && there ==> r == Err::<
                CatalogModel,
                ErrorModel,
            >(Failure::Write(Step::CreateCategory, Constraint::Unique(Key::CategoryName)))
        }),
{
    if let Ok(d) = create_category_result(c, name, now) {
        assert(d.categories.drop_last() =~= c.categories);
    }
}

/// A category is renamed where it exists and the new name is not blank and no other category
/// has it: to the new name, trimmed, and nothing else changes. Where the names differ in the
/// case of ASCII letters at most, nothing changes at all.
pub proof fn law_renamed_category_keeps_its_tags(
    c: CatalogModel,
    old_name: Seq<char>,
    name: Seq<char>,
    i: int,
)
    requires
        c.wf(),
        0 <= i < c.categories.len(),
        nocase(c.categories[i].name) == nocase(trimmed(old_name)),
        !is_blank(old_name),
        lowered(trimmed(old_name)) != lowered(trimmed(name)),
    ensures
        ({
            let r = update_category_result(c, old_name, name);
            let there = exists|x: int|
                0 <= x < c.categories.len() && x != i && nocase((#[trigger] c.categories[x]).name)
                    == nocase(trimmed(name));
            &&& r is Ok <==> !is_blank(name) && !there
            &&& r matches Ok(d) ==> d.tags == c.tags && d.tag_seq == c.tag_seq && d.category_seq
                == c.category_seq && d.categories == c.categories.update(
                i,
                CategoryModel {
                    id: c.categories[i].id,
                    name: trimmed(name),
                    created_at: c.categories[i].created_at,
                },
            )
            &&& !is_blank(name) && there ==> r == Err::<CatalogModel, ErrorModel>(
                Failure::Write(Step::UpdateCategory, Constraint::Unique(Key::CategoryName)),
            )
        }),
{
    let (o, n) = (trimmed(old_name), trimmed(name));
    assert forall|x: int| 0 <= x < c.categories.len() && x != i implies nocase(
        (#[trigger] c.categories[x]).name,
    ) != nocase(o) by {
        if x < i {
            assert(nocase(c.categories[x].name) != nocase(c.categories[i].name));
        } else {
            assert(nocase(c.categories[i].name) != nocase(c.categories[x].name));
        }
    }
    assert(has_category_named(c.categories, o));
    if nocase(o) != nocase(n) && has_category_named(c.categories, n) {
        let x = choose|x: int|
            0 <= x < c.categories.len() && nocase(#[trigger] c.categories[x].name) == nocase(n);
        assert(x != i);
    }
    if let Ok(d) = update_category_result(c, old_name, name) {
        assert(d.categories =~= c.categories.update(
            i,
            CategoryModel { name: n, ..c.categories[i] },
        ));
    }
}

/// Nothing changes where a category is renamed to a name that differs from its own in the
/// case of ASCII letters at most, and one that does not exist is not renamed.
pub proof fn law_category_that_stays(c: CatalogModel, old_name: Seq<char>, name: Seq<char>)
    requires
        !is_blank(old_name),
        !is_blank(name),
    ensures
        lowered(trimmed(old_name)) == lowered(trimmed(name)) ==> update_category_result(
            c,
            old_name,
            name,
        ) == Ok::<CatalogModel, ErrorModel>(c),
        lowered(trimmed(old_name)) != lowered(trimmed(name)) && (forall|x: int|
            0 <= x < c.categories.len() ==> nocase((#[trigger] c.categories[x]).name) != nocase(
                trimmed(old_name),
            )) ==> update_category_result(c, old_name, name) == Err::<CatalogModel, ErrorModel>(
            Failure::Rule(Rule::NoSuchCategory),
        ),
{
}

/// A category is removed where no tag stands in it, and only it is.
pub proof fn law_category_without_tags_is_removed(c: CatalogModel, name: Seq<char>, i: int)
    requires
        c.wf(),
        0 <= i < c.categories.len(),
        nocase(c.categories[i].name) == nocase(trimmed(name)),
        !is_blank(name),
    ensures
        ({
            let r = delete_category_result(c, name);
            let used = exists|j: int|
                0 <= j < c.tags.len() && (#[trigger] c.tags[j]).category_id == c.categories[i].id;
            &&& used ==> r == Err::<CatalogModel, ErrorModel>(Failure::Rule(Rule::CategoryNotEmpty))
            &&& !used ==> r is Ok && r->Ok_0.categories == c.categories.remove(i) && r->Ok_0.tags
                == c.tags && r->Ok_0.category_seq == c.category_seq && r->Ok_0.tag_seq == c.tag_seq
        }),
{
    let id = c.categories[i].id;
    lemma_category_at(c.categories, c.category_seq, i);
    let m = choose|m: int|
        0 <= m < c.categories.len() && nocase(#[trigger] c.categories[m].name) == nocase(
            trimmed(name),
        );
    assert(m == i) by {
        if m < i {
            assert(nocase(c.categories[m].name) != nocase(c.categories[i].name));
        } else if i < m {
            assert(nocase(c.categories[i].name) != nocase(c.categories[m].name));
        }
    }
    assert forall|j: int| 0 <= j < c.categories.len() && j != i implies other_category(id)(
        #[trigger] c.categories[j],
    ) by {
        if j < i {
            assert(c.categories[j].id != c.categories[i].id);
        } else {
            assert(c.categories[i].id != c.categories[j].id);
        }
    }
    lemma_all_but_one(c.categories, other_category(id), i);
}

} // verus!

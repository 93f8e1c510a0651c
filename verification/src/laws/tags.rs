//! Laws of tags and their categories.
use vstd::prelude::*;

use crate::catalog::aligned;
use crate::catalog::descends;
use crate::catalog::is_rank;
use crate::catalog::category_named;
use crate::catalog::has_category;
use crate::catalog::has_category_named;
use crate::catalog::has_tag;
use crate::catalog::lemma_tag_at;
use crate::catalog::lemma_tag_index;
use crate::catalog::rank_of;
use crate::catalog::same_place;
use crate::catalog::siblings_unique;
use crate::catalog::tag;
use crate::catalog::CatalogModel;
use crate::catalog::CategoryModel;
use crate::catalog::TagModel;
use crate::failure::Constraint;
use crate::failure::ErrorModel;
use crate::failure::Failure;
use crate::failure::Key;
use crate::failure::Rule;
use crate::failure::Step;
use crate::rows::lemma_filter_all;
use crate::rows::lemma_filter_joined;
use crate::rows::lemma_filter_push;
use crate::tags::create_tag_result;
use crate::text::is_blank;
use crate::text::nocase;
use crate::text::trimmed;
use crate::tree::delete_result;
use crate::tree::lemma_with_category;
use crate::tree::lifted;
use crate::tree::move_result;
use crate::tree::other_tag;
use crate::tree::placed;
use crate::tree::taken;
use crate::tree::with_category;

verus! {

/// A tag stands below another where that is its parent, or its parent stands below it.
pub proof fn law_below_is_below_the_parent(c: CatalogModel, i: int, above: i64)
    requires
        c.wf(),
        0 <= i < c.tags.len(),
    ensures
        descends(c.tags, c.tags[i].id, above) <==> exists|k: int|
            0 <= k < c.tags.len() && c.tags[i].parent_id == Some((#[trigger] c.tags[k]).id) && (
            c.tags[k].id == above || descends(c.tags, c.tags[k].id, above)),
{
    lemma_tag_at(c.tags, i);
    assert(is_rank(c.tags, rank_of(c.tags)));
    if let Some(p) = c.tags[i].parent_id {
        let k = lemma_tag_index(c.tags, p);
        assert(c.tags[k].id == p);
    }
}

/// The category that the tag at `i` comes to stand in: below a parent that of the parent; at
/// a root the one asked for, or where none is asked for, the one it stands in.
pub open spec fn is_target(
    tags: Seq<TagModel>,
    i: int,
    parent: Option<i64>,
    category: Option<i64>,
    k: i64,
) -> bool {
    match parent {
        Some(p) => exists|j: int|
            0 <= j < tags.len() && (#[trigger] tags[j]).id == p && tags[j].category_id == k,
        None => k == match category {
            Some(x) => x,
            None => tags[i].category_id,
        },
    }
}

/// A tag that was moved stands below the parent asked for, in that parent's category; or at
/// the root of the category asked for; or at the root of its own category. Nothing else of it
/// changes. Every other tag keeps all but its category, and that too where the tag stays in
/// its own category or the other does not stand below it; one that does goes along.
pub proof fn law_moved_tag_stands_where_it_is_put(
    c: CatalogModel,
    i: int,
    parent: Option<i64>,
    category: Option<i64>,
)
    requires
        c.wf(),
        0 <= i < c.tags.len(),
        move_result(c, c.tags[i].id, parent, category) is Ok,
    ensures
        ({
            let after = move_result(c, c.tags[i].id, parent, category)->Ok_0;
            &&& after.len() == c.tags.len()
            &&& after[i].id == c.tags[i].id
            &&& after[i].name == c.tags[i].name
            &&& after[i].created_at == c.tags[i].created_at
            &&& after[i].parent_id == parent
            &&& is_target(c.tags, i, parent, category, after[i].category_id)
            &&& forall|j: int|
                0 <= j < c.tags.len() && j != i ==> (#[trigger] after[j]).id == c.tags[j].id
                    && after[j].name == c.tags[j].name && after[j].parent_id == c.tags[j].parent_id
                    && after[j].created_at == c.tags[j].created_at && after[j].category_id == if (
                after[i].category_id != c.tags[i].category_id && descends(
                    c.tags,
                    c.tags[j].id,
                    c.tags[i].id,
                )) {
                    after[i].category_id
                } else {
                    c.tags[j].category_id
                }
        }),
{
    let t = c.tags[i];
    let after = move_result(c, t.id, parent, category)->Ok_0;
    lemma_tag_at(c.tags, i);
    if let Some(p) = parent {
        let j = lemma_tag_index(c.tags, p);
        assert(c.tags[j].id == p);
    }
    assert forall|j: int| 0 <= j < c.tags.len() && j != i implies (#[trigger] after[j]).id
        == c.tags[j].id && after[j].name == c.tags[j].name && after[j].parent_id
        == c.tags[j].parent_id && after[j].created_at == c.tags[j].created_at
        && after[j].category_id == if (after[i].category_id != c.tags[i].category_id && descends(
        c.tags,
        c.tags[j].id,
        c.tags[i].id,
    )) {
        after[i].category_id
    } else {
        c.tags[j].category_id
    } by {
        if j < i {
            assert(c.tags[j].id != c.tags[i].id);
        } else {
            assert(c.tags[i].id != c.tags[j].id);
        }
    }
}

/// Whether another tag than that at `i` has its name, ASCII case aside, below `parent` in the
/// category `k`.
pub open spec fn name_is_there(
    tags: Seq<TagModel>,
    i: int,
    parent: Option<i64>,
    k: i64,
    name: Seq<char>,
) -> bool {
    exists|j: int|
        0 <= j < tags.len() && j != i && (#[trigger] tags[j]).parent_id == parent
            && tags[j].category_id == k && nocase(tags[j].name) == nocase(name)
}

/// Where tags stand in the categories of those above them, a move takes no two of them to one
/// place, unless one is there.
pub proof fn lemma_move_clashes_at_its_end_only(
    c: CatalogModel,
    i: int,
    parent: Option<i64>,
    k: i64,
)
    requires
        c.wf(),
        aligned(c.tags),
        0 <= i < c.tags.len(),
        !name_is_there(c.tags, i, parent, k, c.tags[i].name),
        parent matches Some(p) ==> p != c.tags[i].id && !descends(c.tags, p, c.tags[i].id),
    ensures
        siblings_unique(
            placed(c.tags, c.tags[i].id, parent, k, k != c.tags[i].category_id),
        ),
{
    let tags = c.tags;
    let id = tags[i].id;
    let follow = k != tags[i].category_id;
    let after = placed(tags, id, parent, k, follow);
    assert forall|x: int, y: int| 0 <= x < y < after.len() implies !same_place(
        #[trigger] after[x],
        #[trigger] after[y],
    ) by {
        assert(tags[x].id != tags[y].id);
        assert(!same_place(tags[x], tags[y]));
        if same_place(after[x], after[y]) {
            if x == i || y == i {
                let o = if x == i {
                    y
                } else {
                    x
                };
                assert(tags[o].id != id);
                assert(tags[o].parent_id == parent);
                law_below_is_below_the_parent(c, o, id);
                assert(!descends(tags, tags[o].id, id));
                assert(name_is_there(tags, i, parent, k, tags[i].name));
            } else {
                law_below_is_below_the_parent(c, x, id);
                law_below_is_below_the_parent(c, y, id);
                assert(tags[x].parent_id == tags[y].parent_id);
                if let Some(p) = tags[x].parent_id {
                    assert(tags[x].category_id == tag(tags, p).category_id);
                    assert(tags[y].category_id == tag(tags, p).category_id);
                }
            }
        }
    }
}

/// A tag can be moved where tags stand in the categories of those above them, unless it would
/// stand below itself, the parent or the category does not exist, or another tag has its name
/// there; and what stands in the way is said.
pub proof fn law_tag_can_be_moved(
    c: CatalogModel,
    i: int,
    parent: Option<i64>,
    category: Option<i64>,
    k: i64,
)
    requires
        c.wf(),
        aligned(c.tags),
        0 <= i < c.tags.len(),
        parent matches Some(p) ==> exists|j: int|
            0 <= j < c.tags.len() && (#[trigger] c.tags[j]).id == p,
        is_target(c.tags, i, parent, category, k),
    ensures
        ({
            let id = c.tags[i].id;
            let r = move_result(c, id, parent, category);
            let into_itself = parent matches Some(p) && (p == id || descends(c.tags, p, id));
            let clash = name_is_there(c.tags, i, parent, k, c.tags[i].name);
            let known = exists|x: int|
                0 <= x < c.categories.len() && (#[trigger] c.categories[x]).id == k;
            &&& r is Ok <==> !into_itself && !clash && known
            &&& parent == Some(id) ==> r == Err::<Seq<TagModel>, ErrorModel>(Failure::Rule(Rule::MoveToSelf))
            &&& into_itself && parent != Some(id) ==> r == Err::<Seq<TagModel>, ErrorModel>(
                Failure::Rule(Rule::MoveIntoDescendant),
            )
            &&& !into_itself && clash ==> r == Err::<Seq<TagModel>, ErrorModel>(
                Failure::NameTaken(c.tags[i].name),
            )
            &&& !into_itself && !clash && !known ==> r == Err::<Seq<TagModel>, ErrorModel>(
                Failure::Write(Step::MoveTag, Constraint::ForeignKey),
            )
        }),
{
    let id = c.tags[i].id;
    lemma_tag_at(c.tags, i);
    if let Some(p) = parent {
        let j = choose|j: int| 0 <= j < c.tags.len() && (#[trigger] c.tags[j]).id == p;
        lemma_tag_at(c.tags, j);
        let m = choose|m: int|
            0 <= m < c.tags.len() && (#[trigger] c.tags[m]).id == p && c.tags[m].category_id == k;
        lemma_tag_at(c.tags, m);
    }
    assert(taken(c.tags, id, k, parent, c.tags[i].name) <==> name_is_there(
        c.tags,
        i,
        parent,
        k,
        c.tags[i].name,
    )) by {
        if taken(c.tags, id, k, parent, c.tags[i].name) {
            let j = choose|j: int|
                0 <= j < c.tags.len() && (#[trigger] c.tags[j]).id != id && c.tags[j].category_id
                    == k && c.tags[j].parent_id == parent && nocase(c.tags[j].name) == nocase(
                    c.tags[i].name,
                );
            assert(j != i);
        }
        if name_is_there(c.tags, i, parent, k, c.tags[i].name) {
            let j = choose|j: int|
                0 <= j < c.tags.len() && j != i && (#[trigger] c.tags[j]).parent_id == parent
                    && c.tags[j].category_id == k && nocase(c.tags[j].name) == nocase(
                    c.tags[i].name,
                );
            if j < i {
                assert(c.tags[j].id != c.tags[i].id);
            } else {
                assert(c.tags[i].id != c.tags[j].id);
            }
        }
    }
    if !name_is_there(c.tags, i, parent, k, c.tags[i].name) && !(parent matches Some(p) && (p == id
        || descends(c.tags, p, id))) {
        lemma_move_clashes_at_its_end_only(c, i, parent, k);
    }
}

/// To move a tag that does not exist, or below one that does not, is refused.
pub proof fn law_what_does_not_exist_is_not_moved(
    c: CatalogModel,
    id: i64,
    parent: Option<i64>,
    category: Option<i64>,
)
    requires
        parent != Some(id),
    ensures
        (forall|i: int| 0 <= i < c.tags.len() ==> (#[trigger] c.tags[i]).id != id) ==> move_result(
            c,
            id,
            parent,
            category,
        ) == Err::<Seq<TagModel>, ErrorModel>(Failure::Rule(Rule::NoSuchTag)),
        (exists|i: int| 0 <= i < c.tags.len() && (#[trigger] c.tags[i]).id == id) && (
        parent matches Some(p) && forall|i: int|
            0 <= i < c.tags.len() ==> (#[trigger] c.tags[i]).id != p) ==> move_result(
            c,
            id,
            parent,
            category,
        ) == Err::<Seq<TagModel>, ErrorModel>(Failure::Rule(Rule::NoSuchParent)),
{
}

/// Only the row at `i` falls out of a selection.
pub proof fn lemma_all_but_one<T>(s: Seq<T>, p: spec_fn(T) -> bool, i: int)
    requires
        0 <= i < s.len(),
        !p(s[i]),
        forall|j: int| 0 <= j < s.len() && j != i ==> p(#[trigger] s[j]),
    ensures
        s.filter(p) == s.remove(i),
{
    let head = s.take(i);
    let tail = s.skip(i + 1);
    lemma_filter_all(head, p);
    lemma_filter_push(head, s[i], p);
    lemma_filter_all(tail, p);
    lemma_filter_joined(head.push(s[i]), tail, p);
    assert(head.push(s[i]) + tail =~= s);
    assert(head + tail =~= s.remove(i));
}

/// Once a tag is removed, its children stand where it stood; nothing else of them changes,
/// and every other tag is as it was.
pub proof fn law_children_of_a_removed_tag_take_its_place(c: CatalogModel, i: int)
    requires
        c.wf(),
        0 <= i < c.tags.len(),
        delete_result(c.tags, c.tags[i].id) is Ok,
    ensures
        ({
            let after = delete_result(c.tags, c.tags[i].id)->Ok_0;
            &&& after.len() == c.tags.len() - 1
            &&& forall|j: int|
                #![trigger c.tags[j]]
                0 <= j < c.tags.len() && j != i ==> {
                    let t = after[if j < i {
                        j
                    } else {
                        j - 1
                    }];
                    &&& t.id == c.tags[j].id
                    &&& t.name == c.tags[j].name
                    &&& t.category_id == c.tags[j].category_id
                    &&& t.created_at == c.tags[j].created_at
                    &&& t.parent_id == if c.tags[j].parent_id == Some(c.tags[i].id) {
                        c.tags[i].parent_id
                    } else {
                        c.tags[j].parent_id
                    }
                }
        }),
{
    let id = c.tags[i].id;
    let up = lifted(c.tags, id);
    lemma_tag_at(c.tags, i);
    assert forall|j: int| 0 <= j < up.len() && j != i implies other_tag(id)(#[trigger] up[j]) by {
        if j < i {
            assert(c.tags[j].id != c.tags[i].id);
        } else {
            assert(c.tags[i].id != c.tags[j].id);
        }
    }
    lemma_all_but_one(up, other_tag(id), i);
}

/// A tag that exists can be removed where tags stand in the categories of those above them,
/// unless one of its children would meet its own name where the tag stands; else it is said
/// that it cannot.
pub proof fn law_tag_can_be_removed(c: CatalogModel, i: int)
    requires
        c.wf(),
        aligned(c.tags),
        0 <= i < c.tags.len(),
    ensures
        ({
            let t = c.tags[i];
            let r = delete_result(c.tags, t.id);
            let clash = exists|a: int, b: int|
                0 <= a < c.tags.len() && 0 <= b < c.tags.len() && (#[trigger] c.tags[a]).parent_id
                    == Some(t.id) && (#[trigger] c.tags[b]).parent_id == t.parent_id
                    && c.tags[b].category_id == t.category_id && nocase(c.tags[a].name) == nocase(
                    c.tags[b].name,
                );
            &&& r is Ok <==> !clash
            &&& clash ==> r == Err::<Seq<TagModel>, ErrorModel>(
                Failure::Write(Step::LiftChildren, Constraint::Unique(Key::TagPlace)),
            )
        }),
{
    let tags = c.tags;
    let t = tags[i];
    let up = lifted(tags, t.id);
    lemma_tag_at(tags, i);
    assert(is_rank(tags, rank_of(tags)));
    let clash = exists|a: int, b: int|
        0 <= a < tags.len() && 0 <= b < tags.len() && (#[trigger] tags[a]).parent_id == Some(t.id)
            && (#[trigger] tags[b]).parent_id == t.parent_id && tags[b].category_id == t.category_id
            && nocase(tags[a].name) == nocase(tags[b].name);
    if clash {
        let (a, b) = choose|a: int, b: int|
            0 <= a < tags.len() && 0 <= b < tags.len() && (#[trigger] tags[a]).parent_id == Some(
                t.id,
            ) && (#[trigger] tags[b]).parent_id == t.parent_id && tags[b].category_id
                == t.category_id && nocase(tags[a].name) == nocase(tags[b].name);
        assert(tags[a].category_id == tag(tags, tags[a].parent_id->0).category_id);
        assert(tags[b].parent_id != Some(t.id));
        assert(same_place(up[a], up[b]));
        assert(same_place(up[b], up[a]));
        assert(a != b);
    }
    if !siblings_unique(up) {
        let (x, y) = choose|x: int, y: int|
            0 <= x < y < up.len() && same_place(#[trigger] up[x], #[trigger] up[y]);
        assert(!same_place(tags[x], tags[y]));
        if tags[x].parent_id == Some(t.id) {
            assert(tags[x].category_id == tag(tags, tags[x].parent_id->0).category_id);
        }
        if tags[y].parent_id == Some(t.id) {
            assert(tags[y].category_id == tag(tags, tags[y].parent_id->0).category_id);
        }
    }
}

/// The name of a category as it was asked for: trimmed; and where nothing is left of it, that
/// of the tags without a category.
pub open spec fn asked_name(category: Option<Seq<char>>) -> Seq<char> {
    match category {
        Some(k) => if is_blank(k) {
            "未分类"@
        } else {
            trimmed(k)
        },
        None => "未分类"@,
    }
}

/// Whether a category named `name`, ASCII case aside, has the identifier `k`.
pub open spec fn is_named(categories: Seq<CategoryModel>, k: i64, name: Seq<char>) -> bool {
    exists|x: int|
        0 <= x < categories.len() && (#[trigger] categories[x]).id == k && nocase(categories[x].name)
            == nocase(name)
}

/// Whether `after` are the categories `before`, with one named `name` behind them, made at
/// `now`, if none had that name.
pub open spec fn holds_category(
    before: Seq<CategoryModel>,
    after: Seq<CategoryModel>,
    name: Seq<char>,
    now: i64,
) -> bool {
    if exists|x: int| 0 <= x < before.len() && nocase((#[trigger] before[x]).name) == nocase(name) {
        after == before
    } else {
        &&& after.len() == before.len() + 1
        &&& after.take(before.len() as int) == before
        &&& after.last().name == name
        &&& after.last().created_at == now
        &&& forall|x: int| 0 <= x < before.len() ==> (#[trigger] before[x]).id < after.last().id
    }
}

/// A category that is named is there, once, and every other stays as it was.
pub proof fn lemma_category_held(c: CatalogModel, name: Seq<char>, now: i64)
    requires
        c.wf(),
        c.category_seq < i64::MAX,
    ensures
        ({
            let d = with_category(c, name, now)->0;
            &&& with_category(c, name, now) is Some
            &&& d.wf()
            &&& d.tags == c.tags
            &&& d.tag_seq == c.tag_seq
            &&& holds_category(c.categories, d.categories, name, now)
            &&& is_named(d.categories, category_named(d.categories, name).id, name)
        }),
{
    let d = with_category(c, name, now)->0;
    lemma_with_category(c, name, now);
    let x = choose|x: int|
        0 <= x < d.categories.len() && nocase(#[trigger] d.categories[x].name) == nocase(name);
    assert(d.categories[x] == category_named(d.categories, name));
    assert(d.categories[x].id == category_named(d.categories, name).id);
    if !has_category_named(c.categories, name) {
        assert(d.categories.take(c.categories.len() as int) =~= c.categories);
    }
}

/// A tag that was created has the name asked for, trimmed, an identifier that no tag ever had,
/// and stands below the parent asked for, in that parent's category; or at the root of the
/// category asked for by identifier, or by name. Every other tag is as it was.
pub proof fn law_created_tag_stands_where_it_is_put(
    c: CatalogModel,
    name: Seq<char>,
    category_id: Option<i64>,
    category: Option<Seq<char>>,
    parent_id: Option<i64>,
    now: i64,
)
    requires
        c.wf(),
        create_tag_result(c, name, category_id, category, parent_id, now).1 is Ok,
    ensures
        ({
            let (d, r) = create_tag_result(c, name, category_id, category, parent_id, now);
            let t = d.tags.last();
            &&& d.tags.len() == c.tags.len() + 1
            &&& d.tags.drop_last() == c.tags
            &&& t.id == r->Ok_0
            &&& t.id == c.tag_seq + 1
            &&& d.tag_seq == t.id
            &&& t.name == trimmed(name)
            &&& !is_blank(name)
            &&& t.parent_id == parent_id
            &&& t.created_at == now
            &&& match (parent_id, category_id) {
                (Some(p), _) => d.categories == c.categories && exists|j: int|
                    0 <= j < c.tags.len() && (#[trigger] c.tags[j]).id == p
                        && c.tags[j].category_id == t.category_id,
                (None, Some(k)) => d.categories == c.categories && t.category_id == k,
                (None, None) => is_named(d.categories, t.category_id, asked_name(category))
                    && holds_category(c.categories, d.categories, asked_name(category), now),
            }
        }),
{
    let (d, r) = create_tag_result(c, name, category_id, category, parent_id, now);
    assert(d.tags.drop_last() =~= c.tags);
    match (parent_id, category_id) {
        (Some(p), _) => {
            let j = lemma_tag_index(c.tags, p);
        },
        (None, Some(_)) => {},
        (None, None) => {
            lemma_category_held(c, asked_name(category), now);
        },
    }
}

/// Whether a tag has the name `name`, ASCII case aside, below `parent` in the category `k`.
pub open spec fn is_there(
    tags: Seq<TagModel>,
    parent: Option<i64>,
    k: i64,
    name: Seq<char>,
) -> bool {
    exists|j: int|
        0 <= j < tags.len() && (#[trigger] tags[j]).parent_id == parent && tags[j].category_id == k
            && nocase(tags[j].name) == nocase(name)
}

/// A tag can be created, as long as there are identifiers, wherever its name is not blank and
/// no tag has it there: below a parent that exists, if no other category is asked for than
/// that parent's; at the root of a category that exists; or at the root of one asked for by
/// name, which need not exist.
pub proof fn law_tag_can_be_created(
    c: CatalogModel,
    name: Seq<char>,
    category_id: Option<i64>,
    category: Option<Seq<char>>,
    parent_id: Option<i64>,
    now: i64,
)
    requires
        c.wf(),
    ensures
        create_tag_result(c, name, category_id, category, parent_id, now).1 is Ok
            <==> !is_blank(name) && c.tag_seq < i64::MAX && match (parent_id, category_id) {
            (Some(p), asked) => exists|j: int|
                0 <= j < c.tags.len() && (#[trigger] c.tags[j]).id == p && (asked is None || asked
                    == Some(c.tags[j].category_id)) && !is_there(
                    c.tags,
                    parent_id,
                    c.tags[j].category_id,
                    trimmed(name),
                ),
            (None, Some(k)) => (exists|x: int|
                0 <= x < c.categories.len() && (#[trigger] c.categories[x]).id == k) && !is_there(
                c.tags,
                None,
                k,
                trimmed(name),
            ),
            (None, None) => c.category_seq < i64::MAX && forall|x: int|
                0 <= x < c.categories.len() && nocase((#[trigger] c.categories[x]).name) == nocase(
                    asked_name(category),
                ) ==> !is_there(c.tags, None, c.categories[x].id, trimmed(name)),
        },
{
    let n = trimmed(name);
    assert forall|k: i64| taken(c.tags, 0, k, parent_id, n) <==> is_there(
        c.tags,
        parent_id,
        k,
        n,
    ) by {
        if is_there(c.tags, parent_id, k, n) {
            let j = choose|j: int|
                0 <= j < c.tags.len() && (#[trigger] c.tags[j]).parent_id == parent_id
                    && c.tags[j].category_id == k && nocase(c.tags[j].name) == nocase(n);
            assert(1 <= c.tags[j].id);
        }
        if taken(c.tags, 0, k, parent_id, n) {
            let j = choose|j: int|
                0 <= j < c.tags.len() && (#[trigger] c.tags[j]).id != 0 && c.tags[j].category_id
                    == k && c.tags[j].parent_id == parent_id && nocase(c.tags[j].name) == nocase(n);
            assert(c.tags[j].parent_id == parent_id);
        }
    }
    match (parent_id, category_id) {
        (Some(p), asked) => {
            if has_tag(c.tags, p) {
                let j = lemma_tag_index(c.tags, p);
                assert(has_category(c.categories, c.tags[j].category_id));
                assert forall|m: int| 0 <= m < c.tags.len() && (#[trigger] c.tags[m]).id
                    == p implies m == j by {
                    lemma_tag_at(c.tags, m);
                    if m < j {
                        assert(c.tags[m].id != c.tags[j].id);
                    } else if j < m {
                        assert(c.tags[j].id != c.tags[m].id);
                    }
                }
            }
        },
        (None, Some(k)) => {},
        (None, None) => {
            let want = asked_name(category);
            if c.category_seq < i64::MAX {
                let d = with_category(c, want, now)->0;
                let k = category_named(d.categories, want).id;
                lemma_category_held(c, want, now);
                let y = choose|y: int|
                    0 <= y < d.categories.len() && (#[trigger] d.categories[y]).id == k && nocase(
                        d.categories[y].name,
                    ) == nocase(want);
                assert(has_category(d.categories, k));
                if has_category_named(c.categories, want) {
                    assert(d.categories == c.categories);
                    assert forall|x: int|
                        0 <= x < c.categories.len() && nocase((#[trigger] c.categories[x]).name)
                            == nocase(want) implies x == y by {
                        if x < y {
                            assert(nocase(c.categories[x].name) != nocase(c.categories[y].name));
                        } else if y < x {
                            assert(nocase(c.categories[y].name) != nocase(c.categories[x].name));
                        }
                    }
                } else {
                    assert(y == c.categories.len()) by {
                        if y < c.categories.len() {
                            assert(d.categories.take(c.categories.len() as int)[y]
                                == c.categories[y]);
                        }
                    }
                    assert forall|j: int| 0 <= j < c.tags.len() implies (
                    #[trigger] c.tags[j]).category_id != k by {
                        assert(has_category(c.categories, c.tags[j].category_id));
                        let x = choose|x: int|
                            0 <= x < c.categories.len() && #[trigger] c.categories[x].id
                                == c.tags[j].category_id;
                        assert(c.categories[x].id < d.categories.last().id);
                    }
                }
            }
        },
    }
}

} // verus!

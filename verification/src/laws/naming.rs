//! Laws of the tags that names stand for.
use vstd::prelude::*;

use crate::catalog::category;
use crate::catalog::has_category;
use crate::catalog::lemma_category_at;
use crate::catalog::CatalogModel;
use crate::catalog::TagModel;
use crate::laws::tags::holds_category;
use crate::laws::tags::is_named;
use crate::laws::tags::lemma_category_held;
use crate::links::lemma_linked;
use crate::links::link_ids;
use crate::links::link_names;
use crate::links::linked;
use crate::links::links_wf;
use crate::links::sync_steps;
use crate::links::LinkModel;
use crate::naming::choice;
use crate::naming::has_tag_named;
use crate::naming::is_choice;
use crate::naming::is_stray;
use crate::naming::lemma_choice_exists;
use crate::naming::lemma_choice_unique;
use crate::naming::lemma_with_tag_named;
use crate::naming::preferred;
use crate::naming::with_tag_named;
use crate::naming::NamingSteps;
use crate::text::is_blank;
use crate::text::nocase;
use crate::text::trimmed;
use crate::tree::uncategorized;

verus! {

/// Whether a tag stands in the category for tags that nobody assigned to one.
pub open spec fn is_unassigned(c: CatalogModel, t: TagModel) -> bool {
    is_named(c.categories, t.category_id, "未分类"@)
}

/// Whether of two tags of one name `a` is meant: the one that somebody assigned to a category;
/// of two such, or of two others, the one at a root; of two such, or of two others, the older.
pub open spec fn is_meant(c: CatalogModel, a: TagModel, b: TagModel) -> bool {
    if is_unassigned(c, a) && !is_unassigned(c, b) {
        false
    } else if !is_unassigned(c, a) && is_unassigned(c, b) {
        true
    } else if a.parent_id is Some && b.parent_id is None {
        false
    } else if a.parent_id is None && b.parent_id is Some {
        true
    } else {
        a.id < b.id
    }
}

/// A tag stands in the category for unassigned tags where its category has that name.
proof fn lemma_stray(c: CatalogModel, i: int)
    requires
        c.wf(),
        0 <= i < c.tags.len(),
    ensures
        is_stray(c, c.tags[i]) == is_unassigned(c, c.tags[i]),
{
    let t = c.tags[i];
    assert(has_category(c.categories, t.category_id));
    let x = choose|x: int| 0 <= x < c.categories.len() && #[trigger] c.categories[x].id
        == t.category_id;
    lemma_category_at(c.categories, c.category_seq, x);
    if is_unassigned(c, t) {
        let y = choose|y: int|
            0 <= y < c.categories.len() && (#[trigger] c.categories[y]).id == t.category_id
                && nocase(c.categories[y].name) == nocase("未分类"@);
        lemma_category_at(c.categories, c.category_seq, y);
    }
    if is_stray(c, t) {
        assert(c.categories[x].id == t.category_id);
    }
}

/// A name stands for the tag that has it, ASCII case aside; of several, for the one that is
/// meant rather than any other; and for none only where no tag has it.
pub proof fn law_name_stands_for_the_tag_that_is_meant(c: CatalogModel, name: Seq<char>, i: int)
    requires
        c.wf(),
        0 <= i < c.tags.len(),
    ensures
        choice(c, name) == Some(c.tags[i].id) <==> nocase(c.tags[i].name) == nocase(name)
            && forall|j: int|
            0 <= j < c.tags.len() && j != i && nocase((#[trigger] c.tags[j]).name) == nocase(name)
                ==> is_meant(c, c.tags[i], c.tags[j]),
        choice(c, name) is None <==> forall|j: int|
            0 <= j < c.tags.len() ==> nocase((#[trigger] c.tags[j]).name) != nocase(name),
{
    lemma_stray(c, i);
    assert forall|j: int| 0 <= j < c.tags.len() && j != i implies (preferred(
        c,
        c.tags[i],
        #[trigger] c.tags[j],
    ) <==> is_meant(c, c.tags[i], c.tags[j])) by {
        lemma_stray(c, j);
        if j < i {
            assert(c.tags[j].id != c.tags[i].id);
        } else {
            assert(c.tags[i].id != c.tags[j].id);
        }
    }
    if choice(c, name) == Some(c.tags[i].id) {
        let k = lemma_choice_exists(c, name);
        assert(k == i) by {
            if k < i {
                assert(c.tags[k].id != c.tags[i].id);
            } else if i < k {
                assert(c.tags[i].id != c.tags[k].id);
            }
        }
        assert(is_choice(c, name, i));
    }
    if nocase(c.tags[i].name) == nocase(name) && forall|j: int|
        0 <= j < c.tags.len() && j != i && nocase((#[trigger] c.tags[j]).name) == nocase(name)
            ==> is_meant(c, c.tags[i], c.tags[j]) {
        assert(is_choice(c, name, i)) by {
            assert forall|j: int|
                0 <= j < c.tags.len() && nocase((#[trigger] c.tags[j]).name) == nocase(
                    name,
                ) implies preferred(c, c.tags[i], c.tags[j]) by {
                if j != i {
                    assert(is_meant(c, c.tags[i], c.tags[j]));
                }
            }
        }
        lemma_choice_unique(c, name, i);
    }
}

/// Where a tag has a name, to look for a tag of that name changes nothing. Where none has, a
/// tag is made, as long as there are identifiers: of that name, at the root of its home, with
/// an identifier that no tag ever had, behind the others, which stay as they were.
pub proof fn law_name_gets_one_tag(
    c: CatalogModel,
    name: Seq<char>,
    home: Seq<char>,
    now: i64,
    steps: NamingSteps,
)
    requires
        c.wf(),
    ensures
        ({
            let (d, r) = with_tag_named(c, name, home, now, steps);
            let there = exists|j: int|
                0 <= j < c.tags.len() && nocase((#[trigger] c.tags[j]).name) == nocase(name);
            &&& there ==> d == c && r is Ok && choice(c, name) == Some(r->Ok_0)
            &&& !there ==> (r is Ok <==> c.tag_seq < i64::MAX && c.category_seq < i64::MAX)
            &&& !there && r is Ok ==> d.tags.len() == c.tags.len() + 1 && d.tags.drop_last()
                == c.tags && d.tags.last().id == c.tag_seq + 1 && d.tags.last().id == r->Ok_0
                && d.tags.last().name == name && d.tags.last().parent_id is None
                && d.tags.last().created_at == now && is_named(
                d.categories,
                d.tags.last().category_id,
                home,
            ) && holds_category(c.categories, d.categories, home, now)
            &&& d.tag_seq <= c.tag_seq + 1
            &&& d.category_seq <= c.category_seq + 1
        }),
{
    let (d, r) = with_tag_named(c, name, home, now, steps);
    if c.category_seq < i64::MAX {
        lemma_category_held(c, home, now);
    }
    if has_tag_named(c.tags, name) {
        let i = lemma_choice_exists(c, name);
    } else if r is Ok {
        assert(d.tags.drop_last() =~= c.tags);
    }
}

/// Names can be given to whoever exists, as long as there are identifiers for as many new
/// tags as there are names.
pub proof fn law_names_can_be_given(
    c: CatalogModel,
    links: Seq<LinkModel>,
    owner: Seq<char>,
    names: Seq<Seq<char>>,
    now: i64,
)
    requires
        c.wf(),
        links_wf(c.tags, links),
        c.tag_seq + names.len() <= i64::MAX,
        c.category_seq + names.len() <= i64::MAX,
    ensures
        link_names(c, links, owner, names, true, now).error is None,
    decreases names.len(),
{
    if names.len() > 0 {
        let rest = names.drop_first();
        if is_blank(names[0]) {
            law_names_can_be_given(c, links, owner, rest, now);
        } else {
            let name = trimmed(names[0]);
            let (d, r) = with_tag_named(c, name, uncategorized(), now, sync_steps());
            law_name_gets_one_tag(c, name, uncategorized(), now, sync_steps());
            lemma_with_tag_named(c, name, uncategorized(), now, sync_steps());
            assert(r is Ok);
            lemma_linked(d.tags, links, owner, r->Ok_0);
            law_names_can_be_given(d, linked(links, owner, r->Ok_0), owner, rest, now);
        }
    }
}

/// Tags can be given by identifier to whoever exists where all of them exist, and only there.
pub proof fn law_tags_that_exist_can_be_given(
    tags: Seq<TagModel>,
    links: Seq<LinkModel>,
    owner: Seq<char>,
    ids: Seq<i64>,
)
    ensures
        link_ids(tags, links, owner, ids, true).1 is None <==> forall|k: int|
            0 <= k < ids.len() ==> exists|j: int|
                0 <= j < tags.len() && (#[trigger] tags[j]).id == #[trigger] ids[k],
    decreases ids.len(),
{
    if ids.len() > 0 {
        let rest = ids.drop_first();
        law_tags_that_exist_can_be_given(tags, linked(links, owner, ids[0]), owner, rest);
        let all = forall|k: int|
            0 <= k < ids.len() ==> exists|j: int|
                0 <= j < tags.len() && (#[trigger] tags[j]).id == #[trigger] ids[k];
        let others = forall|k: int|
            0 <= k < rest.len() ==> exists|j: int|
                0 <= j < tags.len() && (#[trigger] tags[j]).id == #[trigger] rest[k];
        if all {
            assert forall|k: int| 0 <= k < rest.len() implies exists|j: int|
                0 <= j < tags.len() && (#[trigger] tags[j]).id == #[trigger] rest[k] by {
                assert(rest[k] == ids[k + 1]);
            }
            assert(exists|j: int| 0 <= j < tags.len() && (#[trigger] tags[j]).id == ids[0]);
        }
        if others && exists|j: int| 0 <= j < tags.len() && (#[trigger] tags[j]).id == ids[0] {
            assert forall|k: int| 0 <= k < ids.len() implies exists|j: int|
                0 <= j < tags.len() && (#[trigger] tags[j]).id == #[trigger] ids[k] by {
                if k > 0 {
                    assert(rest[k - 1] == ids[k]);
                }
            }
        }
    }
}

/// Whether one of `names` that is not blank stands for the tag `id`.
pub open spec fn is_named_by(c: CatalogModel, names: Seq<Seq<char>>, id: i64) -> bool {
    exists|k: int|
        0 <= k < names.len() && !is_blank(#[trigger] names[k]) && choice(c, trimmed(names[k]))
            == Some(id)
}

/// A tag is made for a name only, under that name, behind those that are there.
pub proof fn law_tags_are_made_for_names_only(
    c: CatalogModel,
    links: Seq<LinkModel>,
    owner: Seq<char>,
    names: Seq<Seq<char>>,
    known: bool,
    now: i64,
)
    requires
        c.wf(),
        links_wf(c.tags, links),
    ensures
        ({
            let d = link_names(c, links, owner, names, known, now).catalog;
            &&& d.tags.len() >= c.tags.len()
            &&& d.tags.take(c.tags.len() as int) == c.tags
            &&& forall|i: int|
                c.tags.len() <= i < d.tags.len() ==> (#[trigger] d.tags[i]).created_at == now
                    && d.tags[i].parent_id is None && exists|k: int|
                    0 <= k < names.len() && !is_blank(#[trigger] names[k]) && d.tags[i].name
                        == trimmed(names[k])
        }),
    decreases names.len(),
{
    let s = link_names(c, links, owner, names, known, now);
    let d = s.catalog;
    assert(c.tags.take(c.tags.len() as int) =~= c.tags);
    if names.len() > 0 {
        let rest = names.drop_first();
        if is_blank(names[0]) {
            law_tags_are_made_for_names_only(c, links, owner, rest, known, now);
            assert forall|i: int| c.tags.len() <= i < d.tags.len() implies (
            #[trigger] d.tags[i]).created_at == now && d.tags[i].parent_id is None && exists|
                k: int,
            |
                0 <= k < names.len() && !is_blank(#[trigger] names[k]) && d.tags[i].name == trimmed(
                    names[k],
                ) by {
                let k = choose|k: int|
                    0 <= k < rest.len() && !is_blank(#[trigger] rest[k]) && d.tags[i].name
                        == trimmed(rest[k]);
                assert(names[k + 1] == rest[k]);
            }
        } else {
            let name = trimmed(names[0]);
            let (e, r) = with_tag_named(c, name, uncategorized(), now, sync_steps());
            law_name_gets_one_tag(c, name, uncategorized(), now, sync_steps());
            lemma_with_tag_named(c, name, uncategorized(), now, sync_steps());
            assert(!is_blank(names[0]));
            if r is Ok && known {
                lemma_linked(e.tags, links, owner, r->Ok_0);
                let next = linked(links, owner, r->Ok_0);
                law_tags_are_made_for_names_only(e, next, owner, rest, known, now);
                assert(d.tags.take(c.tags.len() as int) =~= d.tags.take(e.tags.len() as int).take(
                    c.tags.len() as int,
                ));
                assert(e.tags.take(c.tags.len() as int) =~= c.tags);
                assert forall|i: int| c.tags.len() <= i < d.tags.len() implies (
                #[trigger] d.tags[i]).created_at == now && d.tags[i].parent_id is None && exists|
                    k: int,
                |
                    0 <= k < names.len() && !is_blank(#[trigger] names[k]) && d.tags[i].name
                        == trimmed(names[k]) by {
                    if i < e.tags.len() {
                        assert(d.tags.take(e.tags.len() as int)[i] == e.tags[i]);
                        assert(d.tags[i] == e.tags.last());
                        assert(d.tags[i].name == trimmed(names[0]));
                    } else {
                        let k = choose|k: int|
                            0 <= k < rest.len() && !is_blank(#[trigger] rest[k]) && d.tags[i].name
                                == trimmed(rest[k]);
                        assert(names[k + 1] == rest[k]);
                    }
                }
            } else {
                assert(e.tags.take(c.tags.len() as int) =~= c.tags);
                assert forall|i: int| c.tags.len() <= i < d.tags.len() implies (
                #[trigger] d.tags[i]).created_at == now && d.tags[i].parent_id is None && exists|
                    k: int,
                |
                    0 <= k < names.len() && !is_blank(#[trigger] names[k]) && d.tags[i].name
                        == trimmed(names[k]) by {
                    assert(d.tags[i] == e.tags.last());
                    assert(d.tags[i].name == trimmed(names[0]));
                }
            }
        }
    }
}

} // verus!

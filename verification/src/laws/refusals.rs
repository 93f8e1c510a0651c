//! Laws of what is refused: when, and what is said of it.
use vstd::prelude::*;

use crate::catalog::has_category_named;
use crate::catalog::lemma_tag_at;
use crate::catalog::CatalogModel;
use crate::clips::create_clip_result;
use crate::clips::update_clip_result;
use crate::failure::Constraint;
use crate::failure::ErrorModel;
use crate::failure::Failure;
use crate::failure::Key;
use crate::failure::Rule;
use crate::failure::Step;
use crate::laws::categories::law_tag_can_be_updated;
use crate::laws::music::names_given;
use crate::laws::naming::law_name_gets_one_tag;
use crate::laws::tags::is_there;
use crate::laws::tags::name_is_there;
use crate::library::retagged;
use crate::library::ClipModel;
use crate::library::LibraryModel;
use crate::library::MusicModel;
use crate::library::TagWish;
use crate::links::link_names;
use crate::links::other_owner;
use crate::links::sync_steps;
use crate::links::LinkModel;
use crate::music::create_music_result;
use crate::music::update_music_result;
use crate::seconds::range_result;
use crate::tags::create_category_result;
use crate::tags::create_tag_result;
use crate::tags::delete_category_result;
use crate::tags::update_category_result;
use crate::text::is_blank;
use crate::text::lowered;
use crate::text::nocase;
use crate::text::trimmed;
use crate::tree::taken;
use crate::tree::uncategorized;
use crate::tree::update_result;

verus! {

/// What is said where a tag cannot be created below another: that its name is blank; that the
/// other does not exist; that another category is asked for than the other's; or that a tag of
/// the name stands there.
pub proof fn law_tag_is_refused_below_another(
    c: CatalogModel,
    name: Seq<char>,
    asked: Option<i64>,
    category: Option<Seq<char>>,
    p: i64,
    now: i64,
    j: int,
)
    requires
        c.wf(),
        c.tag_seq < i64::MAX,
    ensures
        ({
            let (d, r) = create_tag_result(c, name, asked, category, Some(p), now);
            let known = 0 <= j < c.tags.len() && c.tags[j].id == p;
            &&& r is Err ==> d == c
            &&& is_blank(name) ==> r == Err::<i64, ErrorModel>(Failure::Rule(Rule::EmptyTagName))
            &&& !is_blank(name) && (forall|i: int|
                0 <= i < c.tags.len() ==> (#[trigger] c.tags[i]).id != p) ==> r == Err::<
                i64,
                ErrorModel,
            >(Failure::Rule(Rule::NoSuchParent))
            &&& !is_blank(name) && known && asked is Some && asked->0 != c.tags[j].category_id
                ==> r == Err::<i64, ErrorModel>(Failure::Rule(Rule::ParentInOtherCategory))
            &&& !is_blank(name) && known && (asked is None || asked->0 == c.tags[j].category_id)
                && is_there(c.tags, Some(p), c.tags[j].category_id, trimmed(name)) ==> r == Err::<
                i64,
                ErrorModel,
            >(Failure::Write(Step::CreateTag, Constraint::Unique(Key::TagPlace)))
        }),
{
    if 0 <= j < c.tags.len() && c.tags[j].id == p {
        lemma_tag_at(c.tags, j);
        lemma_taken(c, Some(p), c.tags[j].category_id, trimmed(name));
    }
}

/// A tag stands in a place already where one of its name does.
proof fn lemma_taken(c: CatalogModel, parent: Option<i64>, k: i64, name: Seq<char>)
    requires
        c.wf(),
    ensures
        taken(c.tags, 0, k, parent, name) == is_there(c.tags, parent, k, name),
{
    if is_there(c.tags, parent, k, name) {
        let j = choose|j: int|
            0 <= j < c.tags.len() && (#[trigger] c.tags[j]).parent_id == parent
                && c.tags[j].category_id == k && nocase(c.tags[j].name) == nocase(name);
        assert(1 <= c.tags[j].id);
    }
    if taken(c.tags, 0, k, parent, name) {
        let j = choose|j: int|
            0 <= j < c.tags.len() && (#[trigger] c.tags[j]).id != 0 && c.tags[j].category_id == k
                && c.tags[j].parent_id == parent && nocase(c.tags[j].name) == nocase(name);
        assert(c.tags[j].parent_id == parent);
    }
}

/// What is said where a tag cannot be created at the root of a category chosen by identifier:
/// that its name is blank; that a tag of the name stands there; or that the category does not
/// exist. Nothing changes then.
pub proof fn law_tag_is_refused_at_a_root(
    c: CatalogModel,
    name: Seq<char>,
    k: i64,
    category: Option<Seq<char>>,
    now: i64,
)
    requires
        c.wf(),
        c.tag_seq < i64::MAX,
    ensures
        ({
            let (d, r) = create_tag_result(c, name, Some(k), category, None, now);
            &&& r is Err ==> d == c
            &&& is_blank(name) ==> r == Err::<i64, ErrorModel>(Failure::Rule(Rule::EmptyTagName))
            &&& !is_blank(name) && is_there(c.tags, None, k, trimmed(name)) ==> r == Err::<
                i64,
                ErrorModel,
            >(Failure::Write(Step::CreateTag, Constraint::Unique(Key::TagPlace)))
            &&& !is_blank(name) && (forall|x: int|
                0 <= x < c.categories.len() ==> (#[trigger] c.categories[x]).id != k) ==> r == Err::<
                i64,
                ErrorModel,
            >(Failure::Write(Step::CreateTag, Constraint::ForeignKey))
        }),
{
    lemma_taken(c, None, k, trimmed(name));
    if forall|x: int| 0 <= x < c.categories.len() ==> (#[trigger] c.categories[x]).id != k {
        if is_there(c.tags, None, k, trimmed(name)) {
            let j = choose|j: int|
                0 <= j < c.tags.len() && (#[trigger] c.tags[j]).parent_id == None::<i64>
                    && c.tags[j].category_id == k && nocase(c.tags[j].name) == nocase(
                    trimmed(name),
                );
            assert(crate::catalog::has_category(c.categories, c.tags[j].category_id));
        }
    }
}

/// What is said where a tag cannot be renamed: that its new name is blank; that it does not
/// exist; or that another of the name stands where it does.
pub proof fn law_rename_is_refused(
    c: CatalogModel,
    id: i64,
    name: Seq<char>,
    category: Option<Seq<char>>,
    now: i64,
    i: int,
)
    requires
        c.wf(),
        crate::catalog::aligned(c.tags),
    ensures
        ({
            let r = update_result(c, id, name, category, now);
            &&& is_blank(name) ==> r == Err::<CatalogModel, ErrorModel>(
                Failure::Rule(Rule::EmptyTagName),
            )
            &&& !is_blank(name) && (forall|j: int|
                0 <= j < c.tags.len() ==> (#[trigger] c.tags[j]).id != id) ==> r == Err::<
                CatalogModel,
                ErrorModel,
            >(Failure::Rule(Rule::NoSuchTag))
            &&& !is_blank(name) && 0 <= i < c.tags.len() && c.tags[i].id == id && name_is_there(
                c.tags,
                i,
                c.tags[i].parent_id,
                c.tags[i].category_id,
                trimmed(name),
            ) ==> r == Err::<CatalogModel, ErrorModel>(
                Failure::Write(Step::UpdateTag, Constraint::Unique(Key::TagPlace)),
            )
        }),
{
    if 0 <= i < c.tags.len() && c.tags[i].id == id {
        law_tag_can_be_updated(c, i, name, None, now);
        lemma_tag_at(c.tags, i);
    }
}

/// What is said where a category cannot be created, renamed or removed.
pub proof fn law_category_is_refused(
    c: CatalogModel,
    old_name: Seq<char>,
    name: Seq<char>,
    now: i64,
)
    requires
        c.wf(),
        c.category_seq < i64::MAX,
    ensures
        is_blank(name) ==> create_category_result(c, name, now) == Err::<CatalogModel, ErrorModel>(
            Failure::Rule(Rule::EmptyCategoryName),
        ),
        !is_blank(name) && has_category_named(c.categories, trimmed(name))
            ==> create_category_result(c, name, now) == Err::<CatalogModel, ErrorModel>(
            Failure::Write(Step::CreateCategory, Constraint::Unique(Key::CategoryName)),
        ),
        is_blank(old_name) || is_blank(name) ==> update_category_result(c, old_name, name) == Err::<
            CatalogModel,
            ErrorModel,
        >(Failure::Rule(Rule::EmptyCategoryName)),
        !is_blank(old_name) && !is_blank(name) && lowered(trimmed(old_name)) != lowered(
            trimmed(name),
        ) && !has_category_named(c.categories, trimmed(old_name)) ==> update_category_result(
            c,
            old_name,
            name,
        ) == Err::<CatalogModel, ErrorModel>(Failure::Rule(Rule::NoSuchCategory)),
        !is_blank(old_name) && !is_blank(name) && nocase(trimmed(old_name)) != nocase(trimmed(name))
            && lowered(trimmed(old_name)) != lowered(trimmed(name)) && has_category_named(
            c.categories,
            trimmed(old_name),
        ) && has_category_named(c.categories, trimmed(name)) ==> update_category_result(
            c,
            old_name,
            name,
        ) == Err::<CatalogModel, ErrorModel>(
            Failure::Write(Step::UpdateCategory, Constraint::Unique(Key::CategoryName)),
        ),
        is_blank(name) ==> delete_category_result(c, name) == Err::<CatalogModel, ErrorModel>(
            Failure::Rule(Rule::EmptyCategoryName),
        ),
        !is_blank(name) && !has_category_named(c.categories, trimmed(name))
            ==> delete_category_result(c, name) == Err::<CatalogModel, ErrorModel>(
            Failure::Rule(Rule::NoSuchCategory),
        ),
        forall|x: int, i: int|
            0 <= x < c.categories.len() && 0 <= i < c.tags.len() && !is_blank(name) && nocase(
                (#[trigger] c.categories[x]).name,
            ) == nocase(trimmed(name)) && (#[trigger] c.tags[i]).category_id == c.categories[x].id
                ==> delete_category_result(c, name) == Err::<CatalogModel, ErrorModel>(
                Failure::Rule(Rule::CategoryNotEmpty),
            ),
{
    assert forall|x: int, i: int|
        0 <= x < c.categories.len() && 0 <= i < c.tags.len() && !is_blank(name) && nocase(
            (#[trigger] c.categories[x]).name,
        ) == nocase(trimmed(name)) && (#[trigger] c.tags[i]).category_id
            == c.categories[x].id implies delete_category_result(c, name) == Err::<
        CatalogModel,
        ErrorModel,
    >(Failure::Rule(Rule::CategoryNotEmpty)) by {
        let y = choose|y: int|
            0 <= y < c.categories.len() && nocase(#[trigger] c.categories[y].name) == nocase(
                trimmed(name),
            );
        assert(nocase(c.categories[x].name) == nocase(trimmed(name)));
        if x < y {
            assert(nocase(c.categories[x].name) != nocase(c.categories[y].name));
        } else if y < x {
            assert(nocase(c.categories[y].name) != nocase(c.categories[x].name));
        }
        assert(c.tags[i].category_id == c.categories[y].id);
    }
}

/// Names for whoever does not exist are refused, but where all are blank.
proof fn lemma_names_for_nobody(
    c: CatalogModel,
    links: Seq<LinkModel>,
    owner: Seq<char>,
    names: Seq<Seq<char>>,
    now: i64,
)
    requires
        c.wf(),
        c.tag_seq < i64::MAX,
        c.category_seq < i64::MAX,
    ensures
        ({
            let s = link_names(c, links, owner, names, false, now);
            &&& s.links == links
            &&& s.error is None <==> forall|k: int|
                0 <= k < names.len() ==> is_blank(#[trigger] names[k])
            &&& s.error is Some ==> s.error == Some::<ErrorModel>(
                Failure::Write(Step::SaveLink, Constraint::ForeignKey),
            )
        }),
    decreases names.len(),
{
    if names.len() > 0 {
        let rest = names.drop_first();
        if is_blank(names[0]) {
            lemma_names_for_nobody(c, links, owner, rest, now);
            if forall|k: int| 0 <= k < rest.len() ==> is_blank(#[trigger] rest[k]) {
                assert forall|k: int| 0 <= k < names.len() implies is_blank(#[trigger] names[k]) by {
                    if k > 0 {
                        assert(rest[k - 1] == names[k]);
                    }
                }
            }
            if forall|k: int| 0 <= k < names.len() ==> is_blank(#[trigger] names[k]) {
                assert forall|k: int| 0 <= k < rest.len() implies is_blank(#[trigger] rest[k]) by {
                    assert(rest[k] == names[k + 1]);
                }
            }
        } else {
            law_name_gets_one_tag(c, trimmed(names[0]), uncategorized(), now, sync_steps());
        }
    }
}

/// Whoever does not exist can be given no tag: that is refused, unless no tag is asked for, and
/// nothing is carried that was not.
pub proof fn law_who_does_not_exist_carries_nothing(
    c: CatalogModel,
    links: Seq<LinkModel>,
    owner: Seq<char>,
    wish: TagWish,
    now: i64,
)
    requires
        c.wf(),
        c.tag_seq < i64::MAX,
        c.category_seq < i64::MAX,
    ensures
        ({
            let s = retagged(c, links, owner, wish, false, now);
            &&& s.links == links.filter(other_owner(owner))
            &&& s.error is None <==> (wish.tag_ids matches Some(ids) ==> ids.len() == 0)
                && forall|k: int|
                0 <= k < names_given(wish).len() ==> is_blank(#[trigger] names_given(wish)[k])
        }),
{
    let others = links.filter(other_owner(owner));
    lemma_names_for_nobody(c, others, owner, names_given(wish), now);
}

/// To change a clip or a music that does not exist is refused where a tag is asked for.
pub proof fn law_change_of_nothing_is_refused(
    l: LibraryModel,
    m: MusicModel,
    c: ClipModel,
    wish: TagWish,
    now: i64,
)
    requires
        l.wf(),
        l.catalog.tag_seq < i64::MAX,
        l.catalog.category_seq < i64::MAX,
        (wish.tag_ids matches Some(ids) && ids.len() > 0) || exists|k: int|
            0 <= k < names_given(wish).len() && !is_blank(#[trigger] names_given(wish)[k]),
    ensures
        (forall|i: int| 0 <= i < l.music.len() ==> (#[trigger] l.music[i]).id != m.id)
            ==> update_music_result(l, m, wish, now) is Err,
        (forall|i: int| 0 <= i < l.clips.len() ==> (#[trigger] l.clips[i]).id != c.id)
            ==> update_clip_result(l, c, wish, now) is Err,
{
    law_who_does_not_exist_carries_nothing(l.catalog, l.music_tags, m.id, wish, now);
    law_who_does_not_exist_carries_nothing(l.catalog, l.clip_tags, c.id, wish, now);
}

/// To change a clip that does not exist changes no clip.
pub proof fn law_clip_that_does_not_exist_is_not_changed(
    l: LibraryModel,
    c: ClipModel,
    wish: TagWish,
    now: i64,
)
    requires
        forall|i: int| 0 <= i < l.clips.len() ==> (#[trigger] l.clips[i]).id != c.id,
    ensures
        update_clip_result(l, c, wish, now) matches Ok(d) ==> d.clips == l.clips && d.music
            == l.music && d.candidates == l.candidates && d.music_tags == l.music_tags
            && d.album_tags == l.album_tags,
{
    if let Ok(d) = update_clip_result(l, c, wish, now) {
        assert(d.clips =~= l.clips);
    }
}

/// What is said where a clip cannot be created: of its range first, then that its identifier
/// is taken, then that there is no such music.
pub proof fn law_clip_is_refused(l: LibraryModel, c: ClipModel, wish: TagWish, now: i64)
    ensures
        ({
            let r = create_clip_result(l, c, wish, now);
            let range = range_result(c.start, c.end);
            let there = exists|i: int| 0 <= i < l.clips.len() && #[trigger] l.clips[i].id == c.id;
            let known = exists|i: int|
                0 <= i < l.music.len() && #[trigger] l.music[i].id == c.music_id;
            &&& range matches Err(e) ==> r == Err::<LibraryModel, ErrorModel>(e)
            &&& range is Ok && there ==> r == Err::<LibraryModel, ErrorModel>(
                Failure::Write(Step::InsertClip, Constraint::Unique(Key::ClipId)),
            )
            &&& range is Ok && !there && !known ==> r == Err::<LibraryModel, ErrorModel>(
                Failure::Write(Step::InsertClip, Constraint::ForeignKey),
            )
        }),
{
}

/// What is said where a music cannot be created or changed: that its file is larger than can be
/// written; that its path is another's; that its identifier is taken.
pub proof fn law_music_is_refused(l: LibraryModel, m: MusicModel, wish: TagWish, now: i64)
    ensures
        ({
            let (r, u) = (
                create_music_result(l, m, wish, now),
                update_music_result(l, m, wish, now),
            );
            let path = exists|i: int| 0 <= i < l.music.len() && #[trigger] l.music[i].path == m.path;
            let there = exists|i: int| 0 <= i < l.music.len() && #[trigger] l.music[i].id == m.id;
            let other = exists|i: int|
                0 <= i < l.music.len() && (#[trigger] l.music[i]).path == m.path && l.music[i].id
                    != m.id;
            &&& m.file_size > i64::MAX ==> r == Err::<LibraryModel, ErrorModel>(
                Failure::Write(Step::InsertMusic, Constraint::OutOfRange),
            ) && u == Err::<LibraryModel, ErrorModel>(
                Failure::Write(Step::UpdateMusic, Constraint::OutOfRange),
            )
            &&& m.file_size <= i64::MAX && path ==> r == Err::<LibraryModel, ErrorModel>(
                Failure::Write(Step::InsertMusic, Constraint::Unique(Key::MusicPath)),
            )
            &&& m.file_size <= i64::MAX && !path && there ==> r == Err::<LibraryModel, ErrorModel>(
                Failure::Write(Step::InsertMusic, Constraint::Unique(Key::MusicId)),
            )
            &&& m.file_size <= i64::MAX && there && other ==> u == Err::<LibraryModel, ErrorModel>(
                Failure::Write(Step::UpdateMusic, Constraint::Unique(Key::MusicPath)),
            )
        }),
{
}

} // verus!

//! Creating, changing and removing music.
use vstd::prelude::*;

use crate::catalog::aligned;
use crate::catalog::models;
use crate::failure::outcome;
use crate::failure::Constraint;
use crate::failure::ErrorModel;
use crate::failure::Failure;
use crate::failure::Key;
use crate::failure::LibraryError;
use crate::failure::Step;
use crate::library::asks_for;
use crate::library::clip_at;
use crate::library::clips_wf;
use crate::library::copy_links;
use crate::library::has_clip;
use crate::library::has_music;
use crate::library::has_path;
use crate::library::is_alive;
use crate::library::law_owner_carries_what_is_asked;
use crate::library::lemma_clip_at;
use crate::library::lemma_links_more_tags;
use crate::library::lemma_music_at;
use crate::library::lemma_retagged;
use crate::library::music_at;
use crate::library::music_owners;
use crate::library::music_wf;
use crate::library::retag;
use crate::library::retagged;
use crate::library::CandidateKind;
use crate::library::CandidateModel;
use crate::library::CandidateRow;
use crate::library::ClipModel;
use crate::library::ClipRow;
use crate::library::Library;
use crate::library::LibraryModel;
use crate::library::MusicInput;
use crate::library::MusicModel;
use crate::library::MusicRow;
use crate::library::TagWish;
use crate::links::lemma_links_filter;
use crate::links::other_owner;
use crate::links::LinkModel;
use crate::links::LinkRow;
use crate::rows::lemma_filter_all;
use crate::rows::lemma_filter_at;
use crate::rows::lemma_filter_has;
use crate::rows::lemma_filter_pair;
use crate::rows::lemma_filter_push;
use crate::rows::retain;
use crate::text::same_text;

verus! {

/// The library with the music `m`, which carries the tags asked for; or why there is
/// no such music.
pub open spec fn create_music_result(
    l: LibraryModel,
    m: MusicModel,
    wish: TagWish,
    now: i64,
) -> Result<LibraryModel, ErrorModel> {
    if m.file_size > i64::MAX {
        Err(Failure::Write(Step::InsertMusic, Constraint::OutOfRange))
    } else if has_path(l.music, m.path) {
        Err(Failure::Write(Step::InsertMusic, Constraint::Unique(Key::MusicPath)))
    } else if has_music(l.music, m.id) {
        Err(Failure::Write(Step::InsertMusic, Constraint::Unique(Key::MusicId)))
    } else {
        let s = retagged(l.catalog, l.music_tags, m.id, wish, true, now);
        match s.error {
            Some(e) => Err(e),
            None => Ok(
                LibraryModel {
                    catalog: s.catalog,
                    music: l.music.push(m),
                    music_tags: s.links,
                    ..l
                },
            ),
        }
    }
}

/// The music, once the one with the identifier of `m` is as `m` says; it keeps the
/// time of its creation.
pub open spec fn music_changed(music: Seq<MusicModel>, m: MusicModel) -> Seq<MusicModel> {
    Seq::new(
        music.len(),
        |i: int|
            if music[i].id == m.id {
                MusicModel { created_at: music[i].created_at, ..m }
            } else {
                music[i]
            },
    )
}

/// Whether a music other than `id` has the path `path`.
pub open spec fn path_elsewhere(music: Seq<MusicModel>, id: Seq<char>, path: Seq<char>) -> bool {
    exists|i: int|
        0 <= i < music.len() && (#[trigger] music[i]).id != id && music[i].path == path
}

/// The library once the music with the identifier of `m` is as `m` says and carries
/// the tags asked for; or why it is refused. A music that does not exist is passed
/// over, but carries no tags.
pub open spec fn update_music_result(
    l: LibraryModel,
    m: MusicModel,
    wish: TagWish,
    now: i64,
) -> Result<LibraryModel, ErrorModel> {
    let known = has_music(l.music, m.id);
    if m.file_size > i64::MAX {
        Err(Failure::Write(Step::UpdateMusic, Constraint::OutOfRange))
    } else if known && path_elsewhere(l.music, m.id, m.path) {
        Err(Failure::Write(Step::UpdateMusic, Constraint::Unique(Key::MusicPath)))
    } else {
        let s = retagged(l.catalog, l.music_tags, m.id, wish, known, now);
        match s.error {
            Some(e) => Err(e),
            None => Ok(
                LibraryModel {
                    catalog: s.catalog,
                    music: music_changed(l.music, m),
                    music_tags: s.links,
                    ..l
                },
            ),
        }
    }
}

/// Whether the clip `clip_id` is a part of the music `music_id`.
pub open spec fn is_part(clips: Seq<ClipModel>, clip_id: Seq<char>, music_id: Seq<char>) -> bool {
    has_clip(clips, clip_id) && clip_at(clips, clip_id).music_id == music_id
}

/// Being a music other than `id`.
pub open spec fn other_music(id: Seq<char>) -> spec_fn(MusicModel) -> bool {
    |m: MusicModel| m.id != id
}

/// Being a clip of a music other than `id`.
pub open spec fn clip_elsewhere(id: Seq<char>) -> spec_fn(ClipModel) -> bool {
    |c: ClipModel| c.music_id != id
}

/// Being a link of a clip that is no part of the music `id`.
pub open spec fn carried_elsewhere(clips: Seq<ClipModel>, id: Seq<char>) -> spec_fn(
    LinkModel,
) -> bool {
    |k: LinkModel| !is_part(clips, k.owner, id)
}

/// Being a candidate that is neither the music `id` nor a part of it.
pub open spec fn picked_elsewhere(clips: Seq<ClipModel>, id: Seq<char>) -> spec_fn(
    CandidateModel,
) -> bool {
    |c: CandidateModel|
        match c.kind {
            CandidateKind::Music => c.target_id != id,
            CandidateKind::Clip => !is_part(clips, c.target_id, id),
        }
}

/// The library without the music `id`, its clips, the tags that they carry, and the
/// candidates that they are.
pub open spec fn music_deleted(l: LibraryModel, id: Seq<char>) -> LibraryModel {
    if has_music(l.music, id) {
        LibraryModel {
            catalog: l.catalog,
            music: l.music.filter(other_music(id)),
            duration_column: l.duration_column,
            clips: l.clips.filter(clip_elsewhere(id)),
            candidates: l.candidates.filter(picked_elsewhere(l.clips, id)),
            music_tags: l.music_tags.filter(other_owner(id)),
            clip_tags: l.clip_tags.filter(carried_elsewhere(l.clips, id)),
            album_tags: l.album_tags,
        }
    } else {
        l
    }
}

/// The library without the music `ids`, taken away one after the other.
pub open spec fn music_batch_deleted(l: LibraryModel, ids: Seq<Seq<char>>) -> LibraryModel
    decreases ids.len(),
{
    if ids.len() == 0 {
        l
    } else {
        music_batch_deleted(music_deleted(l, ids[0]), ids.drop_first())
    }
}

/// A music that was there stays when another is added.
pub proof fn lemma_music_pushed(music: Seq<MusicModel>, m: MusicModel)
    ensures
        forall|id: Seq<char>| #[trigger]
            has_music(music.push(m), id) <==> has_music(music, id) || id == m.id,
{
    let after = music.push(m);
    assert forall|id: Seq<char>| #[trigger] has_music(after, id) <==> has_music(music, id) || id
        == m.id by {
        if has_music(music, id) {
            let i = choose|i: int| 0 <= i < music.len() && #[trigger] music[i].id == id;
            assert(after[i].id == id);
        }
        if id == m.id {
            assert(after[music.len() as int].id == id);
        }
        if has_music(after, id) {
            let i = choose|i: int| 0 <= i < after.len() && #[trigger] after[i].id == id;
            if i < music.len() {
                assert(music[i].id == id);
            }
        }
    }
}

pub proof fn lemma_music_changed(music: Seq<MusicModel>, m: MusicModel)
    requires
        music_wf(music),
        m.file_size <= i64::MAX,
        has_music(music, m.id) ==> !path_elsewhere(music, m.id, m.path),
    ensures
        music_wf(music_changed(music, m)),
        forall|id: Seq<char>| #[trigger]
            has_music(music_changed(music, m), id) <==> has_music(music, id),
{
    let after = music_changed(music, m);
    assert forall|id: Seq<char>| #[trigger] has_music(after, id) <==> has_music(music, id) by {
        if has_music(music, id) {
            let i = choose|i: int| 0 <= i < music.len() && #[trigger] music[i].id == id;
            assert(after[i].id == id);
        }
        if has_music(after, id) {
            let i = choose|i: int| 0 <= i < after.len() && #[trigger] after[i].id == id;
            assert(music[i].id == id);
        }
    }
    assert forall|i: int, j: int| 0 <= i < j < after.len() implies (#[trigger] after[i]).id != (
    #[trigger] after[j]).id && after[i].path != after[j].path by {
        assert(music[i].id != music[j].id);
        assert(music[i].path != music[j].path);
    }
    assert forall|i: int| 0 <= i < after.len() implies (#[trigger] after[i]).file_size
        <= i64::MAX by {
        assert(music[i].file_size <= i64::MAX);
    }
}

/// What holds of the tables still holds once music were exchanged for others of the
/// same identifiers, or added.
proof fn lemma_more_music(before: LibraryModel, music: Seq<MusicModel>)
    requires
        before.wf(),
        forall|id: Seq<char>| #[trigger] has_music(before.music, id) ==> has_music(music, id),
    ensures
        clips_wf(music, before.clips),
        music_owners(music, before.music_tags),
        before.candidates_alive() ==> (LibraryModel { music, ..before }).candidates_alive(),
{
    assert forall|i: int| 0 <= i < before.clips.len() implies has_music(
        music,
        (#[trigger] before.clips[i]).music_id,
    ) by {
        assert(has_music(before.music, before.clips[i].music_id));
    }
    if before.candidates_alive() {
        let after = LibraryModel { music, ..before };
        assert forall|i: int| 0 <= i < after.candidates.len() implies is_alive(
            after,
            #[trigger] after.candidates[i],
        ) by {
            assert(is_alive(before, before.candidates[i]));
        }
    }
}

/// Once a music was added the tables are in order, no candidate is left whose music or
/// clip is gone, and every tag below another stands in the category of the tag above it,
/// if it was so before.
pub proof fn law_create_music_keeps_the_library(l: LibraryModel, m: MusicModel, wish: TagWish, now: i64)
    requires
        l.wf(),
        create_music_result(l, m, wish, now) is Ok,
    ensures
        (create_music_result(l, m, wish, now)->Ok_0).wf(),
        l.candidates_alive() ==> (create_music_result(l, m, wish, now)->Ok_0).candidates_alive(),
        aligned(l.catalog.tags) ==> aligned(
            (create_music_result(l, m, wish, now)->Ok_0).catalog.tags,
        ),
{
    let r = create_music_result(l, m, wish, now)->Ok_0;
    let s = retagged(l.catalog, l.music_tags, m.id, wish, true, now);
    lemma_retagged(l.catalog, l.music_tags, m.id, wish, true, now);
    lemma_links_more_tags(l.catalog.tags, s.catalog.tags, l.clip_tags);
    lemma_links_more_tags(l.catalog.tags, s.catalog.tags, l.album_tags);
    lemma_music_pushed(l.music, m);
    lemma_more_music(l, r.music);
    let n = l.music.len() as int;
    assert forall|i: int, j: int| 0 <= i < j < r.music.len() implies (#[trigger] r.music[i]).id != (
    #[trigger] r.music[j]).id && r.music[i].path != r.music[j].path by {
        if j == n {
            assert(l.music[i].id != m.id);
            assert(l.music[i].path != m.path);
        } else {
            assert(l.music[i].id != l.music[j].id);
        }
    }
    assert forall|i: int| 0 <= i < r.music.len() implies (#[trigger] r.music[i]).file_size
        <= i64::MAX by {
        if i < n {
            assert(l.music[i].file_size <= i64::MAX);
        }
    }
    assert forall|i: int| 0 <= i < s.links.len() implies has_music(
        r.music,
        (#[trigger] s.links[i]).owner,
    ) by {
        if s.links[i].owner != m.id {
            let k = choose|k: int| 0 <= k < l.music_tags.len() && l.music_tags[k] == s.links[i];
            assert(has_music(l.music, l.music_tags[k].owner));
        }
    }
}

/// Once a music was changed the tables are in order, no candidate is left whose music or
/// clip is gone, and every tag below another stands in the category of the tag above it,
/// if it was so before.
pub proof fn law_update_music_keeps_the_library(l: LibraryModel, m: MusicModel, wish: TagWish, now: i64)
    requires
        l.wf(),
        update_music_result(l, m, wish, now) is Ok,
    ensures
        (update_music_result(l, m, wish, now)->Ok_0).wf(),
        l.candidates_alive() ==> (update_music_result(l, m, wish, now)->Ok_0).candidates_alive(),
        aligned(l.catalog.tags) ==> aligned(
            (update_music_result(l, m, wish, now)->Ok_0).catalog.tags,
        ),
{
    let r = update_music_result(l, m, wish, now)->Ok_0;
    let known = has_music(l.music, m.id);
    let s = retagged(l.catalog, l.music_tags, m.id, wish, known, now);
    lemma_retagged(l.catalog, l.music_tags, m.id, wish, known, now);
    lemma_links_more_tags(l.catalog.tags, s.catalog.tags, l.clip_tags);
    lemma_links_more_tags(l.catalog.tags, s.catalog.tags, l.album_tags);
    lemma_music_changed(l.music, m);
    lemma_more_music(l, r.music);
    assert forall|i: int| 0 <= i < s.links.len() implies has_music(
        r.music,
        (#[trigger] s.links[i]).owner,
    ) by {
        if !(s.links[i].owner == m.id && known) {
            let k = choose|k: int| 0 <= k < l.music_tags.len() && l.music_tags[k] == s.links[i];
            assert(has_music(l.music, l.music_tags[k].owner));
        }
    }
}

/// Once a music is removed, it does not exist, no clip is a part of it, no tag is
/// carried by it or by a clip that does not exist, and no candidate is left whose music
/// or clip is gone.
pub proof fn law_music_leaves_nothing_behind(l: LibraryModel, id: Seq<char>)
    requires
        l.wf(),
    ensures
        music_deleted(l, id).wf(),
        !has_music(music_deleted(l, id).music, id),
        forall|i: int|
            0 <= i < music_deleted(l, id).clips.len() ==> (
            #[trigger] music_deleted(l, id).clips[i]).music_id != id,
        l.candidates_alive() ==> music_deleted(l, id).candidates_alive(),
        forall|other: Seq<char>|
            other != id && has_music(l.music, other) ==> has_music(
                music_deleted(l, id).music,
                other,
            ),
{
    let r = music_deleted(l, id);
    if has_music(l.music, id) {
        lemma_links_filter(l.catalog.tags, l.music_tags, other_owner(id));
        lemma_links_filter(l.catalog.tags, l.clip_tags, carried_elsewhere(l.clips, id));
        assert forall|other: Seq<char>| other != id && has_music(l.music, other) implies has_music(
            r.music,
            other,
        ) by {
            let a = choose|a: int| 0 <= a < l.music.len() && #[trigger] l.music[a].id == other;
            let i = lemma_filter_has(l.music, other_music(id), a);
            assert(r.music[i].id == other);
        }
        assert forall|i: int, j: int| 0 <= i < j < r.music.len() implies (#[trigger] r.music[i]).id
            != (#[trigger] r.music[j]).id && r.music[i].path != r.music[j].path by {
            let (a, b) = lemma_filter_pair(l.music, other_music(id), i, j);
            assert(l.music[a].id != l.music[b].id);
        }
        assert forall|i: int| 0 <= i < r.music.len() implies (#[trigger] r.music[i]).file_size
            <= i64::MAX && r.music[i].id != id by {
            let a = lemma_filter_at(l.music, other_music(id), i);
            assert(l.music[a].file_size <= i64::MAX);
        }
        assert forall|i: int, j: int| 0 <= i < j < r.clips.len() implies (#[trigger] r.clips[i]).id
            != (#[trigger] r.clips[j]).id by {
            let (a, b) = lemma_filter_pair(l.clips, clip_elsewhere(id), i, j);
            assert(l.clips[a].id != l.clips[b].id);
        }
        assert forall|i: int| 0 <= i < r.clips.len() implies (#[trigger] r.clips[i]).music_id != id
            && has_music(r.music, r.clips[i].music_id) && crate::seconds::valid_range(
            r.clips[i].start,
            r.clips[i].end,
        ) by {
            let a = lemma_filter_at(l.clips, clip_elsewhere(id), i);
            assert(has_music(l.music, l.clips[a].music_id));
            assert(crate::seconds::valid_range(l.clips[a].start, l.clips[a].end));
        }
        lemma_clips_left(l, id);
        assert forall|i: int, j: int| 0 <= i < j < r.candidates.len() implies (
        #[trigger] r.candidates[i]).target_id != (#[trigger] r.candidates[j]).target_id by {
            let (a, b) = lemma_filter_pair(
                l.candidates,
                picked_elsewhere(l.clips, id),
                i,
                j,
            );
            assert(l.candidates[a].target_id != l.candidates[b].target_id);
        }
        assert forall|i: int| 0 <= i < r.music_tags.len() implies has_music(
            r.music,
            (#[trigger] r.music_tags[i]).owner,
        ) by {
            let a = lemma_filter_at(l.music_tags, other_owner(id), i);
            assert(has_music(l.music, l.music_tags[a].owner));
        }
        assert forall|i: int| 0 <= i < r.clip_tags.len() implies has_clip(
            r.clips,
            (#[trigger] r.clip_tags[i]).owner,
        ) by {
            let a = lemma_filter_at(l.clip_tags, carried_elsewhere(l.clips, id), i);
            assert(has_clip(l.clips, l.clip_tags[a].owner));
        }
        if l.candidates_alive() {
            assert forall|i: int| 0 <= i < r.candidates.len() implies is_alive(
                r,
                #[trigger] r.candidates[i],
            ) by {
                let a = lemma_filter_at(l.candidates, picked_elsewhere(l.clips, id), i);
                assert(is_alive(l, l.candidates[a]));
            }
        }
    }
}

/// The clips left once a music is removed are those that are no part of it.
proof fn lemma_clips_left(l: LibraryModel, id: Seq<char>)
    requires
        l.wf(),
    ensures
        forall|c: Seq<char>| #[trigger]
            has_clip(l.clips, c) && !is_part(l.clips, c, id) ==> has_clip(
                l.clips.filter(clip_elsewhere(id)),
                c,
            ),
{
    let left = l.clips.filter(clip_elsewhere(id));
    assert forall|c: Seq<char>| #[trigger]
        has_clip(l.clips, c) && !is_part(l.clips, c, id) implies has_clip(left, c) by {
        let a = choose|a: int| 0 <= a < l.clips.len() && #[trigger] l.clips[a].id == c;
        lemma_clip_at(l.music, l.clips, a);
        let i = lemma_filter_has(l.clips, clip_elsewhere(id), a);
        assert(left[i].id == c);
    }
}

pub proof fn lemma_batch_wf(l: LibraryModel, ids: Seq<Seq<char>>)
    requires
        l.wf(),
    ensures
        music_batch_deleted(l, ids).wf(),
        l.candidates_alive() ==> music_batch_deleted(l, ids).candidates_alive(),
    decreases ids.len(),
{
    if ids.len() > 0 {
        law_music_leaves_nothing_behind(l, ids[0]);
        lemma_batch_wf(music_deleted(l, ids[0]), ids.drop_first());
    }
}

/// A music that was created is there as it was handed over, with the tags asked for;
/// every other music is as it was and carries what it carried.
pub proof fn law_created_music_is_found(l: LibraryModel, m: MusicModel, wish: TagWish, now: i64)
    requires
        l.wf(),
        create_music_result(l, m, wish, now) is Ok,
    ensures
        ({
            let r = create_music_result(l, m, wish, now)->Ok_0;
            &&& has_music(r.music, m.id)
            &&& music_at(r.music, m.id) == m
            &&& forall|id: Seq<char>| #[trigger]
                has_music(l.music, id) ==> has_music(r.music, id) && music_at(r.music, id)
                    == music_at(l.music, id)
            &&& forall|id: i64|
                r.music_tags.contains(LinkModel { owner: m.id, tag_id: id }) <==> asks_for(
                    r.catalog,
                    wish,
                    id,
                )
            &&& forall|k: LinkModel|
                k.owner != m.id ==> (r.music_tags.contains(k) <==> l.music_tags.contains(k))
        }),
{
    let r = create_music_result(l, m, wish, now)->Ok_0;
    law_create_music_keeps_the_library(l, m, wish, now);
    law_owner_carries_what_is_asked(l.catalog, l.music_tags, m.id, wish, now);
    lemma_music_at(r.music, l.music.len() as int);
    assert forall|id: Seq<char>| #[trigger] has_music(l.music, id) implies has_music(r.music, id)
        && music_at(r.music, id) == music_at(l.music, id) by {
        let i = choose|i: int| 0 <= i < l.music.len() && #[trigger] l.music[i].id == id;
        lemma_music_at(l.music, i);
        assert(r.music[i] == l.music[i]);
        lemma_music_at(r.music, i);
    }
}

/// A music that is created and removed leaves every table as it was, but for the tags
/// that were made for it.
pub proof fn law_created_music_is_undone(l: LibraryModel, m: MusicModel, wish: TagWish, now: i64)
    requires
        l.wf(),
        l.candidates_alive(),
        create_music_result(l, m, wish, now) is Ok,
    ensures
        ({
            let r = create_music_result(l, m, wish, now)->Ok_0;
            music_deleted(r, m.id) == (LibraryModel { catalog: r.catalog, ..l })
        }),
{
    let r = create_music_result(l, m, wish, now)->Ok_0;
    lemma_retagged(l.catalog, l.music_tags, m.id, wish, true, now);
    assert(r.music.last().id == m.id);
    lemma_filter_push(l.music, m, other_music(m.id));
    lemma_filter_all(l.music, other_music(m.id));
    assert forall|i: int| 0 <= i < l.clips.len() implies clip_elsewhere(m.id)(
        #[trigger] l.clips[i],
    ) by {
        assert(has_music(l.music, l.clips[i].music_id));
    }
    lemma_filter_all(l.clips, clip_elsewhere(m.id));
    assert forall|c: Seq<char>| !#[trigger] is_part(l.clips, c, m.id) by {
        if has_clip(l.clips, c) {
            let k = choose|k: int| 0 <= k < l.clips.len() && #[trigger] l.clips[k].id == c;
            assert(has_music(l.music, l.clips[k].music_id));
        }
    }
    assert forall|i: int| 0 <= i < l.candidates.len() implies picked_elsewhere(l.clips, m.id)(
        #[trigger] l.candidates[i],
    ) by {
        assert(is_alive(l, l.candidates[i]));
    }
    lemma_filter_all(l.candidates, picked_elsewhere(l.clips, m.id));
    assert forall|i: int| 0 <= i < l.music_tags.len() implies other_owner(m.id)(
        #[trigger] l.music_tags[i],
    ) by {
        assert(has_music(l.music, l.music_tags[i].owner));
    }
    lemma_filter_all(l.music_tags, other_owner(m.id));
    lemma_filter_all(l.clip_tags, carried_elsewhere(l.clips, m.id));
}

/// A music that was changed is there as it was handed over, but for the time of its
/// creation, with the tags asked for; every other music is as it was and carries what it
/// carried.
pub proof fn law_updated_music_is_found(l: LibraryModel, m: MusicModel, wish: TagWish, now: i64)
    requires
        l.wf(),
        has_music(l.music, m.id),
        update_music_result(l, m, wish, now) is Ok,
    ensures
        ({
            let r = update_music_result(l, m, wish, now)->Ok_0;
            &&& has_music(r.music, m.id)
            &&& music_at(r.music, m.id) == (MusicModel {
                created_at: music_at(l.music, m.id).created_at,
                ..m
            })
            &&& forall|id: Seq<char>| #[trigger]
                has_music(l.music, id) && id != m.id ==> has_music(r.music, id) && music_at(
                    r.music,
                    id,
                ) == music_at(l.music, id)
            &&& forall|id: i64|
                r.music_tags.contains(LinkModel { owner: m.id, tag_id: id }) <==> asks_for(
                    r.catalog,
                    wish,
                    id,
                )
            &&& forall|k: LinkModel|
                k.owner != m.id ==> (r.music_tags.contains(k) <==> l.music_tags.contains(k))
        }),
{
    let r = update_music_result(l, m, wish, now)->Ok_0;
    law_update_music_keeps_the_library(l, m, wish, now);
    law_owner_carries_what_is_asked(l.catalog, l.music_tags, m.id, wish, now);
    assert forall|id: Seq<char>| #[trigger] has_music(l.music, id) implies has_music(r.music, id)
        && music_at(r.music, id) == if id == m.id {
        MusicModel { created_at: music_at(l.music, m.id).created_at, ..m }
    } else {
        music_at(l.music, id)
    } by {
        let i = choose|i: int| 0 <= i < l.music.len() && #[trigger] l.music[i].id == id;
        lemma_music_at(l.music, i);
        assert(r.music[i].id == id);
        lemma_music_at(r.music, i);
    }
}

impl Library {
    /// Whether a music other than `id` has the path `path`.
    pub fn path_in_use(&self, id: &str, path: &str) -> (b: bool)
        ensures
            b == path_elsewhere(self@.music, id@, path@),
    {
        let mut i: usize = 0;
        while i < self.music.len()
            invariant
                i <= self.music@.len(),
                forall|j: int|
                    0 <= j < i ==> !((#[trigger] self@.music[j]).id != id@ && self@.music[j].path
                        == path@),
            decreases self.music@.len() - i,
        {
            if !same_text(self.music[i].id.as_str(), id) && same_text(
                self.music[i].path.as_str(),
                path,
            ) {
                assert(self@.music[i as int].id != id@);
                return true;
            }
            i = i + 1;
        }
        false
    }

    /// Adds a music, with the bookmark made for its file and the tags asked for.
    pub fn create_music(&mut self, music: MusicInput, bookmark: Vec<u8>, now: i64) -> (r: Result<
        (),
        LibraryError,
    >)
        requires
            old(self)@.wf(),
        ensures
            final(self)@.wf(),
            match create_music_result(
                old(self)@,
                music.music(Some(bookmark@)),
                music.wish(),
                now,
            ) {
                Ok(l) => r is Ok && final(self)@ == l,
                Err(e) => outcome(r) == Err::<(), ErrorModel>(e) && final(self)@ == old(self)@,
            },
    {
        let ghost m = music.music(Some(bookmark@));
        if music.file_size > 0x7fff_ffff_ffff_ffff {
            return Err(Failure::Write(Step::InsertMusic, Constraint::OutOfRange));
        }
        let same: Option<usize> = self.music_index(music.id.as_str());
        let own: bool = match same {
            Some(k) => same_text(self.music[k].path.as_str(), music.path.as_str()),
            None => false,
        };
        if own || self.path_in_use(music.id.as_str(), music.path.as_str()) {
            proof {
                if own {
                    assert(self@.music[same->0 as int].path == m.path);
                } else {
                    let i = choose|i: int|
                        0 <= i < self@.music.len() && (#[trigger] self@.music[i]).id != m.id
                            && self@.music[i].path == m.path;
                    assert(self@.music[i].path == m.path);
                }
            }
            return Err(Failure::Write(Step::InsertMusic, Constraint::Unique(Key::MusicPath)));
        }
        proof {
            if has_path(self@.music, m.path) {
                let i = choose|i: int|
                    0 <= i < self@.music.len() && #[trigger] self@.music[i].path == m.path;
                if self@.music[i].id == m.id {
                    assert(same is Some);
                    assert(i == same->0) by {
                        lemma_music_at(self@.music, i);
                        lemma_music_at(self@.music, same->0 as int);
                        if i < same->0 {
                            assert(self@.music[i].id != self@.music[same->0 as int].id);
                        } else if same->0 < i {
                            assert(self@.music[same->0 as int].id != self@.music[i].id);
                        }
                    }
                } else {
                    assert(path_elsewhere(self@.music, m.id, m.path));
                }
            }
        }
        if same.is_some() {
            proof {
                assert(self@.music[same->0 as int].id == m.id);
            }
            return Err(Failure::Write(Step::InsertMusic, Constraint::Unique(Key::MusicId)));
        }
        let mut catalog = self.catalog.clone();
        let mut links = copy_links(&self.music_tags);
        match retag(
            &mut catalog,
            &mut links,
            music.id.as_str(),
            &music.tags,
            &music.tag_ids,
            &music.new_tags,
            true,
            now,
        ) {
            Err(e) => {
                return Err(e);
            },
            Ok(_) => {},
        }
        let row = music.row(bookmark);
        proof {
            law_create_music_keeps_the_library(self@, m, music.wish(), now);
        }
        let ghost before = self@;
        self.catalog = catalog;
        self.music_tags = links;
        self.music.push(row);
        proof {
            assert(self@.music =~= before.music.push(m));
        }
        Ok(())
    }

    /// Changes a music, with the bookmark made for its file and the tags asked for.
    pub fn update_music(&mut self, music: MusicInput, bookmark: Vec<u8>, now: i64) -> (r: Result<
        (),
        LibraryError,
    >)
        requires
            old(self)@.wf(),
        ensures
            final(self)@.wf(),
            match update_music_result(
                old(self)@,
                music.music(Some(bookmark@)),
                music.wish(),
                now,
            ) {
                Ok(l) => r is Ok && final(self)@ == l,
                Err(e) => outcome(r) == Err::<(), ErrorModel>(e) && final(self)@ == old(self)@,
            },
    {
        let ghost m = music.music(Some(bookmark@));
        if music.file_size > 0x7fff_ffff_ffff_ffff {
            return Err(Failure::Write(Step::UpdateMusic, Constraint::OutOfRange));
        }
        let at = self.music_index(music.id.as_str());
        let known: bool = at.is_some();
        proof {
            assert(known == has_music(self@.music, m.id));
        }
        if known && self.path_in_use(music.id.as_str(), music.path.as_str()) {
            return Err(Failure::Write(Step::UpdateMusic, Constraint::Unique(Key::MusicPath)));
        }
        let mut catalog = self.catalog.clone();
        let mut links = copy_links(&self.music_tags);
        match retag(
            &mut catalog,
            &mut links,
            music.id.as_str(),
            &music.tags,
            &music.tag_ids,
            &music.new_tags,
            known,
            now,
        ) {
            Err(e) => {
                return Err(e);
            },
            Ok(_) => {},
        }
        proof {
            law_update_music_keeps_the_library(self@, m, music.wish(), now);
        }
        let ghost before = self@;
        match at {
            Some(i) => {
                let mut row = music.row(bookmark);
                row.created_at = self.music[i].created_at;
                self.music.set(i, row);
                proof {
                    assert forall|k: int| 0 <= k < before.music.len() implies models(
                        self.music@,
                    )[k] == music_changed(before.music, m)[k] by {
                        if k != i {
                            if k < i {
                                assert(before.music[k].id != before.music[i as int].id);
                            } else {
                                assert(before.music[i as int].id != before.music[k].id);
                            }
                        }
                    }
                    assert(models(self.music@) =~= music_changed(before.music, m));
                }
            },
            None => {
                proof {
                    assert(music_changed(before.music, m) =~= before.music);
                }
            },
        }
        self.catalog = catalog;
        self.music_tags = links;
        Ok(())
    }

    /// Whether the clip `clip_id` is a part of the music `music_id`.
    pub fn is_part_of(&self, clip_id: &str, music_id: &str) -> (b: bool)
        requires
            clips_wf(self@.music, self@.clips),
        ensures
            b == is_part(self@.clips, clip_id@, music_id@),
    {
        match self.clip_index(clip_id) {
            Some(i) => {
                proof {
                    lemma_clip_at(self@.music, self@.clips, i as int);
                }
                same_text(self.clips[i].music_id.as_str(), music_id)
            },
            None => false,
        }
    }

    /// Removes the music `id` with all that hangs on it.
    pub fn delete_music(&mut self, id: &str)
        requires
            old(self)@.wf(),
        ensures
            final(self)@.wf(),
            final(self)@ == music_deleted(old(self)@, id@),
    {
        proof {
            law_music_leaves_nothing_behind(self@, id@);
        }
        if self.music_index(id).is_none() {
            return;
        }
        let ghost before = self@;
        let mut doomed: Vec<LinkRow> = copy_links(&self.clip_tags);
        let mut picked: Vec<CandidateRow> = self.copy_candidates();
        {
            let library: &Library = self;
            let keep = |k: &LinkRow| -> (b: bool)
                ensures
                    b == !is_part(library@.clips, k@.owner, id@),
                { !library.is_part_of(k.owner.as_str(), id) };
            retain(&mut doomed, Ghost(carried_elsewhere(before.clips, id@)), keep);
            let keep_picked = |c: &CandidateRow| -> (b: bool)
                ensures
                    b == picked_elsewhere(library@.clips, id@)(c@),
                {
                    match c.kind {
                        CandidateKind::Music => !same_text(c.target_id.as_str(), id),
                        CandidateKind::Clip => !library.is_part_of(c.target_id.as_str(), id),
                    }
                };
            retain(&mut picked, Ghost(picked_elsewhere(before.clips, id@)), keep_picked);
        }
        let keep_clip = |c: &ClipRow| -> (b: bool)
            ensures
                b == (c@.music_id != id@),
            { !same_text(c.music_id.as_str(), id) };
        retain(&mut self.clips, Ghost(clip_elsewhere(id@)), keep_clip);
        let keep_music = |m: &MusicRow| -> (b: bool)
            ensures
                b == (m@.id != id@),
            { !same_text(m.id.as_str(), id) };
        retain(&mut self.music, Ghost(other_music(id@)), keep_music);
        crate::links::drop_owner(&mut self.music_tags, id);
        self.clip_tags = doomed;
        self.candidates = picked;
    }

    /// Removes the music `ids` with all that hangs on them.
    pub fn delete_music_batch(&mut self, ids: Vec<String>)
        requires
            old(self)@.wf(),
        ensures
            final(self)@.wf(),
            final(self)@ == music_batch_deleted(old(self)@, models(ids@)),
    {
        let ghost all = music_batch_deleted(self@, models(ids@));
        let ghost m = models(ids@);
        let mut i: usize = 0;
        proof {
            assert(m.skip(0) =~= m);
        }
        while i < ids.len()
            invariant
                i <= ids@.len(),
                m == models(ids@),
                self@.wf(),
                all == music_batch_deleted(old(self)@, m),
                all == music_batch_deleted(self@, m.skip(i as int)),
            decreases ids@.len() - i,
        {
            proof {
                assert(m.skip(i as int).drop_first() =~= m.skip(i + 1));
                assert(m.skip(i as int)[0] == m[i as int]);
            }
            self.delete_music(ids[i].as_str());
            i = i + 1;
        }
    }
}

} // verus!

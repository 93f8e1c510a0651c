//! Creating, changing and removing clips.
use vstd::prelude::*;

use crate::catalog::aligned;
use crate::catalog::models;
use crate::failure::outcome;
use crate::failure::Constraint;
use crate::failure::ErrorModel;
use crate::failure::Failure;
use crate::failure::Key;
use crate::failure::LibraryError;
use crate::failure::Step;
use crate::library::asks_for;
use crate::library::clip_at;
use crate::library::clip_owners;
use crate::library::clips_wf;
use crate::library::copy_links;
use crate::library::has_clip;
use crate::library::has_music;
use crate::library::is_alive;
use crate::library::law_owner_carries_what_is_asked;
use crate::library::lemma_clip_at;
use crate::library::lemma_links_more_tags;
use crate::library::lemma_retagged;
use crate::library::retag;
use crate::library::retagged;
use crate::library::CandidateKind;
use crate::library::CandidateModel;
use crate::library::CandidateRow;
use crate::library::ClipInput;
use crate::library::ClipModel;
use crate::library::ClipRow;
use crate::library::Library;
use crate::library::LibraryModel;
use crate::library::MusicModel;
use crate::library::TagWish;
use crate::links::drop_owner;
use crate::links::lemma_links_filter;
use crate::links::other_owner;
use crate::links::LinkModel;
use crate::rows::lemma_filter_all;
use crate::rows::lemma_filter_at;
use crate::rows::lemma_filter_has;
use crate::rows::lemma_filter_pair;
use crate::rows::lemma_filter_push;
use crate::rows::retain;
use crate::seconds::range_result;
use crate::seconds::valid_range;
use crate::seconds::validate_clip_range;
use crate::text::same_text;

verus! {

/// The library with the clip `c`, which carries the tags asked for; or why there is no
/// such clip.
pub open spec fn create_clip_result(
    l: LibraryModel,
    c: ClipModel,
    wish: TagWish,
    now: i64,
) -> Result<LibraryModel, ErrorModel> {
    match range_result(c.start, c.end) {
        Err(e) => Err(e),
        Ok(_) => if has_clip(l.clips, c.id) {
            Err(Failure::Write(Step::InsertClip, Constraint::Unique(Key::ClipId)))
        } else if !has_music(l.music, c.music_id) {
            Err(Failure::Write(Step::InsertClip, Constraint::ForeignKey))
        } else {
            let s = retagged(l.catalog, l.clip_tags, c.id, wish, true, now);
            match s.error {
                Some(e) => Err(e),
                None => Ok(
                    LibraryModel {
                        catalog: s.catalog,
                        clips: l.clips.push(c),
                        clip_tags: s.links,
                        ..l
                    },
                ),
            }
        },
    }
}

/// The clips, once the one with the identifier of `c` has its name, its range and the
/// time of its change; it stays a part of its music.
pub open spec fn clips_changed(clips: Seq<ClipModel>, c: ClipModel) -> Seq<ClipModel> {
    Seq::new(
        clips.len(),
        |i: int|
            if clips[i].id == c.id {
                ClipModel {
                    name: c.name,
                    start: c.start,
                    end: c.end,
                    updated_at: c.updated_at,
                    ..clips[i]
                }
            } else {
                clips[i]
            },
    )
}

/// The library once the clip with the identifier of `c` has its name and range, and
/// carries the tags asked for; or why it is refused. A clip that does not exist is
/// passed over, but carries no tags.
pub open spec fn update_clip_result(
    l: LibraryModel,
    c: ClipModel,
    wish: TagWish,
    now: i64,
) -> Result<LibraryModel, ErrorModel> {
    match range_result(c.start, c.end) {
        Err(e) => Err(e),
        Ok(_) => {
            let s = retagged(l.catalog, l.clip_tags, c.id, wish, has_clip(l.clips, c.id), now);
            match s.error {
                Some(e) => Err(e),
                None => Ok(
                    LibraryModel {
                        catalog: s.catalog,
                        clips: clips_changed(l.clips, c),
                        clip_tags: s.links,
                        ..l
                    },
                ),
            }
        },
    }
}

/// Being a clip other than `id`.
pub open spec fn other_clip(id: Seq<char>) -> spec_fn(ClipModel) -> bool {
    |c: ClipModel| c.id != id
}

/// Being a candidate that is not the clip `id`.
pub open spec fn other_clip_picked(id: Seq<char>) -> spec_fn(CandidateModel) -> bool {
    |c: CandidateModel| c.kind == CandidateKind::Music || c.target_id != id
}

/// The library without the clip `id`, the tags that it carries, and the candidate that
/// it is.
pub open spec fn clip_deleted(l: LibraryModel, id: Seq<char>) -> LibraryModel {
    if has_clip(l.clips, id) {
        LibraryModel {
            clips: l.clips.filter(other_clip(id)),
            clip_tags: l.clip_tags.filter(other_owner(id)),
            candidates: l.candidates.filter(other_clip_picked(id)),
            ..l
        }
    } else {
        l
    }
}

/// The library without the clips `ids`, taken away one after the other.
pub open spec fn clip_batch_deleted(l: LibraryModel, ids: Seq<Seq<char>>) -> LibraryModel
    decreases ids.len(),
{
    if ids.len() == 0 {
        l
    } else {
        clip_batch_deleted(clip_deleted(l, ids[0]), ids.drop_first())
    }
}

/// The owners of tags, and the candidates, are there still when clips were added or
/// changed.
proof fn lemma_more_clips(l: LibraryModel, clips: Seq<ClipModel>, links: Seq<LinkModel>)
    requires
        l.wf(),
        forall|id: Seq<char>| #[trigger] has_clip(l.clips, id) ==> has_clip(clips, id),
        forall|i: int|
            0 <= i < links.len() ==> has_clip(clips, (#[trigger] links[i]).owner)
                || l.clip_tags.contains(links[i]),
    ensures
        clip_owners(clips, links),
        l.candidates_alive() ==> (LibraryModel { clips, ..l }).candidates_alive(),
{
    assert forall|i: int| 0 <= i < links.len() implies has_clip(
        clips,
        (#[trigger] links[i]).owner,
    ) by {
        if l.clip_tags.contains(links[i]) {
            let k = choose|k: int| 0 <= k < l.clip_tags.len() && l.clip_tags[k] == links[i];
            assert(has_clip(l.clips, l.clip_tags[k].owner));
        }
    }
    if l.candidates_alive() {
        let after = LibraryModel { clips, ..l };
        assert forall|i: int| 0 <= i < after.candidates.len() implies is_alive(
            after,
            #[trigger] after.candidates[i],
        ) by {
            assert(is_alive(l, l.candidates[i]));
        }
    }
}

/// Once a clip was added the tables are in order, no candidate is left whose music or
/// clip is gone, and every tag below another stands in the category of the tag above it,
/// if it was so before.
pub proof fn law_create_clip_keeps_the_library(l: LibraryModel, c: ClipModel, wish: TagWish, now: i64)
    requires
        l.wf(),
        create_clip_result(l, c, wish, now) is Ok,
    ensures
        (create_clip_result(l, c, wish, now)->Ok_0).wf(),
        l.candidates_alive() ==> (create_clip_result(l, c, wish, now)->Ok_0).candidates_alive(),
        aligned(l.catalog.tags) ==> aligned(
            (create_clip_result(l, c, wish, now)->Ok_0).catalog.tags,
        ),
{
    let r = create_clip_result(l, c, wish, now)->Ok_0;
    let s = retagged(l.catalog, l.clip_tags, c.id, wish, true, now);
    lemma_retagged(l.catalog, l.clip_tags, c.id, wish, true, now);
    lemma_links_more_tags(l.catalog.tags, s.catalog.tags, l.music_tags);
    lemma_links_more_tags(l.catalog.tags, s.catalog.tags, l.album_tags);
    let n = l.clips.len() as int;
    assert(r.clips[n] == c);
    assert forall|id: Seq<char>| #[trigger] has_clip(l.clips, id) implies has_clip(r.clips, id) by {
        let i = choose|i: int| 0 <= i < l.clips.len() && #[trigger] l.clips[i].id == id;
        assert(r.clips[i].id == id);
    }
    assert(has_clip(r.clips, c.id)) by {
        assert(r.clips[n].id == c.id);
    }
    lemma_more_clips(l, r.clips, s.links);
    assert forall|i: int, j: int| 0 <= i < j < r.clips.len() implies (#[trigger] r.clips[i]).id != (
    #[trigger] r.clips[j]).id by {
        if j == n {
            assert(l.clips[i].id != c.id);
        } else {
            assert(l.clips[i].id != l.clips[j].id);
        }
    }
    assert forall|i: int| 0 <= i < r.clips.len() implies has_music(
        l.music,
        (#[trigger] r.clips[i]).music_id,
    ) && valid_range(r.clips[i].start, r.clips[i].end) by {
        if i < n {
            assert(has_music(l.music, l.clips[i].music_id));
        }
    }
}

pub proof fn lemma_clips_changed(music: Seq<MusicModel>, clips: Seq<ClipModel>, c: ClipModel)
    requires
        clips_wf(music, clips),
        valid_range(c.start, c.end),
    ensures
        clips_wf(music, clips_changed(clips, c)),
        forall|id: Seq<char>| #[trigger]
            has_clip(clips, id) ==> has_clip(clips_changed(clips, c), id),
{
    let after = clips_changed(clips, c);
    assert forall|id: Seq<char>| #[trigger] has_clip(clips, id) implies has_clip(after, id) by {
        let i = choose|i: int| 0 <= i < clips.len() && #[trigger] clips[i].id == id;
        assert(after[i].id == id);
    }
    assert forall|i: int, j: int| 0 <= i < j < after.len() implies (#[trigger] after[i]).id != (
    #[trigger] after[j]).id by {
        assert(clips[i].id != clips[j].id);
    }
    assert forall|i: int| 0 <= i < after.len() implies has_music(
        music,
        (#[trigger] after[i]).music_id,
    ) && valid_range(after[i].start, after[i].end) by {
        assert(has_music(music, clips[i].music_id));
    }
}

/// Once a clip was changed the tables are in order, no candidate is left whose music or
/// clip is gone, and every tag below another stands in the category of the tag above it,
/// if it was so before.
pub proof fn law_update_clip_keeps_the_library(l: LibraryModel, c: ClipModel, wish: TagWish, now: i64)
    requires
        l.wf(),
        update_clip_result(l, c, wish, now) is Ok,
    ensures
        (update_clip_result(l, c, wish, now)->Ok_0).wf(),
        l.candidates_alive() ==> (update_clip_result(l, c, wish, now)->Ok_0).candidates_alive(),
        aligned(l.catalog.tags) ==> aligned(
            (update_clip_result(l, c, wish, now)->Ok_0).catalog.tags,
        ),
{
    let r = update_clip_result(l, c, wish, now)->Ok_0;
    let known = has_clip(l.clips, c.id);
    let s = retagged(l.catalog, l.clip_tags, c.id, wish, known, now);
    lemma_retagged(l.catalog, l.clip_tags, c.id, wish, known, now);
    lemma_links_more_tags(l.catalog.tags, s.catalog.tags, l.music_tags);
    lemma_links_more_tags(l.catalog.tags, s.catalog.tags, l.album_tags);
    lemma_clips_changed(l.music, l.clips, c);
    lemma_more_clips(l, r.clips, s.links);
}

/// Once a clip is removed, it does not exist, no tag is carried by it, and no candidate
/// is left whose music or clip is gone.
pub proof fn law_clip_leaves_nothing_behind(l: LibraryModel, id: Seq<char>)
    requires
        l.wf(),
    ensures
        clip_deleted(l, id).wf(),
        !has_clip(clip_deleted(l, id).clips, id),
        forall|i: int|
            0 <= i < clip_deleted(l, id).clip_tags.len() ==> (
            #[trigger] clip_deleted(l, id).clip_tags[i]).owner != id,
        l.candidates_alive() ==> clip_deleted(l, id).candidates_alive(),
        forall|other: Seq<char>|
            other != id && has_clip(l.clips, other) ==> has_clip(
                clip_deleted(l, id).clips,
                other,
            ),
{
    let r = clip_deleted(l, id);
    if has_clip(l.clips, id) {
        lemma_links_filter(l.catalog.tags, l.clip_tags, other_owner(id));
        assert forall|other: Seq<char>| other != id && has_clip(l.clips, other) implies has_clip(
            r.clips,
            other,
        ) by {
            let a = choose|a: int| 0 <= a < l.clips.len() && #[trigger] l.clips[a].id == other;
            let i = lemma_filter_has(l.clips, other_clip(id), a);
            assert(r.clips[i].id == other);
        }
        assert forall|i: int, j: int| 0 <= i < j < r.clips.len() implies (#[trigger] r.clips[i]).id
            != (#[trigger] r.clips[j]).id by {
            let (a, b) = lemma_filter_pair(l.clips, other_clip(id), i, j);
            assert(l.clips[a].id != l.clips[b].id);
        }
        assert forall|i: int| 0 <= i < r.clips.len() implies (#[trigger] r.clips[i]).id != id
            && has_music(r.music, r.clips[i].music_id) && valid_range(
            r.clips[i].start,
            r.clips[i].end,
        ) by {
            let a = lemma_filter_at(l.clips, other_clip(id), i);
            assert(has_music(l.music, l.clips[a].music_id));
        }
        assert forall|i: int, j: int| 0 <= i < j < r.candidates.len() implies (
        #[trigger] r.candidates[i]).target_id != (#[trigger] r.candidates[j]).target_id by {
            let (a, b) = lemma_filter_pair(l.candidates, other_clip_picked(id), i, j);
            assert(l.candidates[a].target_id != l.candidates[b].target_id);
        }
        assert forall|i: int| 0 <= i < r.clip_tags.len() implies has_clip(
            r.clips,
            (#[trigger] r.clip_tags[i]).owner,
        ) && r.clip_tags[i].owner != id by {
            let a = lemma_filter_at(l.clip_tags, other_owner(id), i);
            assert(has_clip(l.clips, l.clip_tags[a].owner));
        }
        if l.candidates_alive() {
            assert forall|i: int| 0 <= i < r.candidates.len() implies is_alive(
                r,
                #[trigger] r.candidates[i],
            ) by {
                let a = lemma_filter_at(l.candidates, other_clip_picked(id), i);
                assert(is_alive(l, l.candidates[a]));
            }
        }
    } else {
        assert forall|i: int| 0 <= i < r.clip_tags.len() implies (
        #[trigger] r.clip_tags[i]).owner != id by {
            assert(has_clip(l.clips, l.clip_tags[i].owner));
        }
    }
}

/// A clip that is created and removed leaves every table as it was, but for the tags that
/// were made for it.
pub proof fn law_created_clip_is_undone(l: LibraryModel, c: ClipModel, wish: TagWish, now: i64)
    requires
        l.wf(),
        l.candidates_alive(),
        create_clip_result(l, c, wish, now) is Ok,
    ensures
        ({
            let r = create_clip_result(l, c, wish, now)->Ok_0;
            clip_deleted(r, c.id) == (LibraryModel { catalog: r.catalog, ..l })
        }),
{
    let r = create_clip_result(l, c, wish, now)->Ok_0;
    lemma_retagged(l.catalog, l.clip_tags, c.id, wish, true, now);
    assert(r.clips.last().id == c.id);
    lemma_filter_push(l.clips, c, other_clip(c.id));
    lemma_filter_all(l.clips, other_clip(c.id));
    assert forall|i: int| 0 <= i < l.candidates.len() implies other_clip_picked(c.id)(
        #[trigger] l.candidates[i],
    ) by {
        assert(is_alive(l, l.candidates[i]));
    }
    lemma_filter_all(l.candidates, other_clip_picked(c.id));
    assert forall|i: int| 0 <= i < l.clip_tags.len() implies other_owner(c.id)(
        #[trigger] l.clip_tags[i],
    ) by {
        assert(has_clip(l.clips, l.clip_tags[i].owner));
    }
    lemma_filter_all(l.clip_tags, other_owner(c.id));
}

/// A clip that was created is there as it was handed over, with the tags asked for; every
/// other clip is as it was and carries what it carried.
pub proof fn law_created_clip_is_found(l: LibraryModel, c: ClipModel, wish: TagWish, now: i64)
    requires
        l.wf(),
        create_clip_result(l, c, wish, now) is Ok,
    ensures
        ({
            let r = create_clip_result(l, c, wish, now)->Ok_0;
            &&& has_clip(r.clips, c.id)
            &&& clip_at(r.clips, c.id) == c
            &&& forall|id: Seq<char>| #[trigger]
                has_clip(l.clips, id) ==> has_clip(r.clips, id) && clip_at(r.clips, id) == clip_at(
                    l.clips,
                    id,
                )
            &&& forall|id: i64|
                r.clip_tags.contains(LinkModel { owner: c.id, tag_id: id }) <==> asks_for(
                    r.catalog,
                    wish,
                    id,
                )
            &&& forall|k: LinkModel|
                k.owner != c.id ==> (r.clip_tags.contains(k) <==> l.clip_tags.contains(k))
        }),
{
    let r = create_clip_result(l, c, wish, now)->Ok_0;
    law_create_clip_keeps_the_library(l, c, wish, now);
    law_owner_carries_what_is_asked(l.catalog, l.clip_tags, c.id, wish, now);
    lemma_clip_at(r.music, r.clips, l.clips.len() as int);
    assert forall|id: Seq<char>| #[trigger] has_clip(l.clips, id) implies has_clip(r.clips, id)
        && clip_at(r.clips, id) == clip_at(l.clips, id) by {
        let i = choose|i: int| 0 <= i < l.clips.len() && #[trigger] l.clips[i].id == id;
        lemma_clip_at(l.music, l.clips, i);
        assert(r.clips[i] == l.clips[i]);
        lemma_clip_at(r.music, r.clips, i);
    }
}

/// A clip that was changed has the name and range handed over, stays a part of its music,
/// and carries the tags asked for; every other clip is as it was and carries what it
/// carried.
pub proof fn law_updated_clip_is_found(l: LibraryModel, c: ClipModel, wish: TagWish, now: i64)
    requires
        l.wf(),
        has_clip(l.clips, c.id),
        update_clip_result(l, c, wish, now) is Ok,
    ensures
        ({
            let r = update_clip_result(l, c, wish, now)->Ok_0;
            &&& has_clip(r.clips, c.id)
            &&& clip_at(r.clips, c.id) == (ClipModel {
                music_id: clip_at(l.clips, c.id).music_id,
                created_at: clip_at(l.clips, c.id).created_at,
                ..c
            })
            &&& forall|id: Seq<char>| #[trigger]
                has_clip(l.clips, id) && id != c.id ==> has_clip(r.clips, id) && clip_at(
                    r.clips,
                    id,
                ) == clip_at(l.clips, id)
            &&& forall|id: i64|
                r.clip_tags.contains(LinkModel { owner: c.id, tag_id: id }) <==> asks_for(
                    r.catalog,
                    wish,
                    id,
                )
            &&& forall|k: LinkModel|
                k.owner != c.id ==> (r.clip_tags.contains(k) <==> l.clip_tags.contains(k))
        }),
{
    let r = update_clip_result(l, c, wish, now)->Ok_0;
    law_update_clip_keeps_the_library(l, c, wish, now);
    law_owner_carries_what_is_asked(l.catalog, l.clip_tags, c.id, wish, now);
    assert forall|id: Seq<char>| #[trigger] has_clip(l.clips, id) implies has_clip(r.clips, id)
        && clip_at(r.clips, id) == if id == c.id {
        ClipModel {
            music_id: clip_at(l.clips, c.id).music_id,
            created_at: clip_at(l.clips, c.id).created_at,
            ..c
        }
    } else {
        clip_at(l.clips, id)
    } by {
        let i = choose|i: int| 0 <= i < l.clips.len() && #[trigger] l.clips[i].id == id;
        lemma_clip_at(l.music, l.clips, i);
        assert(r.clips[i].id == id);
        lemma_clip_at(r.music, r.clips, i);
    }
}

impl Library {
    /// Adds a clip, with the tags asked for.
    pub fn create_clip(&mut self, clip: ClipInput, now: i64) -> (r: Result<(), LibraryError>)
        requires
            old(self)@.wf(),
        ensures
            final(self)@.wf(),
            match create_clip_result(old(self)@, clip.clip(), clip.wish(), now) {
                Ok(l) => r is Ok && final(self)@ == l,
                Err(e) => outcome(r) == Err::<(), ErrorModel>(e) && final(self)@ == old(self)@,
            },
    {
        match validate_clip_range(clip.start, clip.end) {
            Err(e) => {
                return Err(e);
            },
            Ok(_) => {},
        }
        if self.clip_index(clip.id.as_str()).is_some() {
            proof {
                assert(has_clip(self@.clips, clip.id@));
            }
            return Err(Failure::Write(Step::InsertClip, Constraint::Unique(Key::ClipId)));
        }
        if self.music_index(clip.music_id.as_str()).is_none() {
            return Err(Failure::Write(Step::InsertClip, Constraint::ForeignKey));
        }
        proof {
            assert(has_music(self@.music, clip.music_id@));
        }
        let mut catalog = self.catalog.clone();
        let mut links = copy_links(&self.clip_tags);
        match retag(
            &mut catalog,
            &mut links,
            clip.id.as_str(),
            &clip.tags,
            &clip.tag_ids,
            &clip.new_tags,
            true,
            now,
        ) {
            Err(e) => {
                return Err(e);
            },
            Ok(_) => {},
        }
        proof {
            law_create_clip_keeps_the_library(self@, clip.clip(), clip.wish(), now);
        }
        let ghost before = self@;
        let row = clip.row();
        self.catalog = catalog;
        self.clip_tags = links;
        self.clips.push(row);
        proof {
            assert(self@.clips =~= before.clips.push(clip.clip()));
        }
        Ok(())
    }

    /// Changes the name, the range and the tags of a clip.
    pub fn update_clip(&mut self, clip: ClipInput, now: i64) -> (r: Result<(), LibraryError>)
        requires
            old(self)@.wf(),
        ensures
            final(self)@.wf(),
            match update_clip_result(old(self)@, clip.clip(), clip.wish(), now) {
                Ok(l) => r is Ok && final(self)@ == l,
                Err(e) => outcome(r) == Err::<(), ErrorModel>(e) && final(self)@ == old(self)@,
            },
    {
        match validate_clip_range(clip.start, clip.end) {
            Err(e) => {
                return Err(e);
            },
            Ok(_) => {},
        }
        let at = self.clip_index(clip.id.as_str());
        let known: bool = at.is_some();
        proof {
            assert(known == has_clip(self@.clips, clip.id@));
        }
        let mut catalog = self.catalog.clone();
        let mut links = copy_links(&self.clip_tags);
        match retag(
            &mut catalog,
            &mut links,
            clip.id.as_str(),
            &clip.tags,
            &clip.tag_ids,
            &clip.new_tags,
            known,
            now,
        ) {
            Err(e) => {
                return Err(e);
            },
            Ok(_) => {},
        }
        proof {
            law_update_clip_keeps_the_library(self@, clip.clip(), clip.wish(), now);
        }
        let ghost before = self@;
        match at {
            Some(i) => {
                let mut row = self.clips[i].clone();
                row.name = clip.name.clone();
                row.start = clip.start;
                row.end = clip.end;
                row.updated_at = clip.updated_at;
                self.clips.set(i, row);
                proof {
                    assert forall|k: int| 0 <= k < before.clips.len() implies models(
                        self.clips@,
                    )[k] == clips_changed(before.clips, clip.clip())[k] by {
                        if k != i {
                            if k < i {
                                assert(before.clips[k].id != before.clips[i as int].id);
                            } else {
                                assert(before.clips[i as int].id != before.clips[k].id);
                            }
                        }
                    }
                    assert(models(self.clips@) =~= clips_changed(before.clips, clip.clip()));
                }
            },
            None => {
                proof {
                    assert(clips_changed(before.clips, clip.clip()) =~= before.clips);
                }
            },
        }
        self.catalog = catalog;
        self.clip_tags = links;
        Ok(())
    }

    /// Removes the clip `id` with all that hangs on it.
    pub fn delete_clip(&mut self, id: &str)
        requires
            old(self)@.wf(),
        ensures
            final(self)@.wf(),
            final(self)@ == clip_deleted(old(self)@, id@),
    {
        proof {
            law_clip_leaves_nothing_behind(self@, id@);
        }
        if self.clip_index(id).is_none() {
            return;
        }
        let keep_candidate = |c: &CandidateRow| -> (b: bool)
            ensures
                b == other_clip_picked(id@)(c@),
            { c.kind == CandidateKind::Music || !same_text(c.target_id.as_str(), id) };
        retain(&mut self.candidates, Ghost(other_clip_picked(id@)), keep_candidate);
        let keep_clip = |c: &ClipRow| -> (b: bool)
            ensures
                b == (c@.id != id@),
            { !same_text(c.id.as_str(), id) };
        retain(&mut self.clips, Ghost(other_clip(id@)), keep_clip);
        drop_owner(&mut self.clip_tags, id);
    }

    /// Removes the clips `ids` with all that hangs on them.
    pub fn delete_clip_batch(&mut self, ids: Vec<String>)
        requires
            old(self)@.wf(),
        ensures
            final(self)@.wf(),
            final(self)@ == clip_batch_deleted(old(self)@, models(ids@)),
    {
        let ghost all = clip_batch_deleted(self@, models(ids@));
        let ghost m = models(ids@);
        let mut i: usize = 0;
        proof {
            assert(m.skip(0) =~= m);
        }
        while i < ids.len()
            invariant
                i <= ids@.len(),
                m == models(ids@),
                self@.wf(),
                all == clip_batch_deleted(old(self)@, m),
                all == clip_batch_deleted(self@, m.skip(i as int)),
            decreases ids@.len() - i,
        {
            proof {
                assert(m.skip(i as int).drop_first() =~= m.skip(i + 1));
                assert(m.skip(i as int)[0] == m[i as int]);
            }
            self.delete_clip(ids[i].as_str());
            i = i + 1;
        }
    }
}

} // verus!

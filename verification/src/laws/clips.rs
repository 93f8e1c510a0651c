//! Laws of clips and candidates.
use vstd::prelude::*;

use crate::candidates::create_candidate_result;
use crate::candidates::is_picked;
use crate::clips::clip_batch_deleted;
use crate::clips::clip_deleted;
use crate::clips::create_clip_result;
use crate::clips::other_clip;
use crate::clips::other_clip_picked;
use crate::clips::update_clip_result;
use crate::failure::Constraint;
use crate::failure::ErrorModel;
use crate::failure::Failure;
use crate::failure::Key;
use crate::failure::Rule;
use crate::failure::Step;
use crate::laws::music::chosen_exist;
use crate::laws::music::identifiers_suffice;
use crate::laws::music::is_asked_for;
use crate::laws::music::law_tags_asked_for_are_carried;
use crate::laws::music::law_tags_asked_for_can_be_given;
use crate::laws::music::lemma_selected;
use crate::library::has_clip;
use crate::library::has_music;
use crate::library::retagged;
use crate::library::CandidateKind;
use crate::library::CandidateModel;
use crate::library::ClipModel;
use crate::library::LibraryModel;
use crate::library::MusicModel;
use crate::library::TagWish;
use crate::links::other_owner;
use crate::links::LinkModel;
use crate::music::music_batch_deleted;
use crate::music::music_deleted;
use crate::seconds::range_result;
use crate::seconds::valid_range;
use crate::seconds::Seconds;

verus! {

/// Whether the bits of a double are those of a number that is not below zero and not infinite:
/// no sign, but for that of zero, and less than infinity.
pub open spec fn counts_from_zero(s: Seconds) -> bool {
    s.bits < 0x7ff0_0000_0000_0000 || s.bits == 0x8000_0000_0000_0000
}

/// The bits by which numbers from zero on are ordered.
pub open spec fn order_bits(s: Seconds) -> u64 {
    if s.bits == 0x8000_0000_0000_0000 {
        0
    } else {
        s.bits
    }
}

/// A clip may reach from a number from zero on to a greater one, and from nowhere else to
/// nowhere else; a bad beginning is said before a bad end.
pub proof fn law_clip_reaches_from_zero_or_later_to_later(start: Seconds, end: Seconds)
    ensures
        range_result(start, end) is Ok <==> counts_from_zero(start) && counts_from_zero(end)
            && order_bits(start) < order_bits(end),
        valid_range(start, end) <==> range_result(start, end) is Ok,
        !counts_from_zero(start) ==> range_result(start, end) == Err::<(), ErrorModel>(
            Failure::Rule(Rule::NegativeClipStart),
        ),
        counts_from_zero(start) && range_result(start, end) is Err ==> range_result(start, end)
            == Err::<(), ErrorModel>(Failure::Rule(Rule::ClipEndsBeforeStart)),
{
}

/// A clip is created where its range is valid, no clip has its identifier, its music exists,
/// the tags chosen exist and there are identifiers for the new ones. It stands behind the
/// others as it was handed over, and carries the tags asked for; all else stays.
pub proof fn law_clip_can_be_created(
    l: LibraryModel,
    c: ClipModel,
    wish: TagWish,
    now: i64,
)
    requires
        l.wf(),
    ensures
        ({
            let r = create_clip_result(l, c, wish, now);
            let range = counts_from_zero(c.start) && counts_from_zero(c.end) && order_bits(c.start)
                < order_bits(c.end);
            let id = exists|i: int| 0 <= i < l.clips.len() && (#[trigger] l.clips[i]).id == c.id;
            let music = exists|i: int|
                0 <= i < l.music.len() && (#[trigger] l.music[i]).id == c.music_id;
            &&& range && !id && music && chosen_exist(l.catalog, wish) && identifiers_suffice(
                l.catalog,
                wish,
            ) ==> r is Ok
            &&& r is Ok ==> range && !id && music && chosen_exist(l.catalog, wish)
            &&& r matches Ok(d) ==> d.clips.len() == l.clips.len() + 1 && d.clips.drop_last()
                == l.clips && d.clips.last() == c && d.music == l.music && d.music_tags
                == l.music_tags && d.album_tags == l.album_tags && d.candidates == l.candidates
            &&& range && id ==> r == Err::<LibraryModel, ErrorModel>(
                Failure::Write(Step::InsertClip, Constraint::Unique(Key::ClipId)),
            )
            &&& range && !id && !music ==> r == Err::<LibraryModel, ErrorModel>(
                Failure::Write(Step::InsertClip, Constraint::ForeignKey),
            )
        }),
{
    law_clip_reaches_from_zero_or_later_to_later(c.start, c.end);
    law_tags_asked_for_can_be_given(l.catalog, l.clip_tags, c.id, wish, now);
    if let Ok(d) = create_clip_result(l, c, wish, now) {
        assert(d.clips.drop_last() =~= l.clips);
    }
}

/// A clip that exists is changed where its range is valid, the tags chosen exist and there are
/// identifiers for the new ones. It has the name, the range and the time of change handed over,
/// and stays what it is else, a part of its music; all other rows stay as they were.
pub proof fn law_clip_can_be_changed(
    l: LibraryModel,
    c: ClipModel,
    wish: TagWish,
    now: i64,
    i: int,
)
    requires
        l.wf(),
        0 <= i < l.clips.len(),
        l.clips[i].id == c.id,
    ensures
        ({
            let r = update_clip_result(l, c, wish, now);
            let range = counts_from_zero(c.start) && counts_from_zero(c.end) && order_bits(c.start)
                < order_bits(c.end);
            &&& range && chosen_exist(l.catalog, wish) && identifiers_suffice(l.catalog, wish)
                ==> r is Ok
            &&& r is Ok ==> range && chosen_exist(l.catalog, wish)
            &&& r matches Ok(d) ==> d.clips == l.clips.update(
                i,
                ClipModel {
                    id: c.id,
                    music_id: l.clips[i].music_id,
                    name: c.name,
                    start: c.start,
                    end: c.end,
                    created_at: l.clips[i].created_at,
                    updated_at: c.updated_at,
                },
            ) && d.music == l.music && d.music_tags == l.music_tags && d.album_tags == l.album_tags
                && d.candidates == l.candidates
        }),
{
    law_clip_reaches_from_zero_or_later_to_later(c.start, c.end);
    law_tags_asked_for_can_be_given(l.catalog, l.clip_tags, c.id, wish, now);
    assert(has_clip(l.clips, c.id));
    if let Ok(d) = update_clip_result(l, c, wish, now) {
        assert forall|j: int| 0 <= j < l.clips.len() && j != i implies (#[trigger] l.clips[j]).id
            != c.id by {
            if j < i {
                assert(l.clips[j].id != l.clips[i].id);
            } else {
                assert(l.clips[i].id != l.clips[j].id);
            }
        }
        assert(d.clips =~= l.clips.update(
            i,
            ClipModel {
                id: c.id,
                music_id: l.clips[i].music_id,
                name: c.name,
                start: c.start,
                end: c.end,
                created_at: l.clips[i].created_at,
                updated_at: c.updated_at,
            },
        ));
    }
}

/// A clip that was created or changed carries the tags asked for, and everyone else carries
/// what they carried.
pub proof fn law_clip_carries_the_tags_asked_for(
    l: LibraryModel,
    c: ClipModel,
    wish: TagWish,
    now: i64,
    k: LinkModel,
)
    requires
        l.wf(),
    ensures
        create_clip_result(l, c, wish, now) matches Ok(d) ==> (d.clip_tags.contains(k) <==> (k.owner
            == c.id && is_asked_for(d.catalog, wish, k.tag_id)) || (k.owner != c.id
            && l.clip_tags.contains(k))),
        (exists|i: int| 0 <= i < l.clips.len() && (#[trigger] l.clips[i]).id == c.id) ==> (
        update_clip_result(l, c, wish, now) matches Ok(d) ==> (d.clip_tags.contains(k) <==> (k.owner
            == c.id && is_asked_for(d.catalog, wish, k.tag_id)) || (k.owner != c.id
            && l.clip_tags.contains(k)))),
{
    if retagged(l.catalog, l.clip_tags, c.id, wish, true, now).error is None {
        law_tags_asked_for_are_carried(l.catalog, l.clip_tags, c.id, wish, now);
    }
}

/// Once a clip is removed, just it is gone, the tags that it carries, and the candidate that
/// it is.
pub proof fn law_removed_clip_takes_its_own_along(l: LibraryModel, id: Seq<char>)
    requires
        l.wf(),
        exists|i: int| 0 <= i < l.clips.len() && (#[trigger] l.clips[i]).id == id,
    ensures
        ({
            let r = clip_deleted(l, id);
            &&& forall|c: ClipModel| r.clips.contains(c) <==> l.clips.contains(c) && c.id != id
            &&& forall|k: LinkModel|
                r.clip_tags.contains(k) <==> l.clip_tags.contains(k) && k.owner != id
            &&& forall|c: CandidateModel|
                r.candidates.contains(c) <==> l.candidates.contains(c) && !(c.kind
                    == CandidateKind::Clip && c.target_id == id)
            &&& r.music == l.music
            &&& r.music_tags == l.music_tags
            &&& r.album_tags == l.album_tags
            &&& r.catalog == l.catalog
        }),
{
    lemma_selected(l.clips, other_clip(id));
    lemma_selected(l.candidates, other_clip_picked(id));
    lemma_selected(l.clip_tags, other_owner(id));
}

/// Several clips that are removed are all gone, and every other stays.
pub proof fn law_removed_clips_are_gone(l: LibraryModel, ids: Seq<Seq<char>>, c: ClipModel)
    requires
        l.wf(),
    ensures
        clip_batch_deleted(l, ids).clips.contains(c) <==> l.clips.contains(c) && !ids.contains(c.id),
        clip_batch_deleted(l, ids).music == l.music,
    decreases ids.len(),
{
    if ids.len() > 0 {
        let rest = ids.drop_first();
        let next = clip_deleted(l, ids[0]);
        crate::clips::law_clip_leaves_nothing_behind(l, ids[0]);
        law_removed_clips_are_gone(next, rest, c);
        if has_clip(l.clips, ids[0]) {
            law_removed_clip_takes_its_own_along(l, ids[0]);
        } else if l.clips.contains(c) {
            let i = choose|i: int| 0 <= i < l.clips.len() && l.clips[i] == c;
            assert(l.clips[i].id == c.id);
            assert(c.id != ids[0]);
        }
        assert(ids.contains(c.id) <==> c.id == ids[0] || rest.contains(c.id)) by {
            if ids.contains(c.id) {
                let i = choose|i: int| 0 <= i < ids.len() && ids[i] == c.id;
                if i > 0 {
                    assert(rest[i - 1] == c.id);
                }
            }
            if rest.contains(c.id) {
                let i = choose|i: int| 0 <= i < rest.len() && rest[i] == c.id;
                assert(ids[i + 1] == c.id);
            }
            assert(ids[0] == ids[0]);
        }
    }
}

/// Several music that are removed are all gone with their clips, and every other stays with
/// its own.
pub proof fn law_removed_music_are_gone(
    l: LibraryModel,
    ids: Seq<Seq<char>>,
    m: MusicModel,
    c: ClipModel,
)
    requires
        l.wf(),
    ensures
        music_batch_deleted(l, ids).music.contains(m) <==> l.music.contains(m) && !ids.contains(
            m.id,
        ),
        music_batch_deleted(l, ids).clips.contains(c) <==> l.clips.contains(c) && !ids.contains(
            c.music_id,
        ),
    decreases ids.len(),
{
    if ids.len() > 0 {
        let rest = ids.drop_first();
        let next = music_deleted(l, ids[0]);
        crate::music::law_music_leaves_nothing_behind(l, ids[0]);
        law_removed_music_are_gone(next, rest, m, c);
        if has_music(l.music, ids[0]) {
            crate::laws::music::law_removed_music_takes_its_own_along(l, ids[0]);
        } else {
            if l.music.contains(m) {
                let i = choose|i: int| 0 <= i < l.music.len() && l.music[i] == m;
                assert(l.music[i].id == m.id);
            }
            if l.clips.contains(c) {
                let i = choose|i: int| 0 <= i < l.clips.len() && l.clips[i] == c;
                assert(has_music(l.music, l.clips[i].music_id));
            }
        }
        assert forall|x: Seq<char>| ids.contains(x) <==> x == ids[0] || rest.contains(x) by {
            if ids.contains(x) {
                let i = choose|i: int| 0 <= i < ids.len() && ids[i] == x;
                if i > 0 {
                    assert(rest[i - 1] == x);
                }
            }
            if rest.contains(x) {
                let i = choose|i: int| 0 <= i < rest.len() && rest[i] == x;
                assert(ids[i + 1] == x);
            }
            assert(ids[0] == ids[0]);
        }
    }
}

/// A music that exists can be picked as `music`, and a clip as `clip`; nothing else can. It is
/// a candidate then, behind the others, or stays where it was one.
pub proof fn law_what_exists_can_be_picked(
    l: LibraryModel,
    target: Seq<char>,
    kind: Seq<char>,
    created_at: i64,
)
    ensures
        ({
            let r = create_candidate_result(l, target, kind, created_at);
            let music = kind == "music"@ && exists|i: int|
                0 <= i < l.music.len() && (#[trigger] l.music[i]).id == target;
            let clip = kind == "clip"@ && exists|i: int|
                0 <= i < l.clips.len() && (#[trigger] l.clips[i]).id == target;
            let there = exists|i: int|
                0 <= i < l.candidates.len() && (#[trigger] l.candidates[i]).target_id == target;
            &&& r is Ok <==> music || clip
            &&& r matches Ok(d) ==> d.music == l.music && d.clips == l.clips && d.catalog
                == l.catalog && d.music_tags == l.music_tags && d.clip_tags == l.clip_tags
                && d.album_tags == l.album_tags
            &&& r is Ok && there ==> r->Ok_0.candidates == l.candidates
            &&& r is Ok && !there ==> r->Ok_0.candidates.len() == l.candidates.len() + 1
                && r->Ok_0.candidates.drop_last() == l.candidates
                && r->Ok_0.candidates.last().target_id == target
                && r->Ok_0.candidates.last().created_at == created_at
                && r->Ok_0.candidates.last().kind == if music {
                CandidateKind::Music
            } else {
                CandidateKind::Clip
            }
            &&& kind != "music"@ && kind != "clip"@ ==> r == Err::<LibraryModel, ErrorModel>(
                Failure::Rule(Rule::UnknownCandidateKind),
            )
            &&& (kind == "music"@ || kind == "clip"@) && !music && !clip ==> r == Err::<
                LibraryModel,
                ErrorModel,
            >(Failure::Rule(Rule::NoSuchCandidateTarget))
        }),
{
    reveal_strlit("music");
    reveal_strlit("clip");
    assert("music"@.len() != "clip"@.len());
    if let Ok(d) = create_candidate_result(l, target, kind, created_at) {
        if !is_picked(l.candidates, target) {
            assert(d.candidates.drop_last() =~= l.candidates);
        }
    }
}

} // verus!

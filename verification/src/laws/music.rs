//! Laws of music.
use vstd::prelude::*;

use crate::catalog::models;
use crate::catalog::CatalogModel;
use crate::failure::Constraint;
use crate::failure::ErrorModel;
use crate::failure::Failure;
use crate::failure::Key;
use crate::failure::Rule;
use crate::failure::Step;
use crate::laws::naming::is_named_by;
use crate::laws::naming::law_names_can_be_given;
use crate::laws::naming::law_tags_that_exist_can_be_given;
use crate::library::retagged;
use crate::library::CandidateKind;
use crate::library::CandidateModel;
use crate::library::Clip;
use crate::library::ClipInput;
use crate::library::ClipModel;
use crate::library::ClipRow;
use crate::library::LibraryModel;
use crate::library::Music;
use crate::library::MusicInput;
use crate::library::MusicModel;
use crate::library::MusicRow;
use crate::library::TagWish;
use crate::links::lemma_link_ids;
use crate::links::lemma_links_filter;
use crate::links::link_ids;
use crate::links::links_wf;
use crate::links::other_owner;
use crate::links::LinkModel;
use crate::music::create_music_result;
use crate::music::music_deleted;
use crate::music::update_music_result;
use crate::naming::choice;
use crate::text::is_blank;
use crate::text::trimmed;

verus! {

/// A music is seen as it was handed over: field by field, with the bookmark made for it.
pub proof fn law_music_is_what_was_handed_over(x: MusicInput, b: Option<Seq<u8>>)
    ensures
        x.music(b).id == x.id@,
        x.music(b).name == x.name@,
        x.music(b).file_name == x.file_name@,
        x.music(b).path == x.path@,
        x.music(b).album == x.album@,
        x.music(b).album_source == x.album_source@,
        x.music(b).artist == x.artist@,
        x.music(b).genre == x.genre@,
        x.music(b).year == x.year@,
        x.music(b).channels == x.channels@,
        x.music(b).sample_rate == x.sample_rate,
        x.music(b).bitrate == x.bitrate,
        x.music(b).duration == x.duration,
        x.music(b).file_size == x.file_size,
        x.music(b).mime_type == x.mime_type@,
        x.music(b).cover_art == x.cover_art@,
        x.music(b).created_at == x.created_at,
        x.music(b).updated_at == x.updated_at,
        x.music(b).file_bookmark == b,
        x.wish().tags == models(x.tags@),
        x.wish().new_tags == models(x.new_tags@),
        x.tag_ids is None ==> x.wish().tag_ids is None,
        x.tag_ids matches Some(ids) ==> x.wish().tag_ids == Some(ids@),
{
}

/// A row of music is seen as it is: field by field.
pub proof fn law_music_row_is_what_it_says(x: MusicRow)
    ensures
        x@.id == x.id@,
        x@.name == x.name@,
        x@.file_name == x.file_name@,
        x@.path == x.path@,
        x@.album == x.album@,
        x@.album_source == x.album_source@,
        x@.artist == x.artist@,
        x@.genre == x.genre@,
        x@.year == x.year@,
        x@.channels == x.channels@,
        x@.sample_rate == x.sample_rate,
        x@.bitrate == x.bitrate,
        x@.duration == x.duration,
        x@.file_size == x.file_size,
        x@.mime_type == x.mime_type@,
        x@.cover_art == x.cover_art@,
        x@.created_at == x.created_at,
        x@.updated_at == x.updated_at,
        x.file_bookmark is None ==> x@.file_bookmark is None,
        x.file_bookmark matches Some(b) ==> x@.file_bookmark == Some(b@),
{
}

/// A music is handed out as it is: field by field.
pub proof fn law_music_is_handed_out_as_it_is(x: Music)
    ensures
        x.music().id == x.id@,
        x.music().name == x.name@,
        x.music().file_name == x.file_name@,
        x.music().path == x.path@,
        x.music().album == x.album@,
        x.music().album_source == x.album_source@,
        x.music().artist == x.artist@,
        x.music().genre == x.genre@,
        x.music().year == x.year@,
        x.music().channels == x.channels@,
        x.music().sample_rate == x.sample_rate,
        x.music().bitrate == x.bitrate,
        x.music().duration == x.duration,
        x.music().file_size == x.file_size,
        x.music().mime_type == x.mime_type@,
        x.music().cover_art == x.cover_art@,
        x.music().created_at == x.created_at,
        x.music().updated_at == x.updated_at,
{
}

/// A clip is seen as it was handed over and is, and handed out so: field by field.
pub proof fn law_clip_is_what_was_handed_over(x: ClipInput, r: ClipRow, o: Clip)
    ensures
        x.clip().id == x.id@ && r@.id == r.id@ && o.clip().id == o.id@,
        x.clip().music_id == x.music_id@ && r@.music_id == r.music_id@ && o.clip().music_id
            == o.music_id@,
        x.clip().name == x.name@ && r@.name == r.name@ && o.clip().name == o.name@,
        x.clip().start == x.start && r@.start == r.start && o.clip().start == o.start,
        x.clip().end == x.end && r@.end == r.end && o.clip().end == o.end,
        x.clip().created_at == x.created_at && r@.created_at == r.created_at && o.clip().created_at
            == o.created_at,
        x.clip().updated_at == x.updated_at && r@.updated_at == r.updated_at && o.clip().updated_at
            == o.updated_at,
        x.wish().tags == models(x.tags@),
        x.wish().new_tags == models(x.new_tags@),
        x.tag_ids is None ==> x.wish().tag_ids is None,
        x.tag_ids matches Some(ids) ==> x.wish().tag_ids == Some(ids@),
{
}

/// Whether all tags that are asked for by identifier exist.
pub open spec fn chosen_exist(c: CatalogModel, wish: TagWish) -> bool {
    wish.tag_ids matches Some(ids) ==> forall|k: int|
        0 <= k < ids.len() ==> exists|j: int|
            0 <= j < c.tags.len() && (#[trigger] c.tags[j]).id == #[trigger] ids[k]
}

/// Whether there are identifiers for as many new tags as names are given.
pub open spec fn identifiers_suffice(c: CatalogModel, wish: TagWish) -> bool {
    let n = match wish.tag_ids {
        Some(_) => wish.new_tags.len(),
        None => wish.tags.len(),
    };
    c.tag_seq + n <= i64::MAX && c.category_seq + n <= i64::MAX
}

/// The tags asked for can be given to whoever exists where those chosen exist and there are
/// identifiers for the new ones; where one chosen does not exist they cannot, and that is said.
pub proof fn law_tags_asked_for_can_be_given(
    c: CatalogModel,
    links: Seq<LinkModel>,
    owner: Seq<char>,
    wish: TagWish,
    now: i64,
)
    requires
        c.wf(),
        links_wf(c.tags, links),
    ensures
        chosen_exist(c, wish) && identifiers_suffice(c, wish) ==> retagged(
            c,
            links,
            owner,
            wish,
            true,
            now,
        ).error is None,
        !chosen_exist(c, wish) ==> retagged(c, links, owner, wish, true, now).error == Some::<
            ErrorModel,
        >(Failure::Rule(Rule::ChosenTagMissing)),
{
    let others = links.filter(other_owner(owner));
    lemma_links_filter(c.tags, links, other_owner(owner));
    match wish.tag_ids {
        Some(ids) => {
            law_tags_that_exist_can_be_given(c.tags, others, owner, ids);
            lemma_link_ids(c.tags, others, owner, ids, true);
            lemma_refusal_of_ids(c, others, owner, ids);
            if identifiers_suffice(c, wish) {
                law_names_can_be_given(
                    c,
                    link_ids(c.tags, others, owner, ids, true).0,
                    owner,
                    wish.new_tags,
                    now,
                );
            }
        },
        None => if identifiers_suffice(c, wish) {
            law_names_can_be_given(c, others, owner, wish.tags, now);
        },
    }
}

/// What stands in the way of tags given by identifier is one that does not exist.
proof fn lemma_refusal_of_ids(
    c: CatalogModel,
    links: Seq<LinkModel>,
    owner: Seq<char>,
    ids: Seq<i64>,
)
    ensures
        link_ids(c.tags, links, owner, ids, true).1 matches Some(e) ==> e == Failure::<
            Seq<char>,
        >::Rule(Rule::ChosenTagMissing),
    decreases ids.len(),
{
    if ids.len() > 0 {
        lemma_refusal_of_ids(
            c,
            crate::links::linked(links, owner, ids[0]),
            owner,
            ids.drop_first(),
        );
    }
}

/// The names given: beside the tags that were chosen, if some could be, else on their own.
pub open spec fn names_given(wish: TagWish) -> Seq<Seq<char>> {
    match wish.tag_ids {
        Some(_) => wish.new_tags,
        None => wish.tags,
    }
}

/// Whether a tag is chosen by identifier, or one of the names given stands for it.
pub open spec fn is_asked_for(c: CatalogModel, wish: TagWish, id: i64) -> bool {
    (wish.tag_ids matches Some(ids) && ids.contains(id)) || is_named_by(c, names_given(wish), id)
}

/// Whoever was given tags carries those chosen by identifier and those that the names given
/// with them stand for; or, where none could be chosen, those that the names stand for. Every
/// name that is not blank stands for a tag then, and everyone else carries what they carried.
pub proof fn law_tags_asked_for_are_carried(
    c: CatalogModel,
    links: Seq<LinkModel>,
    owner: Seq<char>,
    wish: TagWish,
    now: i64,
)
    requires
        c.wf(),
        links_wf(c.tags, links),
        retagged(c, links, owner, wish, true, now).error is None,
    ensures
        ({
            let s = retagged(c, links, owner, wish, true, now);
            &&& forall|k: LinkModel| #[trigger]
                s.links.contains(k) <==> (k.owner == owner && is_asked_for(
                    s.catalog,
                    wish,
                    k.tag_id,
                )) || (k.owner != owner && links.contains(k))
            &&& forall|k: int|
                0 <= k < names_given(wish).len() && !is_blank(#[trigger] names_given(wish)[k])
                    ==> choice(s.catalog, trimmed(names_given(wish)[k])) is Some
        }),
{
    let s = retagged(c, links, owner, wish, true, now);
    crate::library::law_owner_carries_what_is_asked(c, links, owner, wish, now);
    let others = links.filter(other_owner(owner));
    lemma_links_filter(c.tags, links, other_owner(owner));
    let names = names_given(wish);
    match wish.tag_ids {
        Some(ids) => {
            lemma_link_ids(c.tags, others, owner, ids, true);
            crate::links::lemma_link_names(
                c,
                link_ids(c.tags, others, owner, ids, true).0,
                owner,
                names,
                true,
                now,
            );
        },
        None => {
            crate::links::lemma_link_names(c, others, owner, names, true, now);
        },
    }
    assert forall|k: LinkModel| #[trigger] s.links.contains(k) <==> (k.owner == owner
        && is_asked_for(s.catalog, wish, k.tag_id)) || (k.owner != owner && links.contains(k)) by {
        assert(is_named_by(s.catalog, names, k.tag_id) <==> crate::links::named_among(
            s.catalog,
            names,
            k.tag_id,
        ));
        assert(k == LinkModel { owner: k.owner, tag_id: k.tag_id });
        assert(k.owner == owner ==> k == LinkModel { owner, tag_id: k.tag_id });
    }
}

/// A music that was created or changed carries the tags asked for, and every other carries
/// what it carried.
pub proof fn law_music_carries_the_tags_asked_for(
    l: LibraryModel,
    m: MusicModel,
    wish: TagWish,
    now: i64,
    k: LinkModel,
)
    requires
        l.wf(),
    ensures
        create_music_result(l, m, wish, now) matches Ok(d) ==> (d.music_tags.contains(k) <==> (k.owner
            == m.id && is_asked_for(d.catalog, wish, k.tag_id)) || (k.owner != m.id
            && l.music_tags.contains(k))),
        (exists|i: int| 0 <= i < l.music.len() && (#[trigger] l.music[i]).id == m.id) ==> (
        update_music_result(l, m, wish, now) matches Ok(d) ==> (d.music_tags.contains(k) <==> (k.owner
            == m.id && is_asked_for(d.catalog, wish, k.tag_id)) || (k.owner != m.id
            && l.music_tags.contains(k)))),
{
    if retagged(l.catalog, l.music_tags, m.id, wish, true, now).error is None {
        law_tags_asked_for_are_carried(l.catalog, l.music_tags, m.id, wish, now);
    }
}

/// A music of whatever size that can be written down is created where no music has its
/// identifier or its path, the tags chosen exist and there are identifiers for the new ones. It
/// stands behind the others, which stay as they were, and so do the other tables. A path or an
/// identifier that is in use, a size that cannot be written down, and a tag that does not exist
/// stand in the way, and it is said which.
pub proof fn law_music_can_be_created(l: LibraryModel, m: MusicModel, wish: TagWish, now: i64)
    requires
        l.wf(),
    ensures
        ({
            let r = create_music_result(l, m, wish, now);
            let path = exists|i: int|
                0 <= i < l.music.len() && (#[trigger] l.music[i]).path == m.path;
            let id = exists|i: int| 0 <= i < l.music.len() && (#[trigger] l.music[i]).id == m.id;
            let size = m.file_size <= 0x7fff_ffff_ffff_ffff;
            &&& size && !path && !id && chosen_exist(l.catalog, wish) && identifiers_suffice(
                l.catalog,
                wish,
            ) ==> r is Ok
            &&& r is Ok ==> size && !path && !id && chosen_exist(l.catalog, wish)
            &&& r matches Ok(d) ==> d.music.len() == l.music.len() + 1 && d.music.drop_last()
                == l.music && d.music.last() == m && d.clips == l.clips && d.clip_tags == l.clip_tags
                && d.album_tags == l.album_tags && d.candidates == l.candidates
            &&& !size ==> r == Err::<LibraryModel, ErrorModel>(
                Failure::Write(Step::InsertMusic, Constraint::OutOfRange),
            )
            &&& size && path ==> r == Err::<LibraryModel, ErrorModel>(
                Failure::Write(Step::InsertMusic, Constraint::Unique(Key::MusicPath)),
            )
            &&& size && !path && id ==> r == Err::<LibraryModel, ErrorModel>(
                Failure::Write(Step::InsertMusic, Constraint::Unique(Key::MusicId)),
            )
            &&& size && !path && !id && !chosen_exist(l.catalog, wish) ==> r == Err::<
                LibraryModel,
                ErrorModel,
            >(Failure::Rule(Rule::ChosenTagMissing))
        }),
{
    law_tags_asked_for_can_be_given(l.catalog, l.music_tags, m.id, wish, now);
    if let Ok(d) = create_music_result(l, m, wish, now) {
        assert(d.music.drop_last() =~= l.music);
    }
}

/// A music that exists is changed, to whatever size that can be written down, where no other
/// has its path, the tags chosen exist and there are identifiers for the new ones. It is then
/// what was handed over, but for the time of its creation; the other music and the other tables
/// stay as they were.
pub proof fn law_music_can_be_changed(
    l: LibraryModel,
    m: MusicModel,
    wish: TagWish,
    now: i64,
    i: int,
)
    requires
        l.wf(),
        0 <= i < l.music.len(),
        l.music[i].id == m.id,
    ensures
        ({
            let r = update_music_result(l, m, wish, now);
            let path = exists|j: int|
                0 <= j < l.music.len() && j != i && (#[trigger] l.music[j]).path == m.path;
            let size = m.file_size <= 0x7fff_ffff_ffff_ffff;
            &&& size && !path && chosen_exist(l.catalog, wish) && identifiers_suffice(
                l.catalog,
                wish,
            ) ==> r is Ok
            &&& r is Ok ==> size && !path && chosen_exist(l.catalog, wish)
            &&& r matches Ok(d) ==> d.music == l.music.update(
                i,
                MusicModel { created_at: l.music[i].created_at, ..m },
            ) && d.clips == l.clips && d.clip_tags == l.clip_tags && d.album_tags == l.album_tags
                && d.candidates == l.candidates
            &&& !size ==> r == Err::<LibraryModel, ErrorModel>(
                Failure::Write(Step::UpdateMusic, Constraint::OutOfRange),
            )
            &&& size && path ==> r == Err::<LibraryModel, ErrorModel>(
                Failure::Write(Step::UpdateMusic, Constraint::Unique(Key::MusicPath)),
            )
        }),
{
    law_tags_asked_for_can_be_given(l.catalog, l.music_tags, m.id, wish, now);
    assert forall|j: int| 0 <= j < l.music.len() && j != i implies (#[trigger] l.music[j]).id
        != m.id by {
        if j < i {
            assert(l.music[j].id != l.music[i].id);
        } else {
            assert(l.music[i].id != l.music[j].id);
        }
    }
    assert(crate::library::has_music(l.music, m.id));
    if let Ok(d) = update_music_result(l, m, wish, now) {
        assert(d.music =~= l.music.update(
            i,
            MusicModel { created_at: l.music[i].created_at, ..m },
        ));
    }
}

/// To change a music that does not exist changes no music; and it is refused where it is to
/// carry a tag.
pub proof fn law_music_that_does_not_exist_is_not_changed(
    l: LibraryModel,
    m: MusicModel,
    wish: TagWish,
    now: i64,
)
    requires
        l.wf(),
        forall|i: int| 0 <= i < l.music.len() ==> (#[trigger] l.music[i]).id != m.id,
    ensures
        update_music_result(l, m, wish, now) matches Ok(d) ==> d.music == l.music && d.clips
            == l.clips && d.candidates == l.candidates && d.music_tags.len() <= l.music_tags.len(),
        wish.tag_ids matches Some(ids) && ids.len() > 0 ==> update_music_result(
            l,
            m,
            wish,
            now,
        ) is Err,
{
    if let Ok(d) = update_music_result(l, m, wish, now) {
        assert(d.music =~= l.music);
        crate::library::lemma_retagged(l.catalog, l.music_tags, m.id, wish, false, now);
        let others = l.music_tags.filter(other_owner(m.id));
        lemma_links_filter(l.catalog.tags, l.music_tags, other_owner(m.id));
        match wish.tag_ids {
            Some(ids) => {
                lemma_link_ids(l.catalog.tags, others, m.id, ids, false);
                let (chosen, error) = link_ids(l.catalog.tags, others, m.id, ids, false);
                crate::links::lemma_link_names(
                    l.catalog,
                    chosen,
                    m.id,
                    wish.new_tags,
                    false,
                    now,
                );
            },
            None => {
                crate::links::lemma_link_names(l.catalog, others, m.id, wish.tags, false, now);
            },
        }
        assert(d.music_tags == others);
        lemma_selection_is_no_longer(l.music_tags, other_owner(m.id));
    }
}

/// A selection is no longer than what it is taken from.
proof fn lemma_selection_is_no_longer<T>(s: Seq<T>, p: spec_fn(T) -> bool)
    ensures
        s.filter(p).len() <= s.len(),
    decreases s.len(),
{
    reveal(Seq::filter);
    if s.len() > 0 {
        lemma_selection_is_no_longer(s.drop_last(), p);
    }
}

/// Once a music is removed, just it is gone, its clips, the tags that it and they carry, and
/// the candidates that it and they are.
pub proof fn law_removed_music_takes_its_own_along(l: LibraryModel, id: Seq<char>)
    requires
        l.wf(),
        exists|i: int| 0 <= i < l.music.len() && (#[trigger] l.music[i]).id == id,
    ensures
        ({
            let r = music_deleted(l, id);
            &&& forall|m: MusicModel| r.music.contains(m) <==> l.music.contains(m) && m.id != id
            &&& forall|c: ClipModel| r.clips.contains(c) <==> l.clips.contains(c) && c.music_id != id
            &&& forall|k: LinkModel|
                r.music_tags.contains(k) <==> l.music_tags.contains(k) && k.owner != id
            &&& forall|k: LinkModel|
                r.clip_tags.contains(k) <==> l.clip_tags.contains(k) && exists|j: int|
                    0 <= j < l.clips.len() && (#[trigger] l.clips[j]).id == k.owner
                        && l.clips[j].music_id != id
            &&& forall|c: CandidateModel|
                r.candidates.contains(c) <==> l.candidates.contains(c) && (c.kind
                    == CandidateKind::Music ==> c.target_id != id) && (c.kind == CandidateKind::Clip
                    ==> forall|j: int|
                    0 <= j < l.clips.len() && (#[trigger] l.clips[j]).id == c.target_id
                        ==> l.clips[j].music_id != id)
            &&& r.album_tags == l.album_tags
            &&& r.catalog == l.catalog
        }),
{
    let r = music_deleted(l, id);
    lemma_links_filter(l.catalog.tags, l.music_tags, other_owner(id));
    lemma_links_filter(
        l.catalog.tags,
        l.clip_tags,
        crate::music::carried_elsewhere(l.clips, id),
    );
    lemma_selected(l.music, crate::music::other_music(id));
    lemma_selected(l.clips, crate::music::clip_elsewhere(id));
    lemma_selected(l.candidates, crate::music::picked_elsewhere(l.clips, id));
    assert forall|x: Seq<char>|
        #![trigger crate::music::is_part(l.clips, x, id)]
        crate::music::is_part(l.clips, x, id) <==> exists|j: int|
            0 <= j < l.clips.len() && (#[trigger] l.clips[j]).id == x && l.clips[j].music_id
                == id by {
        lemma_part(l, x, id);
    }
    assert forall|k: LinkModel| r.clip_tags.contains(k) <==> l.clip_tags.contains(k) && exists|
        j: int,
    |
        0 <= j < l.clips.len() && (#[trigger] l.clips[j]).id == k.owner && l.clips[j].music_id
            != id by {
        lemma_part(l, k.owner, id);
        if l.clip_tags.contains(k) {
            let a = choose|a: int| 0 <= a < l.clip_tags.len() && l.clip_tags[a] == k;
            assert(crate::library::has_clip(l.clips, l.clip_tags[a].owner));
        }
    }
    assert forall|c: CandidateModel|
        r.candidates.contains(c) <==> l.candidates.contains(c) && (c.kind == CandidateKind::Music
            ==> c.target_id != id) && (c.kind == CandidateKind::Clip ==> forall|j: int|
            0 <= j < l.clips.len() && (#[trigger] l.clips[j]).id == c.target_id
                ==> l.clips[j].music_id != id) by {
        lemma_part(l, c.target_id, id);
    }
}

/// A clip is a part of a music where it says so.
proof fn lemma_part(l: LibraryModel, clip: Seq<char>, id: Seq<char>)
    requires
        l.wf(),
    ensures
        crate::music::is_part(l.clips, clip, id) <==> exists|j: int|
            0 <= j < l.clips.len() && (#[trigger] l.clips[j]).id == clip && l.clips[j].music_id
                == id,
        forall|j: int|
            0 <= j < l.clips.len() && (#[trigger] l.clips[j]).id == clip ==> (l.clips[j].music_id
                == id <==> crate::music::is_part(l.clips, clip, id)),
{
    assert forall|j: int| 0 <= j < l.clips.len() && (#[trigger] l.clips[j]).id == clip implies (
    l.clips[j].music_id == id <==> crate::music::is_part(l.clips, clip, id)) by {
        crate::library::lemma_clip_at(l.music, l.clips, j);
    }
    if crate::music::is_part(l.clips, clip, id) {
        let j = choose|j: int| 0 <= j < l.clips.len() && #[trigger] l.clips[j].id == clip;
        assert(l.clips[j].id == clip);
    }
}

/// What is selected is what satisfies the predicate.
pub proof fn lemma_selected<T>(s: Seq<T>, p: spec_fn(T) -> bool)
    ensures
        forall|x: T| #[trigger] s.filter(p).contains(x) <==> s.contains(x) && p(x),
{
    let kept = s.filter(p);
    assert forall|x: T| #[trigger] kept.contains(x) <==> s.contains(x) && p(x) by {
        if kept.contains(x) {
            let i = choose|i: int| 0 <= i < kept.len() && kept[i] == x;
            let a = crate::rows::lemma_filter_at(s, p, i);
            assert(s[a] == x);
        }
        if s.contains(x) && p(x) {
            let a = choose|a: int| 0 <= a < s.len() && s[a] == x;
            let i = crate::rows::lemma_filter_has(s, p, a);
            assert(kept[i] == x);
        }
    }
}

} // verus!

//! Laws of lists: what stands in them, and in which order.
use vstd::prelude::*;

use crate::candidates::entries;
use crate::candidates::kind_name;
use crate::catalog::lemma_tag_at;
use crate::catalog::tag_ids_unique;
use crate::catalog::TagModel;
use crate::catalog::TagRow;
use crate::library::CandidateKind;
use crate::library::CandidateModel;
use crate::library::CandidateRow;
use crate::library::Clip;
use crate::library::ClipModel;
use crate::library::ClipRow;
use crate::library::LibraryModel;
use crate::library::Music;
use crate::library::MusicModel;
use crate::library::MusicRow;
use crate::links::LinkModel;
use crate::listing::all_readable;
use crate::listing::clip_of;
use crate::listing::hands_out_clip;
use crate::listing::hands_out_music;
use crate::listing::lists_all_music;
use crate::listing::lists_clips;
use crate::listing::lists_music;
use crate::listing::lists_tags;
use crate::listing::tag_names;
use crate::listing::ClipByStart;
use crate::lookup::covers;
use crate::lookup::finds_covers;
use crate::lookup::finds_paths;
use crate::lookup::paths;
use crate::lookup::MusicCoverArt;
use crate::lookup::MusicCoverArtModel;
use crate::order::in_order;
use crate::text::nocase;
use crate::text::text_le;

verus! {

/// Tags are listed by name, ASCII case aside, and those of one name by identifier; those that
/// the owner carries, each once, and no other.
pub proof fn law_tags_are_listed_by_name(
    tags: Seq<TagModel>,
    links: Seq<LinkModel>,
    owner: Seq<char>,
    ids: Seq<i64>,
    a: int,
    b: int,
    i: int,
    j: int,
)
    requires
        tag_ids_unique(tags),
        lists_tags(tags, links, owner, ids),
        0 <= i < j < ids.len(),
        0 <= a < tags.len(),
        0 <= b < tags.len(),
        tags[a].id == ids[i],
        tags[b].id == ids[j],
    ensures
        ids[i] != ids[j],
        nocase(tags[a].name) == nocase(tags[b].name) ==> ids[i] < ids[j],
        text_le(nocase(tags[a].name), nocase(tags[b].name)),
        links.contains(LinkModel { owner, tag_id: ids[i] }),
{
    lemma_tag_at(tags, a);
    lemma_tag_at(tags, b);
    assert(ids.contains(ids[i]));
    crate::text::lemma_text_le_total(nocase(tags[a].name), nocase(tags[b].name));
}

/// Names are handed out with tags: that of each, in the order of the tags.
pub proof fn law_names_are_listed_with_tags(tags: Seq<TagModel>, ids: Seq<i64>, a: int, i: int)
    requires
        tag_ids_unique(tags),
        0 <= i < ids.len(),
        0 <= a < tags.len(),
        tags[a].id == ids[i],
    ensures
        tag_names(tags, ids).len() == ids.len(),
        tag_names(tags, ids)[i] == tags[a].name,
{
    lemma_tag_at(tags, a);
}

/// Lists of music and of clips, and those of candidates, begin with the oldest.
pub proof fn law_lists_begin_with_the_oldest(
    music: Seq<MusicModel>,
    clips: Seq<ClipModel>,
    candidates: Seq<CandidateModel>,
)
    ensures
        in_order::<MusicRow>(music) <==> forall|i: int, j: int|
            0 <= i < j < music.len() ==> (#[trigger] music[i]).created_at <= (
            #[trigger] music[j]).created_at,
        in_order::<ClipRow>(clips) <==> forall|i: int, j: int|
            0 <= i < j < clips.len() ==> (#[trigger] clips[i]).created_at <= (
            #[trigger] clips[j]).created_at,
        in_order::<CandidateRow>(candidates) <==> forall|i: int, j: int|
            0 <= i < j < candidates.len() ==> (#[trigger] candidates[i]).created_at <= (
            #[trigger] candidates[j]).created_at,
{
}

/// Clips of one music are listed by where they start, and those that start at one point by
/// age.
pub proof fn law_clips_of_a_music_are_listed_by_start(clips: Seq<ClipModel>)
    ensures
        in_order::<ClipByStart>(clips) <==> forall|i: int, j: int|
            0 <= i < j < clips.len() ==> (#[trigger] clips[i]).start.rank() <= (
            #[trigger] clips[j]).start.rank() && (clips[i].start.rank() == clips[j].start.rank()
                ==> clips[i].created_at <= clips[j].created_at),
{
    if in_order::<ClipByStart>(clips) {
        assert forall|i: int, j: int| 0 <= i < j < clips.len() implies (
        #[trigger] clips[i]).start.rank() <= (#[trigger] clips[j]).start.rank() && (
        clips[i].start.rank() == clips[j].start.rank() ==> clips[i].created_at
            <= clips[j].created_at) by {
            assert(<ClipByStart as crate::order::Ordered>::le(clips[i], clips[j]));
        }
    }
}

/// The clips of a music are those that are cut out of it.
pub proof fn law_clips_of_a_music(clips: Seq<ClipModel>, music_id: Seq<char>, c: ClipModel)
    ensures
        clips.filter(clip_of(music_id)).contains(c) <==> clips.contains(c) && c.music_id
            == music_id,
{
    let p = clip_of(music_id);
    let kept = clips.filter(p);
    if kept.contains(c) {
        let i = choose|i: int| 0 <= i < kept.len() && kept[i] == c;
        let a = crate::rows::lemma_filter_at(clips, p, i);
        assert(clips[a] == c);
    }
    if clips.contains(c) && c.music_id == music_id {
        let a = choose|a: int| 0 <= a < clips.len() && clips[a] == c;
        let i = crate::rows::lemma_filter_has(clips, p, a);
        assert(kept[i] == c);
    }
}

/// Where all music are listed, every music stands in the list, as it is but without its cover
/// and its bookmark, and nothing else does; the oldest first.
pub proof fn law_all_music_are_listed(l: LibraryModel, r: Seq<Music>)
    requires
        lists_all_music(l, r),
    ensures
        r.len() == l.music.len(),
        forall|i: int|
            0 <= i < r.len() ==> exists|k: int|
                0 <= k < l.music.len() && (#[trigger] r[i]).music() == (MusicModel {
                    cover_art: Seq::empty(),
                    file_bookmark: None,
                    ..#[trigger] l.music[k]
                }),
        forall|k: int|
            0 <= k < l.music.len() ==> exists|i: int|
                0 <= i < r.len() && (#[trigger] r[i]).music() == (MusicModel {
                    cover_art: Seq::empty(),
                    file_bookmark: None,
                    ..#[trigger] l.music[k]
                }),
        forall|i: int, j: int|
            0 <= i < j < r.len() ==> (#[trigger] r[i]).music().created_at <= (
            #[trigger] r[j]).music().created_at,
{
    broadcast use vstd::seq_lib::group_to_multiset_ensures;

    let s = choose|s: Seq<MusicModel>|
        in_order::<MusicRow>(s) && s.to_multiset() == l.music.to_multiset()
            && #[trigger] lists_music(l, s, r);
    assert(s.len() == s.to_multiset().len() && l.music.len() == l.music.to_multiset().len());
    assert forall|i: int| 0 <= i < r.len() implies exists|k: int|
        0 <= k < l.music.len() && (#[trigger] r[i]).music() == (MusicModel {
            cover_art: Seq::empty(),
            file_bookmark: None,
            ..#[trigger] l.music[k]
        }) by {
        assert(s.contains(s[i]));
        assert(s.to_multiset().count(s[i]) > 0);
        assert(l.music.contains(s[i]));
        let k = choose|k: int| 0 <= k < l.music.len() && l.music[k] == s[i];
        assert(l.music[k] == s[i]);
    }
    assert forall|k: int| 0 <= k < l.music.len() implies exists|i: int|
        0 <= i < r.len() && (#[trigger] r[i]).music() == (MusicModel {
            cover_art: Seq::empty(),
            file_bookmark: None,
            ..#[trigger] l.music[k]
        }) by {
        assert(l.music.contains(l.music[k]));
        assert(l.music.to_multiset().count(l.music[k]) > 0);
        assert(s.contains(l.music[k]));
        let i = choose|i: int| 0 <= i < s.len() && s[i] == l.music[k];
        assert(r[i].music() == crate::listing::music_entry(s[i]));
    }
    assert forall|i: int, j: int| 0 <= i < j < r.len() implies (
    #[trigger] r[i]).music().created_at <= (#[trigger] r[j]).music().created_at by {
        assert(<MusicRow as crate::order::Ordered>::le(s[i], s[j]));
    }
}

/// A candidate is handed out under its target, as music or as a clip.
pub proof fn law_candidates_are_handed_out(c: Seq<CandidateModel>, i: int)
    requires
        0 <= i < c.len(),
    ensures
        entries(c).len() == c.len(),
        entries(c)[i].target_id == c[i].target_id,
        c[i].kind == CandidateKind::Music ==> entries(c)[i].kind == "music"@,
        c[i].kind == CandidateKind::Clip ==> entries(c)[i].kind == "clip"@,
        kind_name(CandidateKind::Music) == "music"@,
        kind_name(CandidateKind::Clip) == "clip"@,
{
}

/// Covers that can be looked up at once are listed by identifier.
pub proof fn law_covers_are_listed_by_identifier(
    music: Seq<MusicModel>,
    wanted: Seq<Seq<char>>,
    r: Seq<MusicCoverArtModel>,
    i: int,
    j: int,
)
    requires
        finds_covers(music, wanted, r),
        wanted.len() <= 900,
        0 <= i < j < r.len(),
    ensures
        text_le(r[i].id, r[j].id),
{
    reveal_with_fuel(finds_covers, 2);
    let n = covers(
        music.filter(crate::lookup::has_id_among(wanted.take(wanted.len() as int))),
    ).len() as int;
    if wanted.len() > 0 {
        assert(r.skip(n).len() == 0);
        let t = r.take(n);
        assert(t[i] == r[i] && t[j] == r[j]);
        assert(<MusicCoverArt as crate::order::Ordered>::le(t[i], t[j]));
    }
}

/// Paths that can be looked up at once are listed in order.
pub proof fn law_paths_are_listed_in_order(
    music: Seq<MusicModel>,
    wanted: Seq<Seq<char>>,
    r: Seq<Seq<char>>,
    i: int,
    j: int,
)
    requires
        finds_paths(music, wanted, r),
        wanted.len() <= 900,
        0 <= i < j < r.len(),
    ensures
        text_le(r[i], r[j]),
{
    reveal_with_fuel(finds_paths, 2);
    let n = paths(
        music.filter(crate::lookup::has_path_among(wanted.take(wanted.len() as int))),
    ).len() as int;
    if wanted.len() > 0 {
        assert(r.skip(n).len() == 0);
        let t = r.take(n);
        assert(t[i] == r[i] && t[j] == r[j]);
        assert(<String as crate::order::Ordered>::le(t[i], t[j]));
    }
}

/// Tags are put in order by name, ASCII case aside, and those of one name by identifier.
pub proof fn law_tags_are_ordered_by_name(tags: Seq<TagModel>, i: int, j: int)
    requires
        in_order::<TagRow>(tags),
        0 <= i < j < tags.len(),
    ensures
        text_le(nocase(tags[i].name), nocase(tags[j].name)),
        nocase(tags[i].name) == nocase(tags[j].name) ==> tags[i].id <= tags[j].id,
{
    assert(<TagRow as crate::order::Ordered>::le(tags[i], tags[j]));
    crate::text::lemma_text_le_total(nocase(tags[i].name), nocase(tags[j].name));
}

/// A music is handed out with the tags that it carries, by identifier and by name.
pub proof fn law_music_is_handed_out_with_its_tags(
    l: LibraryModel,
    m: Music,
    model: MusicModel,
    id: i64,
    a: int,
    i: int,
)
    requires
        l.wf(),
        hands_out_music(l, m, model),
    ensures
        m.music() == model,
        m.tag_ids@.contains(id) <==> l.music_tags.contains(
            LinkModel { owner: model.id, tag_id: id },
        ),
        m.tags@.len() == m.tag_ids@.len(),
        0 <= i < m.tags@.len() && 0 <= a < l.catalog.tags.len() && l.catalog.tags[a].id
            == m.tag_ids@[i] ==> m.tags@[i]@ == l.catalog.tags[a].name,
{
    assert(crate::catalog::models(m.tags@).len() == m.tags@.len());
    if 0 <= i < m.tags@.len() && 0 <= a < l.catalog.tags.len() && l.catalog.tags[a].id
        == m.tag_ids@[i] {
        law_names_are_listed_with_tags(l.catalog.tags, m.tag_ids@, a, i);
        assert(crate::catalog::models(m.tags@)[i] == m.tags@[i]@);
    }
}

/// A clip is handed out with the tags that it carries, by identifier and by name.
pub proof fn law_clip_is_handed_out_with_its_tags(
    l: LibraryModel,
    c: Clip,
    model: ClipModel,
    id: i64,
    a: int,
    i: int,
)
    requires
        l.wf(),
        hands_out_clip(l, c, model),
    ensures
        c.clip() == model,
        c.tag_ids@.contains(id) <==> l.clip_tags.contains(
            LinkModel { owner: model.id, tag_id: id },
        ),
        c.tags@.len() == c.tag_ids@.len(),
        0 <= i < c.tags@.len() && 0 <= a < l.catalog.tags.len() && l.catalog.tags[a].id
            == c.tag_ids@[i] ==> c.tags@[i]@ == l.catalog.tags[a].name,
{
    assert(crate::catalog::models(c.tags@).len() == c.tags@.len());
    if 0 <= i < c.tags@.len() && 0 <= a < l.catalog.tags.len() && l.catalog.tags[a].id
        == c.tag_ids@[i] {
        law_names_are_listed_with_tags(l.catalog.tags, c.tag_ids@, a, i);
        assert(crate::catalog::models(c.tags@)[i] == c.tags@[i]@);
    }
}

/// Clips are listed as they are, in the order given.
pub proof fn law_clips_are_listed_as_they_are(
    l: LibraryModel,
    s: Seq<ClipModel>,
    r: Seq<Clip>,
    i: int,
)
    requires
        lists_clips(l, s, r),
    ensures
        r.len() == s.len(),
        0 <= i < r.len() ==> r[i].clip() == s[i],
{
    if 0 <= i < r.len() {
        assert(hands_out_clip(l, r[i], s[i]));
    }
}

/// All music can be listed where the duration of each is a number, infinite or not.
pub proof fn law_music_can_be_listed(music: Seq<MusicModel>)
    ensures
        all_readable(music) <==> forall|i: int|
            0 <= i < music.len() ==> ((#[trigger] music[i]).duration.bits as int
                / 0x10_0000_0000_0000) % 2048 != 2047 || music[i].duration.bits as int
                % 0x10_0000_0000_0000 == 0,
{
    assert forall|i: int| 0 <= i < music.len() implies ((#[trigger] music[i]).duration.numeric()
        <==> (music[i].duration.bits as int / 0x10_0000_0000_0000) % 2048 != 2047
        || music[i].duration.bits as int % 0x10_0000_0000_0000 == 0) by {
        crate::laws::seconds::law_bits_of_a_number(music[i].duration);
    }
}

/// The cover of a music goes with its identifier, and its path is its path.
pub proof fn law_covers_and_paths_are_those_of_music(music: Seq<MusicModel>, i: int)
    requires
        0 <= i < music.len(),
    ensures
        covers(music).len() == music.len(),
        covers(music)[i].id == music[i].id,
        covers(music)[i].cover_art == music[i].cover_art,
        paths(music).len() == music.len(),
        paths(music)[i] == music[i].path,
{
}

/// What is asked for in a longer list is looked up by nine hundred at a time.
pub proof fn law_covers_are_looked_up_in_turn(
    music: Seq<MusicModel>,
    wanted: Seq<Seq<char>>,
    r: Seq<MusicCoverArtModel>,
)
    requires
        finds_covers(music, wanted, r),
        wanted.len() > 900,
    ensures
        exists|n: int|
            0 <= n <= r.len() && finds_covers(music, wanted.take(900), #[trigger] r.take(n))
                && finds_covers(music, wanted.skip(900), r.skip(n)),
{
    reveal_with_fuel(finds_covers, 2);
    let first = wanted.take(900);
    let n = covers(music.filter(crate::lookup::has_id_among(first))).len() as int;
    assert(first.take(900) =~= first);
    let t = r.take(n);
    assert(t.take(n) =~= t);
    assert(first.skip(900).len() == 0);
    assert(t.skip(n).len() == 0);
    assert(finds_covers(music, first, t));
}

/// What is asked for in a longer list is looked up by nine hundred at a time.
pub proof fn law_paths_are_looked_up_in_turn(
    music: Seq<MusicModel>,
    wanted: Seq<Seq<char>>,
    r: Seq<Seq<char>>,
)
    requires
        finds_paths(music, wanted, r),
        wanted.len() > 900,
    ensures
        exists|n: int|
            0 <= n <= r.len() && finds_paths(music, wanted.take(900), #[trigger] r.take(n))
                && finds_paths(music, wanted.skip(900), r.skip(n)),
{
    reveal_with_fuel(finds_paths, 2);
    let first = wanted.take(900);
    let n = paths(music.filter(crate::lookup::has_path_among(first))).len() as int;
    assert(first.take(900) =~= first);
    let t = r.take(n);
    assert(t.take(n) =~= t);
    assert(first.skip(900).len() == 0);
    assert(t.skip(n).len() == 0);
    assert(finds_paths(music, first, t));
}

} // verus!

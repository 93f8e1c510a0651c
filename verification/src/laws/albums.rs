//! Laws of the tags that albums carry.
use vstd::prelude::*;

use crate::albums::album_tags_set;
use crate::albums::lists_owners;
use crate::albums::AlbumTagEntry;
use crate::catalog::TagModel;
use crate::failure::ErrorModel;
use crate::failure::Failure;
use crate::failure::Rule;
use crate::laws::music::is_asked_for;
use crate::laws::music::law_tags_asked_for_are_carried;
use crate::laws::music::law_tags_asked_for_can_be_given;
use crate::library::retagged;
use crate::library::LibraryModel;
use crate::library::TagWish;
use crate::links::LinkModel;
use crate::text::is_blank;
use crate::text::trimmed;

verus! {

/// What is asked for an album: tags that exist, and names.
pub open spec fn album_wish(ids: Seq<i64>, names: Seq<Seq<char>>) -> TagWish {
    TagWish { tags: Seq::empty(), tag_ids: Some(ids), new_tags: names }
}

/// An album that was given tags carries, under its name without white space at its ends, those
/// chosen by identifier and those that the names stand for, and no other. Every other album
/// carries what it carried, and nothing else changes but that there may be new tags.
pub proof fn law_album_carries_the_tags_asked_for(
    l: LibraryModel,
    album: Seq<char>,
    ids: Seq<i64>,
    names: Seq<Seq<char>>,
    now: i64,
)
    requires
        l.wf(),
        album_tags_set(l, album, ids, names, now).1 is None,
    ensures
        ({
            let r = album_tags_set(l, album, ids, names, now).0;
            &&& forall|k: LinkModel| #[trigger]
                r.album_tags.contains(k) <==> (k.owner == trimmed(album) && is_asked_for(
                    r.catalog,
                    album_wish(ids, names),
                    k.tag_id,
                )) || (k.owner != trimmed(album) && l.album_tags.contains(k))
            &&& r.music == l.music
            &&& r.clips == l.clips
            &&& r.candidates == l.candidates
            &&& r.music_tags == l.music_tags
            &&& r.clip_tags == l.clip_tags
        }),
{
    let wish = album_wish(ids, names);
    let name = trimmed(album);
    assert(retagged(l.catalog, l.album_tags, name, wish, true, now)
        == crate::links::sync_tag_ids_result(l.catalog, l.album_tags, name, ids, names, true, now));
    law_tags_asked_for_are_carried(l.catalog, l.album_tags, name, wish, now);
}

/// An album can be given tags where it has a name and the tags exist, as long as there are
/// identifiers for as many new tags as there are names. Without a name it cannot, and nothing
/// changes; nor where a tag does not exist.
pub proof fn law_album_can_be_given_tags(
    l: LibraryModel,
    album: Seq<char>,
    ids: Seq<i64>,
    names: Seq<Seq<char>>,
    now: i64,
)
    requires
        l.wf(),
    ensures
        ({
            let (r, e) = album_tags_set(l, album, ids, names, now);
            let exist = forall|k: int|
                0 <= k < ids.len() ==> exists|j: int|
                    0 <= j < l.catalog.tags.len() && (#[trigger] l.catalog.tags[j]).id
                        == #[trigger] ids[k];
            let suffice = l.catalog.tag_seq + names.len() <= i64::MAX && l.catalog.category_seq
                + names.len() <= i64::MAX;
            &&& is_blank(album) ==> r == l && e == Some::<ErrorModel>(
                Failure::Rule(Rule::EmptyAlbumName),
            )
            &&& !is_blank(album) && exist && suffice ==> e is None
            &&& !is_blank(album) && !exist ==> e == Some::<ErrorModel>(
                Failure::Rule(Rule::ChosenTagMissing),
            )
        }),
{
    if !is_blank(album) {
        let wish = album_wish(ids, names);
        let name = trimmed(album);
        assert(retagged(l.catalog, l.album_tags, name, wish, true, now)
            == crate::links::sync_tag_ids_result(
            l.catalog,
            l.album_tags,
            name,
            ids,
            names,
            true,
            now,
        ));
        law_tags_asked_for_can_be_given(l.catalog, l.album_tags, name, wish, now);
    }
}

/// Where albums are listed, an album stands with a tag exactly where it carries the tag, and
/// stands there once.
pub proof fn law_albums_are_listed_with_their_tags(
    tags: Seq<TagModel>,
    links: Seq<LinkModel>,
    r: Seq<AlbumTagEntry>,
    album: Seq<char>,
    id: i64,
)
    requires
        lists_owners(tags, links, r),
    ensures
        links.contains(LinkModel { owner: album, tag_id: id }) <==> exists|i: int|
            0 <= i < r.len() && (#[trigger] r[i]).album@ == album && r[i].tag_ids@.contains(id),
        forall|i: int, j: int|
            0 <= i < j < r.len() ==> (#[trigger] r[i]).album@ != (#[trigger] r[j]).album@,
{
    let k = LinkModel { owner: album, tag_id: id };
    if links.contains(k) {
        let x = choose|x: int| 0 <= x < links.len() && links[x] == k;
        assert(links[x].owner == album);
        assert(crate::albums::carries_some(links, album));
        let i = choose|i: int| 0 <= i < r.len() && (#[trigger] r[i]).album@ == album;
        assert(r[i].tag_ids@.contains(id));
    }
    if exists|i: int|
        0 <= i < r.len() && (#[trigger] r[i]).album@ == album && r[i].tag_ids@.contains(id) {
        let i = choose|i: int|
            0 <= i < r.len() && (#[trigger] r[i]).album@ == album && r[i].tag_ids@.contains(id);
        assert(links.contains(LinkModel { owner: r[i].album@, tag_id: id }));
    }
}

} // verus!

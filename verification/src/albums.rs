//! The tags of albums. An album is nothing but its name.
use vstd::prelude::*;

use crate::catalog::aligned;
use crate::catalog::has_tag;
use crate::catalog::models;
use crate::catalog::Catalog;
use crate::catalog::TagModel;
use crate::failure::ErrorModel;
use crate::failure::Failure;
use crate::failure::LibraryError;
use crate::failure::Rule;
use crate::library::is_alive;
use crate::library::lemma_links_more_tags;
use crate::library::lemma_retagged;
use crate::library::Library;
use crate::library::LibraryModel;
use crate::library::TagWish;
use crate::links::drop_owner;
use crate::links::is_linked;
use crate::links::lemma_links_filter;
use crate::links::links_wf;
use crate::links::other_owner;
use crate::links::sync_tag_ids;
use crate::links::sync_tag_ids_result;
use crate::links::LinkModel;
use crate::links::LinkRow;
use crate::listing::lists_tags;
use crate::order::sort;
use crate::order::Ordered;
use crate::rows::lemma_filter_take;
use crate::text::is_blank;
use crate::text::lemma_text_le_total;
use crate::text::lemma_text_le_transitive;
use crate::text::not_after;
use crate::text::same_text;
use crate::text::text_le;
use crate::text::trim;
use crate::text::trimmed;

verus! {

/// An album with the tags that it carries.
pub struct AlbumTagEntry {
    pub album: String,
    pub tag_ids: Vec<i64>,
}

/// Whether something carries a tag under the name `owner`.
pub open spec fn carries_some(links: Seq<LinkModel>, owner: Seq<char>) -> bool {
    exists|i: int| 0 <= i < links.len() && #[trigger] links[i].owner == owner
}

/// Whether `r` has for everyone who carries a tag one entry, and no other, with the tags
/// that they carry.
pub open spec fn lists_owners(
    tags: Seq<TagModel>,
    links: Seq<LinkModel>,
    r: Seq<AlbumTagEntry>,
) -> bool {
    &&& forall|i: int, j: int|
        0 <= i < j < r.len() ==> (#[trigger] r[i]).album@ != (#[trigger] r[j]).album@
    &&& forall|owner: Seq<char>| #[trigger]
        carries_some(links, owner) <==> exists|i: int|
            0 <= i < r.len() && (#[trigger] r[i]).album@ == owner
    &&& forall|i: int|
        0 <= i < r.len() ==> lists_tags(tags, links, (#[trigger] r[i]).album@, r[i].tag_ids@)
}

impl Ordered for String {
    open spec fn le(a: Seq<char>, b: Seq<char>) -> bool {
        text_le(a, b)
    }

    proof fn le_total(a: Seq<char>, b: Seq<char>) {
        lemma_text_le_total(a, b);
    }

    proof fn le_transitive(a: Seq<char>, b: Seq<char>, c: Seq<char>) {
        lemma_text_le_transitive(a, b, c);
    }

    fn at_most(&self, other: &Self) -> (r: bool) {
        not_after(self.as_str(), other.as_str())
    }
}

/// The owners of links, each once.
fn owners(links: &Vec<LinkRow>) -> (r: Vec<String>)
    ensures
        models(r@).no_duplicates(),
        forall|owner: Seq<char>| #[trigger]
            models(r@).contains(owner) <==> carries_some(models(links@), owner),
{
    let ghost m = models(links@);
    let mut r: Vec<String> = Vec::new();
    let mut i: usize = 0;
    while i < links.len()
        invariant
            i <= links@.len(),
            m == models(links@),
            models(r@).no_duplicates(),
            forall|k: int| 0 <= k < r@.len() ==> carries_some(m, #[trigger] models(r@)[k]),
            forall|k: int| 0 <= k < i ==> models(r@).contains((#[trigger] m[k]).owner),
        decreases links@.len() - i,
    {
        let ghost before = models(r@);
        let mut seen: bool = false;
        let mut j: usize = 0;
        while j < r.len()
            invariant
                i < links@.len(),
                m == models(links@),
                j <= r@.len(),
                models(r@) == before,
                seen ==> before.contains(m[i as int].owner),
                !seen ==> forall|k: int| 0 <= k < j ==> #[trigger] before[k] != m[i as int].owner,
            decreases r@.len() - j,
        {
            if same_text(r[j].as_str(), links[i].owner.as_str()) {
                proof {
                    assert(before[j as int] == m[i as int].owner);
                }
                seen = true;
            }
            j = j + 1;
        }
        if !seen {
            r.push(links[i].owner.clone());
            proof {
                let x = m[i as int].owner;
                assert(models(r@) =~= before.push(x));
                assert(carries_some(m, x));
                assert(models(r@)[before.len() as int] == x);
                assert forall|k: int| 0 <= k < i implies models(r@).contains(
                    (#[trigger] m[k]).owner,
                ) by {
                    let a = choose|a: int| 0 <= a < before.len() && before[a] == m[k].owner;
                    assert(models(r@)[a] == m[k].owner);
                }
            }
        }
        i = i + 1;
    }
    proof {
        assert forall|owner: Seq<char>| #[trigger]
            models(r@).contains(owner) <==> carries_some(m, owner) by {
            if models(r@).contains(owner) {
                let k = choose|k: int| 0 <= k < r@.len() && models(r@)[k] == owner;
            }
            if carries_some(m, owner) {
                let k = choose|k: int| 0 <= k < m.len() && #[trigger] m[k].owner == owner;
                assert(models(r@).contains(m[k].owner));
            }
        }
    }
    r
}

impl Catalog {
    /// Everyone who carries a tag by `links`, in order, with the tags that they carry.
    pub fn load_all_tag_ids(&self, links: &Vec<LinkRow>) -> (r: Vec<AlbumTagEntry>)
        requires
            self@.wf(),
            links_wf(self@.tags, models(links@)),
        ensures
            lists_owners(self@.tags, models(links@), r@),
            forall|i: int, j: int|
                0 <= i < j < r@.len() ==> text_le((#[trigger] r@[i]).album@, (#[trigger] r@[j]).album@),
    {
        let ghost m = models(links@);
        let unsorted = owners(links);
        let names = sort(unsorted);
        let ghost o = models(names@);
        proof {
            broadcast use vstd::seq_lib::group_to_multiset_ensures;

            models(unsorted@).lemma_multiset_has_no_duplicates();
            o.lemma_multiset_has_no_duplicates_conv();
            assert forall|owner: Seq<char>| #[trigger] o.contains(owner) <==> carries_some(
                m,
                owner,
            ) by {
                assert(o.contains(owner) <==> o.to_multiset().count(owner) > 0);
                assert(models(unsorted@).contains(owner) <==> models(unsorted@).to_multiset().count(
                    owner,
                ) > 0);
            }
        }
        let mut r: Vec<AlbumTagEntry> = Vec::new();
        let mut i: usize = 0;
        while i < names.len()
            invariant
                i <= names@.len(),
                r@.len() == i,
                o == models(names@),
                m == models(links@),
                self@.wf(),
                links_wf(self@.tags, m),
                forall|j: int| 0 <= j < i ==> (#[trigger] r@[j]).album@ == o[j],
                forall|j: int|
                    0 <= j < i ==> lists_tags(self@.tags, m, (#[trigger] r@[j]).album@, r@[j].tag_ids@),
            decreases names@.len() - i,
        {
            let album = names[i].clone();
            let tag_ids = self.load_tag_ids(links, album.as_str());
            r.push(AlbumTagEntry { album, tag_ids });
            i = i + 1;
        }
        proof {
            assert forall|owner: Seq<char>| #[trigger] carries_some(m, owner) <==> exists|i: int|
                0 <= i < r@.len() && (#[trigger] r@[i]).album@ == owner by {
                assert(o.contains(owner) <==> carries_some(m, owner));
                if o.contains(owner) {
                    let k = choose|k: int| 0 <= k < o.len() && o[k] == owner;
                    assert(r@[k].album@ == owner);
                }
                if exists|i: int| 0 <= i < r@.len() && (#[trigger] r@[i]).album@ == owner {
                    let k = choose|i: int| 0 <= i < r@.len() && (#[trigger] r@[i]).album@ == owner;
                    assert(o[k] == owner);
                }
            }
            assert forall|i: int, j: int| 0 <= i < j < r@.len() implies (#[trigger] r@[i]).album@
                != (#[trigger] r@[j]).album@ by {
                assert(o[i] != o[j]);
            }
            assert forall|i: int, j: int| 0 <= i < j < r@.len() implies text_le(
                (#[trigger] r@[i]).album@,
                (#[trigger] r@[j]).album@,
            ) by {
                assert(<String as Ordered>::le(o[i], o[j]));
            }
        }
        r
    }
}

/// The tables once the album `album` was to carry exactly the tags asked for; and why it
/// does not, if it does not.
pub open spec fn album_tags_set(
    l: LibraryModel,
    album: Seq<char>,
    ids: Seq<i64>,
    names: Seq<Seq<char>>,
    now: i64,
) -> (LibraryModel, Option<ErrorModel>) {
    if is_blank(album) {
        (l, Some(Failure::Rule(Rule::EmptyAlbumName)))
    } else {
        let s = sync_tag_ids_result(
            l.catalog,
            l.album_tags,
            trimmed(album),
            ids,
            names,
            true,
            now,
        );
        (LibraryModel { catalog: s.catalog, album_tags: s.links, ..l }, s.error)
    }
}

/// Whatever comes of giving an album its tags, the tables are in order, and every tag
/// that existed does still.
pub proof fn law_album_tags_keep_the_library(
    l: LibraryModel,
    album: Seq<char>,
    ids: Seq<i64>,
    names: Seq<Seq<char>>,
    now: i64,
)
    requires
        l.wf(),
    ensures
        album_tags_set(l, album, ids, names, now).0.wf(),
        l.candidates_alive() ==> album_tags_set(l, album, ids, names, now).0.candidates_alive(),
        aligned(l.catalog.tags) ==> aligned(
            album_tags_set(l, album, ids, names, now).0.catalog.tags,
        ),
{
    if !is_blank(album) {
        let (r, _) = album_tags_set(l, album, ids, names, now);
        let wish = TagWish { tags: Seq::empty(), tag_ids: Some(ids), new_tags: names };
        lemma_retagged(l.catalog, l.album_tags, trimmed(album), wish, true, now);
        lemma_links_more_tags(l.catalog.tags, r.catalog.tags, l.music_tags);
        lemma_links_more_tags(l.catalog.tags, r.catalog.tags, l.clip_tags);
        if l.candidates_alive() {
            assert forall|i: int| 0 <= i < r.candidates.len() implies is_alive(
                r,
                #[trigger] r.candidates[i],
            ) by {
                assert(is_alive(l, l.candidates[i]));
            }
        }
    }
}

/// Being a link that stays when the album `from` is renamed `to`: one of another album,
/// or to a tag that `to` does not carry yet.
pub open spec fn survives(links: Seq<LinkModel>, from: Seq<char>, to: Seq<char>) -> spec_fn(
    LinkModel,
) -> bool {
    |k: LinkModel| k.owner != from || !links.contains(LinkModel { owner: to, tag_id: k.tag_id })
}

/// A link once the album `from` is named `to`.
pub open spec fn readdressed(from: Seq<char>, to: Seq<char>) -> spec_fn(LinkModel) -> LinkModel {
    |k: LinkModel|
        if k.owner == from {
            LinkModel { owner: to, ..k }
        } else {
            k
        }
}

/// The links once the album `from` is named `to`: what both carried is carried once.
pub open spec fn album_renamed(links: Seq<LinkModel>, from: Seq<char>, to: Seq<char>) -> Seq<
    LinkModel,
> {
    if from == to {
        links
    } else {
        links.filter(survives(links, from, to)).map_values(readdressed(from, to))
    }
}

/// An album that was renamed: its name before and after.
pub struct AlbumRename {
    pub from: String,
    pub to: String,
}

/// An album that was renamed, mathematically.
pub struct AlbumRenameModel {
    pub from: Seq<char>,
    pub to: Seq<char>,
}

impl View for AlbumRename {
    type V = AlbumRenameModel;

    open spec fn view(&self) -> AlbumRenameModel {
        AlbumRenameModel { from: self.from@, to: self.to@ }
    }
}

/// The links once the albums were renamed, one after the other.
pub open spec fn albums_renamed(links: Seq<LinkModel>, renames: Seq<AlbumRenameModel>) -> Seq<
    LinkModel,
>
    decreases renames.len(),
{
    if renames.len() == 0 {
        links
    } else {
        albums_renamed(
            album_renamed(links, renames[0].from, renames[0].to),
            renames.drop_first(),
        )
    }
}

/// Once an album has a new name, that name carries what either carried, the old one
/// carries nothing, every other album carries what it carried, and nothing is carried
/// twice.
pub proof fn law_album_rename_moves_and_merges(
    tags: Seq<TagModel>,
    links: Seq<LinkModel>,
    from: Seq<char>,
    to: Seq<char>,
)
    requires
        links_wf(tags, links),
        from != to,
    ensures
        links_wf(tags, album_renamed(links, from, to)),
        !carries_some(album_renamed(links, from, to), from),
        forall|id: i64|
            album_renamed(links, from, to).contains(LinkModel { owner: to, tag_id: id }) <==> (
            links.contains(LinkModel { owner: to, tag_id: id }) || links.contains(
                LinkModel { owner: from, tag_id: id },
            )),
        forall|k: LinkModel|
            k.owner != from && k.owner != to ==> (album_renamed(links, from, to).contains(k)
                <==> links.contains(k)),
{
    let p = survives(links, from, to);
    let f = readdressed(from, to);
    let kept = links.filter(p);
    let after = album_renamed(links, from, to);
    lemma_links_filter(tags, links, p);
    assert forall|i: int, j: int| 0 <= i < after.len() && 0 <= j < after.len() && i != j implies
        after[i] != after[j] by {
        assert(kept[i] != kept[j]);
        assert(kept.contains(kept[i]));
        assert(kept.contains(kept[j]));
        assert(p(kept[i]) && p(kept[j]));
        assert(links.contains(kept[i]) && links.contains(kept[j]));
    }
    assert forall|i: int| 0 <= i < after.len() implies has_tag(tags, (#[trigger] after[i]).tag_id)
        && after[i].owner != from by {
        assert(has_tag(tags, kept[i].tag_id));
    }
    assert forall|id: i64|
        after.contains(LinkModel { owner: to, tag_id: id }) <==> (links.contains(
            LinkModel { owner: to, tag_id: id },
        ) || links.contains(LinkModel { owner: from, tag_id: id })) by {
        let here = LinkModel { owner: to, tag_id: id };
        let there = LinkModel { owner: from, tag_id: id };
        if after.contains(here) {
            let i = choose|i: int| 0 <= i < after.len() && after[i] == here;
            assert(kept.contains(kept[i]));
            assert(links.contains(kept[i]));
            assert(kept[i] == here || kept[i] == there);
        }
        if links.contains(here) {
            assert(kept.contains(here));
            let i = choose|i: int| 0 <= i < kept.len() && kept[i] == here;
            assert(after[i] == here);
        } else if links.contains(there) {
            assert(kept.contains(there));
            let i = choose|i: int| 0 <= i < kept.len() && kept[i] == there;
            assert(after[i] == here);
        }
    }
    assert forall|k: LinkModel| k.owner != from && k.owner != to implies (after.contains(k)
        <==> links.contains(k)) by {
        if after.contains(k) {
            let i = choose|i: int| 0 <= i < after.len() && after[i] == k;
            assert(kept.contains(kept[i]));
            assert(kept[i] == k);
        }
        if links.contains(k) {
            assert(kept.contains(k));
            let i = choose|i: int| 0 <= i < kept.len() && kept[i] == k;
            assert(after[i] == k);
        }
    }
}

pub proof fn lemma_albums_renamed(
    tags: Seq<TagModel>,
    links: Seq<LinkModel>,
    renames: Seq<AlbumRenameModel>,
)
    requires
        links_wf(tags, links),
    ensures
        links_wf(tags, albums_renamed(links, renames)),
    decreases renames.len(),
{
    if renames.len() > 0 {
        let (from, to) = (renames[0].from, renames[0].to);
        if from != to {
            law_album_rename_moves_and_merges(tags, links, from, to);
        }
        lemma_albums_renamed(tags, album_renamed(links, from, to), renames.drop_first());
    }
}

/// No album is renamed twice.
pub open spec fn renames_distinct(renames: Seq<AlbumRenameModel>) -> bool {
    forall|i: int, j: int|
        0 <= i < j < renames.len() ==> (#[trigger] renames[i]).from != (#[trigger] renames[j]).from
}

/// Whether one of the albums that are renamed to `to` carries the tag `id`.
pub open spec fn arrives(
    links: Seq<LinkModel>,
    renames: Seq<AlbumRenameModel>,
    to: Seq<char>,
    id: i64,
) -> bool {
    exists|i: int|
        0 <= i < renames.len() && (#[trigger] renames[i]).to == to && links.contains(
            LinkModel { owner: renames[i].from, tag_id: id },
        )
}

/// Whether the album `name` is renamed.
pub open spec fn is_renamed(renames: Seq<AlbumRenameModel>, name: Seq<char>) -> bool {
    exists|i: int| 0 <= i < renames.len() && (#[trigger] renames[i]).from == name
}

/// Once several albums have new names, none of which is itself renamed, a renamed album
/// carries nothing, and every other carries what it carried and what arrives.
pub proof fn law_album_renames_move_and_merge(
    tags: Seq<TagModel>,
    links: Seq<LinkModel>,
    renames: Seq<AlbumRenameModel>,
)
    requires
        links_wf(tags, links),
        renames_distinct(renames),
        forall|i: int| 0 <= i < renames.len() ==> !is_renamed(renames, (#[trigger] renames[i]).to),
    ensures
        links_wf(tags, albums_renamed(links, renames)),
        forall|name: Seq<char>|
            is_renamed(renames, name) ==> !carries_some(albums_renamed(links, renames), name),
        forall|name: Seq<char>, id: i64|
            !is_renamed(renames, name) ==> (#[trigger] albums_renamed(links, renames).contains(
                LinkModel { owner: name, tag_id: id },
            ) <==> links.contains(LinkModel { owner: name, tag_id: id }) || arrives(
                links,
                renames,
                name,
                id,
            )),
    decreases renames.len(),
{
    lemma_albums_renamed(tags, links, renames);
    if renames.len() > 0 {
        let (from, to) = (renames[0].from, renames[0].to);
        let rest = renames.drop_first();
        let next = album_renamed(links, from, to);
        let after = albums_renamed(links, renames);
        assert(!is_renamed(renames, to));
        law_album_rename_moves_and_merges(tags, links, from, to);
        assert forall|i: int, j: int| 0 <= i < j < rest.len() implies (#[trigger] rest[i]).from != (
        #[trigger] rest[j]).from by {
            assert(renames[i + 1].from != renames[j + 1].from);
        }
        assert forall|name: Seq<char>|
            is_renamed(renames, name) <==> name == from || is_renamed(rest, name) by {
            if is_renamed(rest, name) {
                let i = choose|i: int| 0 <= i < rest.len() && (#[trigger] rest[i]).from == name;
                assert(renames[i + 1].from == name);
            }
            if is_renamed(renames, name) {
                let i = choose|i: int|
                    0 <= i < renames.len() && (#[trigger] renames[i]).from == name;
                if i > 0 {
                    assert(rest[i - 1].from == name);
                }
            }
        }
        assert forall|i: int| 0 <= i < rest.len() implies !is_renamed(
            rest,
            (#[trigger] rest[i]).to,
        ) by {
            assert(!is_renamed(renames, renames[i + 1].to));
        }
        law_album_renames_move_and_merge(tags, next, rest);
        assert forall|i: int, id: i64| 0 <= i < rest.len() implies (next.contains(
            LinkModel { owner: (#[trigger] rest[i]).from, tag_id: id },
        ) <==> #[trigger] links.contains(LinkModel { owner: rest[i].from, tag_id: id })) by {
            assert(renames[0].from != renames[i + 1].from);
            assert(is_renamed(renames, renames[i + 1].from));
        }
        assert forall|name: Seq<char>, id: i64| !is_renamed(renames, name) implies (
        #[trigger] after.contains(LinkModel { owner: name, tag_id: id }) <==> links.contains(
            LinkModel { owner: name, tag_id: id },
        ) || arrives(links, renames, name, id)) by {
            let k = LinkModel { owner: name, tag_id: id };
            assert(after.contains(k) <==> next.contains(k) || arrives(next, rest, name, id));
            if arrives(next, rest, name, id) {
                let i = choose|i: int|
                    0 <= i < rest.len() && (#[trigger] rest[i]).to == name && next.contains(
                        LinkModel { owner: rest[i].from, tag_id: id },
                    );
                assert(links.contains(LinkModel { owner: rest[i].from, tag_id: id }));
                assert(renames[i + 1].to == name);
            }
            if next.contains(k) && name == to && !links.contains(k) {
                assert(renames[0].to == name);
            }
            if arrives(links, renames, name, id) {
                let i = choose|i: int|
                    0 <= i < renames.len() && (#[trigger] renames[i]).to == name && links.contains(
                        LinkModel { owner: renames[i].from, tag_id: id },
                    );
                if i > 0 {
                    assert(rest[i - 1] == renames[i]);
                    assert(next.contains(LinkModel { owner: rest[i - 1].from, tag_id: id }));
                }
            }
        }
        assert(!carries_some(after, from)) by {
            if carries_some(after, from) {
                let i = choose|i: int| 0 <= i < after.len() && (#[trigger] after[i]).owner == from;
                let k = LinkModel { owner: from, tag_id: after[i].tag_id };
                assert(after.contains(k));
                if is_renamed(rest, from) {
                    let j = choose|j: int|
                        0 <= j < rest.len() && (#[trigger] rest[j]).from == from;
                    assert(renames[0].from != renames[j + 1].from);
                }
                assert(next.contains(k) || arrives(next, rest, from, k.tag_id));
                if arrives(next, rest, from, k.tag_id) {
                    let j = choose|j: int|
                        0 <= j < rest.len() && (#[trigger] rest[j]).to == from && next.contains(
                            LinkModel { owner: rest[j].from, tag_id: k.tag_id },
                        );
                    assert(!is_renamed(renames, renames[j + 1].to));
                }
                assert(next.contains(k));
            }
        }
    }
}

/// Lets the tags of the album `from` follow it to the name `to`.
fn rename_album(links: &mut Vec<LinkRow>, from: &str, to: &str)
    ensures
        models(final(links)@) == album_renamed(models(old(links)@), from@, to@),
{
    if same_text(from, to) {
        return;
    }
    let ghost m = models(links@);
    let ghost p = survives(m, from@, to@);
    let ghost f = readdressed(from@, to@);
    let mut r: Vec<LinkRow> = Vec::new();
    let mut i: usize = 0;
    proof {
        reveal(Seq::filter);
        assert(m.take(0).filter(p) =~= Seq::empty());
        assert(models(r@) =~= Seq::<LinkModel>::empty().map_values(f));
    }
    while i < links.len()
        invariant
            i <= links@.len(),
            m == models(links@),
            m == models(old(links)@),
            p == survives(m, from@, to@),
            f == readdressed(from@, to@),
            models(r@) == m.take(i as int).filter(p).map_values(f),
        decreases links@.len() - i,
    {
        let ghost done = m.take(i as int).filter(p);
        let ghost before = models(r@);
        proof {
            lemma_filter_take(m, p, i as int);
        }
        if !same_text(links[i].owner.as_str(), from) {
            r.push(links[i].clone());
            proof {
                assert(models(r@) =~= before.push(m[i as int]));
                assert(done.push(m[i as int]).map_values(f) =~= done.map_values(f).push(m[i as int]));
            }
        } else if !is_linked(links, to, links[i].tag_id) {
            r.push(LinkRow { owner: to.to_string(), tag_id: links[i].tag_id });
            proof {
                let moved = LinkModel { owner: to@, tag_id: m[i as int].tag_id };
                assert(models(r@) =~= before.push(moved));
                assert(done.push(m[i as int]).map_values(f) =~= done.map_values(f).push(moved));
            }
        }
        i = i + 1;
    }
    proof {
        assert(m.take(m.len() as int) =~= m);
    }
    *links = r;
}

/// Lets the tags of albums follow them to their new names.
pub fn apply_album_renames(links: &mut Vec<LinkRow>, renames: &Vec<AlbumRename>)
    ensures
        models(final(links)@) == albums_renamed(models(old(links)@), models(renames@)),
{
    let ghost m = models(renames@);
    let ghost all = albums_renamed(models(links@), m);
    let mut i: usize = 0;
    proof {
        assert(m.skip(0) =~= m);
    }
    while i < renames.len()
        invariant
            i <= renames@.len(),
            m == models(renames@),
            all == albums_renamed(models(old(links)@), m),
            all == albums_renamed(models(links@), m.skip(i as int)),
        decreases renames@.len() - i,
    {
        proof {
            assert(m.skip(i as int).drop_first() =~= m.skip(i + 1));
            assert(m.skip(i as int)[0] == m[i as int]);
        }
        rename_album(links, renames[i].from.as_str(), renames[i].to.as_str());
        i = i + 1;
    }
}

impl Library {
    /// The albums that carry tags, by name.
    pub fn list_album_tags(&self) -> (r: Vec<AlbumTagEntry>)
        requires
            self@.wf(),
        ensures
            lists_owners(self@.catalog.tags, self@.album_tags, r@),
            forall|i: int, j: int|
                0 <= i < j < r@.len() ==> text_le((#[trigger] r@[i]).album@, (#[trigger] r@[j]).album@),
    {
        self.catalog.load_all_tag_ids(&self.album_tags)
    }

    /// Lets an album carry exactly the tags `tag_ids` and those that `new_tags` stand
    /// for, and lists them. Where that breaks off, what was written stays.
    pub fn set_album_tags(
        &mut self,
        album: &str,
        tag_ids: Vec<i64>,
        new_tags: Vec<String>,
        now: i64,
    ) -> (r: Result<Vec<i64>, LibraryError>)
        requires
            old(self)@.wf(),
        ensures
            final(self)@.wf(),
            ({
                let (l, error) = album_tags_set(
                    old(self)@,
                    album@,
                    tag_ids@,
                    models(new_tags@),
                    now,
                );
                &&& final(self)@ == l
                &&& match error {
                    Some(e) => r matches Err(f) && f@ == e,
                    None => r matches Ok(ids) && lists_tags(
                        l.catalog.tags,
                        l.album_tags,
                        trimmed(album@),
                        ids@,
                    ),
                }
            }),
    {
        proof {
            law_album_tags_keep_the_library(self@, album@, tag_ids@, models(new_tags@), now);
        }
        let name = trim(album);
        if name.as_str().is_empty() {
            return Err(Failure::Rule(Rule::EmptyAlbumName));
        }
        match sync_tag_ids(
            &mut self.catalog,
            &mut self.album_tags,
            name.as_str(),
            &tag_ids,
            &new_tags,
            true,
            now,
        ) {
            Ok(_) => Ok(self.catalog.load_tag_ids(&self.album_tags, name.as_str())),
            Err(e) => Err(e),
        }
    }

    /// Takes all tags off the album `album`.
    pub fn delete_album_tags(&mut self, album: &str)
        requires
            old(self)@.wf(),
        ensures
            final(self)@.wf(),
            final(self)@ == (LibraryModel {
                album_tags: old(self)@.album_tags.filter(other_owner(album@)),
                ..old(self)@
            }),
    {
        proof {
            lemma_links_filter(self@.catalog.tags, self@.album_tags, other_owner(album@));
        }
        drop_owner(&mut self.album_tags, album);
    }
}

} // verus!

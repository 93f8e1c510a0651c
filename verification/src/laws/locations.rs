//! Laws of following files that were moved.
use vstd::prelude::*;

use crate::albums::AlbumRenameModel;
use crate::library::has_music;
use crate::library::LibraryModel;
use crate::library::MusicModel;
use crate::locations::all_settled;
use crate::locations::law_sync_settles_the_library;
use crate::locations::lemma_plan_update_of;
use crate::locations::lemma_plan_updates;
use crate::locations::location_plan;
use crate::locations::locations_result;
use crate::locations::locations_written;
use crate::locations::music_relocated;
use crate::locations::update_of;
use crate::locations::updates_distinct;
use crate::locations::with_rename;
use crate::locations::LocatedModel;
use crate::locations::LocationUpdateModel;
use crate::music::path_elsewhere;

verus! {

/// The bookmark of a music; nothing, where it has none.
pub open spec fn held_bookmark(m: MusicModel) -> Seq<u8> {
    match m.file_bookmark {
        Some(b) => b,
        None => Seq::empty(),
    }
}

/// Whether the album of a music is taken from the folder of its file.
pub open spec fn follows_folder(m: MusicModel) -> bool {
    m.album_source == "folder"@ || m.album_source == "legacy"@ || m.album_source == ""@
}

/// A music whose file was found stands at the path at which it was found, whatever else of it
/// changed; where its album is taken from the folder it is in the album of that folder, and
/// else in the album it was in. It has the bookmark made for it, if it had none or the file was
/// moved and one was made, and else the one it had. What else a music says stays, but for the
/// name of the file and the time of the change, where anything changed. A music that was not
/// found stays as it was.
pub proof fn law_music_stands_where_its_file_was_found(
    l: LibraryModel,
    found: Seq<Option<LocatedModel>>,
    now: i64,
    i: int,
)
    requires
        l.wf(),
        found.len() == l.music.len(),
        locations_result(l, location_plan(l.music, found), now) is Ok,
        0 <= i < l.music.len(),
    ensures
        ({
            let after = (locations_result(l, location_plan(l.music, found), now)->Ok_0).music;
            let (m, n) = (l.music[i], after[i]);
            &&& after.len() == l.music.len()
            &&& found[i] is None ==> n == m
            &&& found[i] matches Some(x) ==> {
                &&& n.path == x.path
                &&& n.album == if follows_folder(m) {
                    x.folder_album
                } else {
                    m.album
                }
                &&& n.album_source == if follows_folder(m) {
                    "folder"@
                } else {
                    m.album_source
                }
                &&& held_bookmark(n) == if (held_bookmark(m).len() == 0 || x.path != m.path)
                    && x.bookmark is Some {
                    x.bookmark->0
                } else {
                    held_bookmark(m)
                }
                &&& if n.path == m.path && n.album == m.album && n.album_source == m.album_source
                    && held_bookmark(n) == held_bookmark(m) {
                    n == m
                } else {
                    n.file_name == x.file_name && n.updated_at == now
                }
                &&& n.id == m.id && n.name == m.name && n.artist == m.artist && n.genre == m.genre
                    && n.year == m.year && n.channels == m.channels && n.sample_rate
                    == m.sample_rate && n.bitrate == m.bitrate && n.duration == m.duration
                    && n.file_size == m.file_size && n.mime_type == m.mime_type && n.cover_art
                    == m.cover_art && n.created_at == m.created_at
            }
        }),
{
    law_sync_settles_the_library(l, found, now);
    let after = all_settled(l.music, found, now);
    let m = l.music[i];
    reveal_strlit("folder");
    reveal_strlit("legacy");
    reveal_strlit("");
    if m.album_source.len() == 0 {
        assert(m.album_source =~= ""@);
    }
}

/// How many places there are of a kind, with one more place.
proof fn lemma_one_more_place(n: int, p: spec_fn(int) -> bool, q: spec_fn(int) -> bool)
    requires
        0 <= n,
        forall|i: int| 0 <= i < n ==> p(i) == #[trigger] q(i),
    ensures
        Seq::new((n + 1) as nat, |i: int| i).filter(q).len() == Seq::new(
            n as nat,
            |i: int| i,
        ).filter(p).len() + if q(n) {
            1int
        } else {
            0
        },
{
    let few = Seq::new(n as nat, |i: int| i);
    let all = Seq::new((n + 1) as nat, |i: int| i);
    assert(all =~= few.push(n));
    crate::rows::lemma_filter_push(few, n, q);
    lemma_same_selection(few, p, q);
}

/// Predicates that agree on all rows select the same.
proof fn lemma_same_selection(s: Seq<int>, p: spec_fn(int) -> bool, q: spec_fn(int) -> bool)
    requires
        forall|i: int| 0 <= i < s.len() ==> p(#[trigger] s[i]) == q(s[i]),
    ensures
        s.filter(p) == s.filter(q),
    decreases s.len(),
{
    reveal(Seq::filter);
    if s.len() > 0 {
        let t = s.drop_last();
        assert forall|i: int| 0 <= i < t.len() implies p(#[trigger] t[i]) == q(t[i]) by {
            assert(t[i] == s[i]);
        }
        lemma_same_selection(t, p, q);
        assert(p(s[s.len() - 1]) == q(s[s.len() - 1]));
    }
}

/// The paths counted are those of the music that were found elsewhere, and the albums counted
/// those of the music whose album is taken from the folder and that were found in a folder of
/// another name.
pub proof fn law_sync_counts_what_was_found_elsewhere(
    music: Seq<MusicModel>,
    found: Seq<Option<LocatedModel>>,
)
    requires
        found.len() == music.len(),
    ensures
        location_plan(music, found).updated_paths == Seq::new(music.len(), |i: int| i).filter(
            |i: int| found[i] matches Some(x) && x.path != music[i].path,
        ).len(),
        location_plan(music, found).updated_albums == Seq::new(music.len(), |i: int| i).filter(
            |i: int|
                found[i] matches Some(x) && follows_folder(music[i]) && x.folder_album
                    != music[i].album,
        ).len(),
    decreases music.len(),
{
    let paths = |i: int| found[i] matches Some(x) && x.path != music[i].path;
    let albums = |i: int|
        found[i] matches Some(x) && follows_folder(music[i]) && x.folder_album != music[i].album;
    reveal(Seq::filter);
    if music.len() > 0 {
        let (m, f) = (music.drop_last(), found.drop_last());
        law_sync_counts_what_was_found_elsewhere(m, f);
        let n = m.len() as int;
        let paths_before = |i: int| f[i] matches Some(x) && x.path != m[i].path;
        let albums_before = |i: int|
            f[i] matches Some(x) && follows_folder(m[i]) && x.folder_album != m[i].album;
        lemma_one_more_place(n, paths_before, paths);
        lemma_one_more_place(n, albums_before, albums);
        reveal_strlit("folder");
        reveal_strlit("legacy");
        reveal_strlit("");
        if music.last().album_source.len() == 0 {
            assert(music.last().album_source =~= ""@);
        }
    }
}

/// Whether the music at `i` was found in another album.
pub open spec fn changes_album(
    music: Seq<MusicModel>,
    found: Seq<Option<LocatedModel>>,
    i: int,
) -> bool {
    found[i] matches Some(x) && follows_folder(music[i]) && x.folder_album != music[i].album
}

/// What a renaming adds to others: the album has the new name, and every other album keeps
/// the name it was to get.
proof fn lemma_rename_added(
    renames: Seq<AlbumRenameModel>,
    from: Seq<char>,
    to: Seq<char>,
    r: AlbumRenameModel,
)
    requires
        crate::albums::renames_distinct(renames),
    ensures
        with_rename(renames, from, to).contains(r) <==> if r.from == from {
            r.to == to
        } else {
            renames.contains(r)
        },
    decreases renames.len(),
{
    let after = with_rename(renames, from, to);
    let new = AlbumRenameModel { from, to };
    if renames.len() == 0 {
        assert(after[0] == new);
    } else {
        let rest = renames.drop_first();
        assert forall|i: int, j: int| 0 <= i < j < rest.len() implies (#[trigger] rest[i]).from != (
        #[trigger] rest[j]).from by {
            assert(renames[i + 1].from != renames[j + 1].from);
        }
        assert(renames.contains(r) <==> r == renames[0] || rest.contains(r)) by {
            if renames.contains(r) {
                let i = choose|i: int| 0 <= i < renames.len() && renames[i] == r;
                if i > 0 {
                    assert(rest[i - 1] == r);
                }
            }
            if rest.contains(r) {
                let i = choose|i: int| 0 <= i < rest.len() && rest[i] == r;
                assert(renames[i + 1] == r);
            }
            assert(renames[0] == renames[0]);
        }
        if renames[0].from == from {
            assert(after.contains(r) <==> r == new || rest.contains(r)) by {
                assert(after[0] == new);
                if after.contains(r) {
                    let i = choose|i: int| 0 <= i < after.len() && after[i] == r;
                    if i > 0 {
                        assert(rest[i - 1] == r);
                    }
                }
                if rest.contains(r) {
                    let i = choose|i: int| 0 <= i < rest.len() && rest[i] == r;
                    assert(after[i + 1] == r);
                }
            }
            if rest.contains(r) {
                let i = choose|i: int| 0 <= i < rest.len() && rest[i] == r;
                assert(renames[0].from != renames[i + 1].from);
            }
        } else {
            let tail = with_rename(rest, from, to);
            lemma_rename_added(rest, from, to, r);
            assert(after.contains(r) <==> r == renames[0] || tail.contains(r)) by {
                assert(after[0] == renames[0]);
                if after.contains(r) {
                    let i = choose|i: int| 0 <= i < after.len() && after[i] == r;
                    if i > 0 {
                        assert(tail[i - 1] == r);
                    }
                }
                if tail.contains(r) {
                    let i = choose|i: int| 0 <= i < tail.len() && tail[i] == r;
                    assert(after[i + 1] == r);
                }
            }
        }
    }
}

/// An album is renamed where music of it was found in another folder, and to the folder in
/// which the last of them was found.
pub proof fn law_album_follows_its_last_music(
    music: Seq<MusicModel>,
    found: Seq<Option<LocatedModel>>,
    r: AlbumRenameModel,
)
    requires
        found.len() == music.len(),
    ensures
        location_plan(music, found).renames.contains(r) <==> exists|i: int|
            0 <= i < music.len() && #[trigger] changes_album(music, found, i) && music[i].album
                == r.from && (found[i]->0).folder_album == r.to && forall|j: int|
                i < j < music.len() && #[trigger] changes_album(music, found, j) ==> music[j].album
                    != r.from,
    decreases music.len(),
{
    let all = location_plan(music, found).renames;
    if music.len() > 0 {
        let (m, f) = (music.drop_last(), found.drop_last());
        let before = location_plan(m, f).renames;
        let n = m.len() as int;
        law_album_follows_its_last_music(m, f, r);
        crate::locations::law_plan_counts_what_it_writes(m, f);
        assert forall|i: int| 0 <= i < n implies #[trigger] changes_album(music, found, i)
            == changes_album(m, f, i) by {}
        reveal_strlit("folder");
        reveal_strlit("legacy");
        reveal_strlit("");
        if music[n].album_source.len() == 0 {
            assert(music[n].album_source =~= ""@);
        }
        if changes_album(music, found, n) {
            lemma_rename_added(before, music[n].album, (found[n]->0).folder_album, r);
            assert(all == with_rename(before, music[n].album, (found[n]->0).folder_album));
        } else {
            assert(all == before);
        }
        if before.contains(r) && !(changes_album(music, found, n) && music[n].album == r.from) {
            let i = choose|i: int|
                0 <= i < m.len() && #[trigger] changes_album(m, f, i) && m[i].album == r.from && (
                f[i]->0).folder_album == r.to && forall|j: int|
                    i < j < m.len() && #[trigger] changes_album(m, f, j) ==> m[j].album != r.from;
            assert(changes_album(music, found, i));
            assert forall|j: int| i < j < music.len() && #[trigger] changes_album(
                music,
                found,
                j,
            ) implies music[j].album != r.from by {
                if j < n {
                    assert(changes_album(m, f, j));
                }
            }
        }
        if exists|i: int|
            0 <= i < music.len() && #[trigger] changes_album(music, found, i) && music[i].album
                == r.from && (found[i]->0).folder_album == r.to && forall|j: int|
                i < j < music.len() && #[trigger] changes_album(music, found, j) ==> music[j].album
                    != r.from {
            let i = choose|i: int|
                0 <= i < music.len() && #[trigger] changes_album(music, found, i) && music[i].album
                    == r.from && (found[i]->0).folder_album == r.to && forall|j: int|
                    i < j < music.len() && #[trigger] changes_album(music, found, j)
                        ==> music[j].album != r.from;
            if i < n {
                assert(changes_album(m, f, i));
                assert forall|j: int| i < j < m.len() && #[trigger] changes_album(
                    m,
                    f,
                    j,
                ) implies m[j].album != r.from by {
                    assert(changes_album(music, found, j));
                }
            }
        }
    }
}

/// An update is the one of its music.
proof fn lemma_update_of_its_music(updates: Seq<LocationUpdateModel>, k: int)
    requires
        updates_distinct(updates),
        0 <= k < updates.len(),
    ensures
        update_of(updates, updates[k].id) == Some(updates[k]),
    decreases updates.len(),
{
    if k > 0 {
        let rest = updates.drop_first();
        assert forall|i: int, j: int| 0 <= i < j < rest.len() implies (#[trigger] rest[i]).id != (
        #[trigger] rest[j]).id by {
            assert(updates[i + 1].id != updates[j + 1].id);
        }
        assert(updates[0].id != updates[k].id);
        assert(rest[k - 1] == updates[k]);
        lemma_update_of_its_music(rest, k - 1);
    }
}

/// Updates that lead to paths of their own can be written.
proof fn lemma_written_at_paths_of_their_own(
    music: Seq<MusicModel>,
    updates: Seq<LocationUpdateModel>,
    now: i64,
)
    requires
        forall|k: int, b: int|
            0 <= k < updates.len() && 0 <= b < music.len() && (#[trigger] music[b]).id != (
            #[trigger] updates[k]).id ==> updates[k].path != music[b].path,
        forall|k: int, m: int|
            0 <= k < m < updates.len() ==> (#[trigger] updates[k]).path != (
            #[trigger] updates[m]).path,
    ensures
        locations_written(music, updates, now) is Ok,
    decreases updates.len(),
{
    if updates.len() > 0 {
        let u = updates[0];
        let rest = updates.drop_first();
        let next = music_relocated(music, u, now);
        assert(!path_elsewhere(music, u.id, u.path)) by {
            if path_elsewhere(music, u.id, u.path) {
                let b = choose|b: int|
                    0 <= b < music.len() && (#[trigger] music[b]).id != u.id && music[b].path
                        == u.path;
                assert(updates[0].path != music[b].path);
            }
        }
        assert forall|k: int, b: int|
            0 <= k < rest.len() && 0 <= b < next.len() && (#[trigger] next[b]).id != (
            #[trigger] rest[k]).id implies rest[k].path != next[b].path by {
            assert(rest[k] == updates[k + 1]);
            assert(music[b].id == next[b].id);
            assert(updates[0].path != updates[k + 1].path);
        }
        assert forall|k: int, m: int| 0 <= k < m < rest.len() implies (#[trigger] rest[k]).path != (
        #[trigger] rest[m]).path by {
            assert(updates[k + 1].path != updates[m + 1].path);
        }
        lemma_written_at_paths_of_their_own(next, rest, now);
    }
}

/// A library can be brought up to date wherever no file was found at the path of another
/// music, or of another that was found.
pub proof fn law_sync_succeeds_where_paths_do_not_meet(
    l: LibraryModel,
    found: Seq<Option<LocatedModel>>,
    now: i64,
)
    requires
        l.wf(),
        found.len() == l.music.len(),
        forall|i: int, j: int|
            0 <= i < found.len() && 0 <= j < found.len() && i != j && (#[trigger] found[i]) is Some
                ==> (found[i]->0).path != (#[trigger] l.music[j]).path,
        forall|i: int, j: int|
            0 <= i < j < found.len() && (#[trigger] found[i]) is Some && (#[trigger] found[j]) is Some
                ==> (found[i]->0).path != (found[j]->0).path,
    ensures
        locations_result(l, location_plan(l.music, found), now) is Ok,
{
    let updates = location_plan(l.music, found).updates;
    lemma_plan_updates(l.music, found);
    assert forall|k: int| 0 <= k < updates.len() implies exists|i: int|
        0 <= i < found.len() && found[i] is Some && (#[trigger] l.music[i]).id == (
        #[trigger] updates[k]).id && updates[k].path == (found[i]->0).path by {
        assert(has_music(l.music, updates[k].id));
        let i = choose|i: int|
            0 <= i < l.music.len() && #[trigger] l.music[i].id == updates[k].id;
        lemma_update_of_its_music(updates, k);
        lemma_plan_update_of(l.music, found, i);
        assert(l.music[i].id == updates[k].id);
    }
    assert forall|k: int, b: int|
        0 <= k < updates.len() && 0 <= b < l.music.len() && (#[trigger] l.music[b]).id != (
        #[trigger] updates[k]).id implies updates[k].path != l.music[b].path by {
        let i = choose|i: int|
            0 <= i < found.len() && found[i] is Some && (#[trigger] l.music[i]).id
                == updates[k].id && updates[k].path == (found[i]->0).path;
        assert(i != b);
        assert((found[i]->0).path != l.music[b].path);
    }
    assert forall|k: int, m: int| 0 <= k < m < updates.len() implies (#[trigger] updates[k]).path
        != (#[trigger] updates[m]).path by {
        let i = choose|i: int|
            0 <= i < found.len() && found[i] is Some && (#[trigger] l.music[i]).id
                == updates[k].id && updates[k].path == (found[i]->0).path;
        let j = choose|j: int|
            0 <= j < found.len() && found[j] is Some && (#[trigger] l.music[j]).id
                == updates[m].id && updates[m].path == (found[j]->0).path;
        assert(updates[k].id != updates[m].id);
        assert(i != j);
        if i < j {
            assert((found[i]->0).path != (found[j]->0).path);
        } else {
            assert((found[j]->0).path != (found[i]->0).path);
        }
    }
    lemma_written_at_paths_of_their_own(l.music, updates, now);
}

} // verus!

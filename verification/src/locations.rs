//! Following music files that were moved or renamed.
//!
//! For each music the caller first asks [`lookup`] how to find the file now, looks, and
//! makes a bookmark where [`needs_bookmark`] asks for one. [`plan_locations`] decides
//! from what was found what is to be written, and
//! [`Library::sync_library_locations`] writes it.
use vstd::prelude::*;

use crate::albums::albums_renamed;
use crate::albums::apply_album_renames;
use crate::albums::lemma_albums_renamed;
use crate::albums::renames_distinct;
use crate::albums::AlbumRename;
use crate::albums::AlbumRenameModel;
use crate::catalog::models;
use crate::failure::outcome;
use crate::failure::Constraint;
use crate::failure::ErrorModel;
use crate::failure::Failure;
use crate::failure::Key;
use crate::failure::LibraryError;
use crate::failure::Step;
use crate::library::has_music;
use crate::library::is_alive;
use crate::library::music_keys;
use crate::library::music_wf;
use crate::library::Library;
use crate::library::LibraryModel;
use crate::library::MusicModel;
use crate::library::MusicRow;
use crate::music::path_elsewhere;
use crate::paths::file_name;
use crate::paths::folder_name;
use crate::paths::folder_of;
use crate::paths::is_plain;
use crate::paths::name_of;
use crate::paths::names_file;
use crate::paths::names_folder;
use crate::paths::text_of;
use crate::paths::Platform;
use crate::text::same_text;

verus! {

/// How to find the file of a music now.
pub enum Lookup {
    /// Resolve this bookmark.
    Bookmark(Vec<u8>),
    /// See whether a file is at this path.
    Path(String),
}

/// The bookmark of a music; empty, where it has none.
pub open spec fn kept_bookmark(m: MusicModel) -> Seq<u8> {
    match m.file_bookmark {
        Some(b) => b,
        None => Seq::empty(),
    }
}

/// How to find the file of a music now: by its bookmark, and where it has none, at its
/// path.
pub fn lookup(row: &MusicRow) -> (r: Lookup)
    ensures
        match r {
            Lookup::Bookmark(b) => b@ == kept_bookmark(row@) && b@.len() > 0,
            Lookup::Path(p) => p@ == row@.path && kept_bookmark(row@).len() == 0,
        },
{
    match &row.file_bookmark {
        Some(b) => if b.len() > 0 {
            Lookup::Bookmark(b.clone())
        } else {
            Lookup::Path(row.path.clone())
        },
        None => Lookup::Path(row.path.clone()),
    }
}

/// Whether a new bookmark is wanted for a music whose file is at `path` now.
pub open spec fn wants_bookmark(m: MusicModel, path: Seq<char>) -> bool {
    kept_bookmark(m).len() == 0 || path != m.path
}

/// Whether a new bookmark is wanted for a music whose file is at `path` now: it has
/// none, or the file was moved.
pub fn needs_bookmark(row: &MusicRow, path: &str) -> (b: bool)
    ensures
        b == wants_bookmark(row@, path@),
{
    let empty: bool = match &row.file_bookmark {
        Some(b) => b.len() == 0,
        None => true,
    };
    empty || !same_text(path, row.path.as_str())
}

/// Where the file of a music is now.
pub struct Located {
    pub path: String,
    pub folder_album: String,
    pub file_name: String,
    pub bookmark: Option<Vec<u8>>,
}

/// Where the file of a music is now, mathematically.
pub struct LocatedModel {
    pub path: Seq<char>,
    pub folder_album: Seq<char>,
    pub file_name: Seq<char>,
    pub bookmark: Option<Seq<u8>>,
}

impl View for Located {
    type V = LocatedModel;

    open spec fn view(&self) -> LocatedModel {
        LocatedModel {
            path: self.path@,
            folder_album: self.folder_album@,
            file_name: self.file_name@,
            bookmark: match self.bookmark {
                Some(b) => Some(b@),
                None => None,
            },
        }
    }
}

/// The file at `path`, with the bookmark made for it, if one was.
pub fn locate(path: String, bookmark: Option<Vec<u8>>) -> (r: Located)
    ensures
        r.path == path,
        r.bookmark == bookmark,
        names_folder(path@, r.folder_album@),
        exists|os: Platform, name: Option<Seq<char>>| #[trigger]
            names_file(os, path@, name) && r.file_name@ == name.unwrap_or(Seq::empty()),
        is_plain(path@) ==> r.folder_album@ == folder_of(path@),
        is_plain(path@) ==> r.file_name@ == match name_of(path@) {
            Some(n) => n,
            None => Seq::empty(),
        },
{
    let folder_album = folder_name(path.as_str());
    let name = file_name(path.as_str());
    let ghost found = text_of(name);
    let file_name = match name {
        Some(n) => n,
        None => String::new(),
    };
    proof {
        assert(file_name@ =~= found.unwrap_or(Seq::empty()));
    }
    Located { path, folder_album, file_name, bookmark }
}

/// What is to be written about the place of a music.
pub struct LocationUpdate {
    pub id: String,
    pub path: String,
    pub file_name: String,
    pub bookmark: Vec<u8>,
    pub album: String,
    pub album_source: String,
}

/// What is to be written about the place of a music, mathematically.
pub struct LocationUpdateModel {
    pub id: Seq<char>,
    pub path: Seq<char>,
    pub file_name: Seq<char>,
    pub bookmark: Seq<u8>,
    pub album: Seq<char>,
    pub album_source: Seq<char>,
}

impl View for LocationUpdate {
    type V = LocationUpdateModel;

    open spec fn view(&self) -> LocationUpdateModel {
        LocationUpdateModel {
            id: self.id@,
            path: self.path@,
            file_name: self.file_name@,
            bookmark: self.bookmark@,
            album: self.album@,
            album_source: self.album_source@,
        }
    }
}

/// Where the album of a music is taken from: from its folder, unless another source was
/// chosen.
pub open spec fn source_now(m: MusicModel) -> Seq<char> {
    if m.album_source == "legacy"@ || m.album_source.len() == 0 {
        "folder"@
    } else {
        m.album_source
    }
}

/// What is so of the place of the music `m` whose file was found as `f` says.
pub open spec fn moved(m: MusicModel, f: LocatedModel) -> LocationUpdateModel {
    LocationUpdateModel {
        id: m.id,
        path: f.path,
        file_name: f.file_name,
        bookmark: if wants_bookmark(m, f.path) && f.bookmark is Some {
            f.bookmark->0
        } else {
            kept_bookmark(m)
        },
        album: if source_now(m) == "folder"@ {
            f.folder_album
        } else {
            m.album
        },
        album_source: source_now(m),
    }
}

/// Whether `u` says of the place of `m` anything but what is written.
pub open spec fn changes(m: MusicModel, u: LocationUpdateModel) -> bool {
    u.path != m.path || u.album != m.album || u.album_source != m.album_source || u.bookmark
        != kept_bookmark(m)
}

/// The renamed albums, with `from` now named `to`: what it was to be named before is
/// forgotten.
pub open spec fn with_rename(renames: Seq<AlbumRenameModel>, from: Seq<char>, to: Seq<char>) -> Seq<
    AlbumRenameModel,
>
    decreases renames.len(),
{
    let rename = AlbumRenameModel { from, to };
    if renames.len() == 0 {
        seq![rename]
    } else if renames[0].from == from {
        seq![rename] + renames.drop_first()
    } else {
        seq![renames[0]] + with_rename(renames.drop_first(), from, to)
    }
}

/// How many music were found at other paths and in other albums.
pub struct LocationSyncResult {
    pub updated_paths: usize,
    pub updated_albums: usize,
}

/// What is to be written about the places of music.
pub struct LocationPlan {
    pub updates: Vec<LocationUpdate>,
    pub renames: Vec<AlbumRename>,
    pub result: LocationSyncResult,
}

/// What is to be written about the places of music, mathematically.
#[verifier::ext_equal]
pub struct LocationPlanModel {
    pub updates: Seq<LocationUpdateModel>,
    pub renames: Seq<AlbumRenameModel>,
    pub updated_paths: nat,
    pub updated_albums: nat,
}

impl View for LocationPlan {
    type V = LocationPlanModel;

    open spec fn view(&self) -> LocationPlanModel {
        LocationPlanModel {
            updates: models(self.updates@),
            renames: models(self.renames@),
            updated_paths: self.result.updated_paths as nat,
            updated_albums: self.result.updated_albums as nat,
        }
    }
}

/// What was found, mathematically.
pub open spec fn found_models(found: Seq<Option<Located>>) -> Seq<Option<LocatedModel>> {
    found.map_values(
        |f: Option<Located>|
            match f {
                Some(x) => Some(x@),
                None => None,
            },
    )
}

/// What is to be written once, beside the plan `p`, the music `m` was found as `f` says.
pub open spec fn plan_step(p: LocationPlanModel, m: MusicModel, f: Option<LocatedModel>) -> LocationPlanModel {
    match f {
        None => p,
        Some(x) => {
            let u = moved(m, x);
            if changes(m, u) {
                LocationPlanModel {
                    updates: p.updates.push(u),
                    renames: if u.album != m.album {
                        with_rename(p.renames, m.album, u.album)
                    } else {
                        p.renames
                    },
                    updated_paths: if u.path != m.path {
                        p.updated_paths + 1
                    } else {
                        p.updated_paths
                    },
                    updated_albums: if u.album != m.album {
                        p.updated_albums + 1
                    } else {
                        p.updated_albums
                    },
                }
            } else {
                p
            }
        },
    }
}

/// What is to be written about the music `music`, found as `found` says, one after the
/// other. A music that was not found is left alone.
pub open spec fn location_plan(music: Seq<MusicModel>, found: Seq<Option<LocatedModel>>) -> LocationPlanModel
    decreases music.len(),
{
    if music.len() == 0 || music.len() != found.len() {
        LocationPlanModel {
            updates: Seq::empty(),
            renames: Seq::empty(),
            updated_paths: 0,
            updated_albums: 0,
        }
    } else {
        plan_step(
            location_plan(music.drop_last(), found.drop_last()),
            music.last(),
            found.last(),
        )
    }
}

/// The music `m` once it is written where it is.
pub open spec fn relocated(m: MusicModel, u: LocationUpdateModel, now: i64) -> MusicModel {
    MusicModel {
        path: u.path,
        file_name: u.file_name,
        file_bookmark: Some(u.bookmark),
        album: u.album,
        album_source: u.album_source,
        updated_at: now,
        ..m
    }
}

/// The music once `u` is written.
pub open spec fn music_relocated(music: Seq<MusicModel>, u: LocationUpdateModel, now: i64) -> Seq<
    MusicModel,
> {
    Seq::new(
        music.len(),
        |i: int|
            if music[i].id == u.id {
                relocated(music[i], u, now)
            } else {
                music[i]
            },
    )
}

/// The music once the updates were written, one after the other; or that one of them
/// would have put two music at one path.
pub open spec fn locations_written(
    music: Seq<MusicModel>,
    updates: Seq<LocationUpdateModel>,
    now: i64,
) -> Result<Seq<MusicModel>, ErrorModel>
    decreases updates.len(),
{
    if updates.len() == 0 {
        Ok(music)
    } else if has_music(music, updates[0].id) && path_elsewhere(
        music,
        updates[0].id,
        updates[0].path,
    ) {
        Err(Failure::Write(Step::WriteLocation, Constraint::Unique(Key::MusicPath)))
    } else {
        locations_written(
            music_relocated(music, updates[0], now),
            updates.drop_first(),
            now,
        )
    }
}

/// The library once a plan was written, or why it was not.
pub open spec fn locations_result(l: LibraryModel, plan: LocationPlanModel, now: i64) -> Result<
    LibraryModel,
    ErrorModel,
> {
    if plan.updates.len() == 0 {
        Ok(l)
    } else {
        match locations_written(l.music, plan.updates, now) {
            Err(e) => Err(e),
            Ok(music) => Ok(
                LibraryModel { music, album_tags: albums_renamed(l.album_tags, plan.renames), ..l },
            ),
        }
    }
}

/// Once a music is written where it was found, to find it there again changes nothing.
pub proof fn law_location_is_settled_once_written(m: MusicModel, f: LocatedModel, now: i64)
    ensures
        !changes(relocated(m, moved(m, f), now), moved(relocated(m, moved(m, f), now), f)),
{
    let m2 = relocated(m, moved(m, f), now);
    reveal_strlit("folder");
    reveal_strlit("legacy");
    assert("folder"@.len() == 6);
    assert("folder"@[0] == 'f');
    assert("legacy"@[0] == 'l');
    assert("folder"@ != "legacy"@);
    assert(source_now(m2) == source_now(m));
    assert(kept_bookmark(m2) == moved(m, f).bookmark);
}

/// The music `m` once the library was brought up to date: written where it was found, if that
/// says anything new, and else as it was.
pub open spec fn settled(m: MusicModel, f: Option<LocatedModel>, now: i64) -> MusicModel {
    match f {
        Some(x) => if changes(m, moved(m, x)) {
            relocated(m, moved(m, x), now)
        } else {
            m
        },
        None => m,
    }
}

/// All music once the library was brought up to date.
pub open spec fn all_settled(
    music: Seq<MusicModel>,
    found: Seq<Option<LocatedModel>>,
    now: i64,
) -> Seq<MusicModel> {
    Seq::new(music.len(), |i: int| settled(music[i], found[i], now))
}

/// How many rows differ, in what `differs` looks at, from what they were.
pub open spec fn rows_changed(
    before: Seq<MusicModel>,
    after: Seq<MusicModel>,
    differs: spec_fn(MusicModel, MusicModel) -> bool,
) -> nat
    decreases before.len(),
{
    if before.len() == 0 || before.len() != after.len() {
        0
    } else {
        rows_changed(before.drop_last(), after.drop_last(), differs) + if differs(
            before.last(),
            after.last(),
        ) {
            1nat
        } else {
            0
        }
    }
}

/// Standing at another path.
pub open spec fn path_differs() -> spec_fn(MusicModel, MusicModel) -> bool {
    |a: MusicModel, b: MusicModel| a.path != b.path
}

/// Standing in another album.
pub open spec fn album_differs() -> spec_fn(MusicModel, MusicModel) -> bool {
    |a: MusicModel, b: MusicModel| a.album != b.album
}

/// Once a library was brought up to date, every music that was found stands as what was found
/// says, every other is unchanged, and so is all but the album tags; the counts are those of
/// the rows at other paths and in other albums; and to find everything there again changes
/// nothing.
pub proof fn law_sync_settles_the_library(
    l: LibraryModel,
    found: Seq<Option<LocatedModel>>,
    now: i64,
)
    requires
        l.wf(),
        found.len() == l.music.len(),
        locations_result(l, location_plan(l.music, found), now) is Ok,
    ensures
        ({
            let plan = location_plan(l.music, found);
            let after = locations_result(l, plan, now)->Ok_0;
            let again = location_plan(after.music, found);
            &&& after == (LibraryModel {
                music: all_settled(l.music, found, now),
                album_tags: albums_renamed(l.album_tags, plan.renames),
                ..l
            })
            &&& plan.updated_paths == rows_changed(l.music, after.music, path_differs())
            &&& plan.updated_albums == rows_changed(l.music, after.music, album_differs())
            &&& again.updates.len() == 0
            &&& again.updated_paths == 0
            &&& again.updated_albums == 0
            &&& locations_result(after, again, now) == Ok::<LibraryModel, ErrorModel>(after)
        }),
{
    let plan = location_plan(l.music, found);
    let after = all_settled(l.music, found, now);
    lemma_plan_updates(l.music, found);
    lemma_updates_written(l.music, plan.updates, now);
    assert forall|i: int| 0 <= i < l.music.len() implies #[trigger] after[i] == updated(
        l.music[i],
        plan.updates,
        now,
    ) by {
        lemma_plan_update_of(l.music, found, i);
    }
    assert(locations_written(l.music, plan.updates, now)->Ok_0 =~= after);
    lemma_counts(l.music, found, now);
    lemma_nothing_is_left(l.music, found, now);
    law_plan_counts_what_it_writes(l.music, found);
}

/// What is to be written of the music `id`, if anything is.
pub open spec fn update_of(updates: Seq<LocationUpdateModel>, id: Seq<char>) -> Option<LocationUpdateModel>
    decreases updates.len(),
{
    if updates.len() == 0 {
        None
    } else if updates[0].id == id {
        Some(updates[0])
    } else {
        update_of(updates.drop_first(), id)
    }
}

/// The music `m` once what is to be written of it is.
pub open spec fn updated(m: MusicModel, updates: Seq<LocationUpdateModel>, now: i64) -> MusicModel {
    match update_of(updates, m.id) {
        Some(u) => relocated(m, u, now),
        None => m,
    }
}

/// No two updates are of the same music.
pub open spec fn updates_distinct(updates: Seq<LocationUpdateModel>) -> bool {
    forall|i: int, j: int|
        0 <= i < j < updates.len() ==> (#[trigger] updates[i]).id != (#[trigger] updates[j]).id
}

/// Nothing is to be written of a music that no update is of.
proof fn lemma_no_update(updates: Seq<LocationUpdateModel>, id: Seq<char>)
    requires
        forall|i: int| 0 <= i < updates.len() ==> (#[trigger] updates[i]).id != id,
    ensures
        update_of(updates, id) is None,
    decreases updates.len(),
{
    if updates.len() > 0 {
        let rest = updates.drop_first();
        assert forall|i: int| 0 <= i < rest.len() implies (#[trigger] rest[i]).id != id by {
            assert(updates[i + 1].id != id);
        }
        lemma_no_update(rest, id);
    }
}

/// One more update is of its own music only.
proof fn lemma_one_more_update(
    updates: Seq<LocationUpdateModel>,
    u: LocationUpdateModel,
    id: Seq<char>,
)
    ensures
        update_of(updates.push(u), id) == match update_of(updates, id) {
            Some(v) => Some(v),
            None => if u.id == id {
                Some(u)
            } else {
                None
            },
        },
    decreases updates.len(),
{
    reveal_with_fuel(update_of, 2);
    let all = updates.push(u);
    if updates.len() > 0 {
        assert(all.drop_first() =~= updates.drop_first().push(u));
        lemma_one_more_update(updates.drop_first(), u, id);
    } else {
        assert(all.drop_first() =~= Seq::empty());
    }
}

/// What is written of every music is what is to be.
proof fn lemma_updates_written(
    music: Seq<MusicModel>,
    updates: Seq<LocationUpdateModel>,
    now: i64,
)
    requires
        updates_distinct(updates),
        locations_written(music, updates, now) is Ok,
    ensures
        (locations_written(music, updates, now)->Ok_0).len() == music.len(),
        forall|i: int|
            0 <= i < music.len() ==> #[trigger] (locations_written(music, updates, now)->Ok_0)[i]
                == updated(music[i], updates, now),
    decreases updates.len(),
{
    if updates.len() > 0 {
        let rest = updates.drop_first();
        let next = music_relocated(music, updates[0], now);
        assert forall|i: int, j: int| 0 <= i < j < rest.len() implies (#[trigger] rest[i]).id != (
        #[trigger] rest[j]).id by {
            assert(updates[i + 1].id != updates[j + 1].id);
        }
        assert forall|i: int| 0 <= i < rest.len() implies (#[trigger] rest[i]).id
            != updates[0].id by {
            assert(updates[0].id != updates[i + 1].id);
        }
        lemma_no_update(rest, updates[0].id);
        lemma_updates_written(next, rest, now);
        let after = locations_written(music, updates, now)->Ok_0;
        assert forall|i: int| 0 <= i < music.len() implies #[trigger] after[i] == updated(
            music[i],
            updates,
            now,
        ) by {
            assert(after[i] == updated(next[i], rest, now));
        }
    }
}

/// A plan says one thing of a music at most, and speaks of music that is there.
pub proof fn lemma_plan_updates(music: Seq<MusicModel>, found: Seq<Option<LocatedModel>>)
    requires
        music_keys(music),
        found.len() == music.len(),
    ensures
        updates_distinct(location_plan(music, found).updates),
        forall|k: int|
            0 <= k < location_plan(music, found).updates.len() ==> has_music(
                music,
                (#[trigger] location_plan(music, found).updates[k]).id,
            ),
    decreases music.len(),
{
    if music.len() > 0 {
        let (m, f) = (music.drop_last(), found.drop_last());
        let before = location_plan(m, f).updates;
        let all = location_plan(music, found).updates;
        assert(music_keys(m)) by {
            assert forall|i: int, j: int| 0 <= i < j < m.len() implies (#[trigger] m[i]).id != (
            #[trigger] m[j]).id by {
                assert(music[i].id != music[j].id);
            }
            assert forall|i: int| 0 <= i < m.len() implies (#[trigger] m[i]).file_size
                <= i64::MAX by {
                assert(music[i].file_size <= i64::MAX);
            }
        }
        lemma_plan_updates(m, f);
        assert forall|k: int| 0 <= k < before.len() implies has_music(
            music,
            (#[trigger] before[k]).id,
        ) && before[k].id != music.last().id by {
            assert(has_music(m, before[k].id));
            let i = choose|i: int| 0 <= i < m.len() && #[trigger] m[i].id == before[k].id;
            assert(music[i].id == before[k].id);
            assert(music[i].id != music[music.len() - 1].id);
        }
        assert forall|k: int| 0 <= k < all.len() implies has_music(
            music,
            (#[trigger] all[k]).id,
        ) by {
            if k < before.len() {
                assert(all[k] == before[k]);
            } else {
                assert(music[music.len() - 1].id == all[k].id);
            }
        }
        assert forall|i: int, j: int| 0 <= i < j < all.len() implies (#[trigger] all[i]).id != (
        #[trigger] all[j]).id by {
            if j < before.len() {
                assert(before[i].id != before[j].id);
            } else {
                assert(before[i].id != music.last().id);
            }
        }
    }
}

/// What a plan says of a music: where it was found, if that is anything new.
pub proof fn lemma_plan_update_of(
    music: Seq<MusicModel>,
    found: Seq<Option<LocatedModel>>,
    i: int,
)
    requires
        music_keys(music),
        found.len() == music.len(),
        0 <= i < music.len(),
    ensures
        update_of(location_plan(music, found).updates, music[i].id) == match found[i] {
            Some(x) => if changes(music[i], moved(music[i], x)) {
                Some(moved(music[i], x))
            } else {
                None
            },
            None => None,
        },
    decreases music.len(),
{
    let (m, f) = (music.drop_last(), found.drop_last());
    let before = location_plan(m, f).updates;
    assert forall|a: int, b: int| 0 <= a < b < m.len() implies (#[trigger] m[a]).id != (
    #[trigger] m[b]).id by {
        assert(music[a].id != music[b].id);
    }
    assert forall|a: int| 0 <= a < m.len() implies (#[trigger] m[a]).file_size <= i64::MAX by {
        assert(music[a].file_size <= i64::MAX);
    }
    if let Some(x) = found.last() {
        lemma_one_more_update(before, moved(music.last(), x), music[i].id);
    }
    if i < m.len() {
        lemma_plan_update_of(m, f, i);
        assert(m[i] == music[i] && f[i] == found[i]);
        assert(music[i].id != music[music.len() - 1].id);
    } else {
        lemma_plan_updates(m, f);
        assert forall|k: int| 0 <= k < before.len() implies (#[trigger] before[k]).id
            != music[i].id by {
            let a = choose|a: int| 0 <= a < m.len() && #[trigger] m[a].id == before[k].id;
            assert(music[a].id != music[i].id);
        }
        lemma_no_update(before, music[i].id);
    }
}

/// The music before the last, once the library was brought up to date.
proof fn lemma_settled_but_last(
    music: Seq<MusicModel>,
    found: Seq<Option<LocatedModel>>,
    now: i64,
)
    requires
        music.len() > 0,
        found.len() == music.len(),
    ensures
        all_settled(music, found, now).drop_last() == all_settled(
            music.drop_last(),
            found.drop_last(),
            now,
        ),
        all_settled(music, found, now).last() == settled(music.last(), found.last(), now),
{
    assert(all_settled(music, found, now).drop_last() =~= all_settled(
        music.drop_last(),
        found.drop_last(),
        now,
    ));
}

/// A plan counts the rows that change.
proof fn lemma_counts(music: Seq<MusicModel>, found: Seq<Option<LocatedModel>>, now: i64)
    requires
        found.len() == music.len(),
    ensures
        location_plan(music, found).updated_paths == rows_changed(
            music,
            all_settled(music, found, now),
            path_differs(),
        ),
        location_plan(music, found).updated_albums == rows_changed(
            music,
            all_settled(music, found, now),
            album_differs(),
        ),
    decreases music.len(),
{
    if music.len() > 0 {
        lemma_counts(music.drop_last(), found.drop_last(), now);
        lemma_settled_but_last(music, found, now);
    }
}

/// Nothing is left to be written once a library was brought up to date.
proof fn lemma_nothing_is_left(
    music: Seq<MusicModel>,
    found: Seq<Option<LocatedModel>>,
    now: i64,
)
    requires
        found.len() == music.len(),
    ensures
        location_plan(all_settled(music, found, now), found).updates.len() == 0,
        location_plan(all_settled(music, found, now), found).updated_paths == 0,
        location_plan(all_settled(music, found, now), found).updated_albums == 0,
    decreases music.len(),
{
    if music.len() > 0 {
        lemma_nothing_is_left(music.drop_last(), found.drop_last(), now);
        lemma_settled_but_last(music, found, now);
        if let Some(x) = found.last() {
            law_location_is_settled_once_written(music.last(), x, now);
        }
    }
}

/// An album whose source was chosen stays the album of its music wherever the file goes.
pub proof fn law_chosen_album_stays(m: MusicModel, f: LocatedModel)
    requires
        source_now(m) != "folder"@,
    ensures
        moved(m, f).album == m.album,
        moved(m, f).album_source == m.album_source,
{
}

/// A plan counts at most one path and one album for each music written, and renames an
/// album only where music changed album, and only once.
pub proof fn law_plan_counts_what_it_writes(
    music: Seq<MusicModel>,
    found: Seq<Option<LocatedModel>>,
)
    ensures
        location_plan(music, found).updated_paths <= location_plan(music, found).updates.len(),
        location_plan(music, found).updated_albums <= location_plan(music, found).updates.len(),
        location_plan(music, found).updates.len() <= music.len(),
        renames_distinct(location_plan(music, found).renames),
        location_plan(music, found).updated_albums == 0 ==> location_plan(
            music,
            found,
        ).renames.len() == 0,
    decreases music.len(),
{
    if music.len() > 0 && music.len() == found.len() {
        law_plan_counts_what_it_writes(music.drop_last(), found.drop_last());
        let p = location_plan(music.drop_last(), found.drop_last());
        if let Some(x) = found.last() {
            let u = moved(music.last(), x);
            lemma_with_rename(p.renames, music.last().album, u.album);
        }
    }
}

proof fn lemma_with_rename(renames: Seq<AlbumRenameModel>, from: Seq<char>, to: Seq<char>)
    requires
        renames_distinct(renames),
    ensures
        renames_distinct(with_rename(renames, from, to)),
        forall|i: int|
            0 <= i < with_rename(renames, from, to).len() ==> (#[trigger] with_rename(
                renames,
                from,
                to,
            )[i]).from == from || exists|k: int|
                0 <= k < renames.len() && (#[trigger] renames[k]).from == with_rename(
                    renames,
                    from,
                    to,
                )[i].from,
    decreases renames.len(),
{
    if renames.len() > 0 {
        let rest = renames.drop_first();
        let after = with_rename(renames, from, to);
        assert forall|i: int, j: int| 0 <= i < j < rest.len() implies (#[trigger] rest[i]).from != (
        #[trigger] rest[j]).from by {
            assert(renames[i + 1].from != renames[j + 1].from);
        }
        if renames[0].from == from {
            assert forall|i: int, j: int| 0 <= i < j < after.len() implies (
            #[trigger] after[i]).from != (#[trigger] after[j]).from by {
                assert(renames[i].from != renames[j].from);
            }
            assert forall|i: int| 0 <= i < after.len() implies (#[trigger] after[i]).from == from
                || exists|k: int|
                0 <= k < renames.len() && (#[trigger] renames[k]).from == after[i].from by {
                assert(renames[i].from == after[i].from);
            }
        } else {
            lemma_with_rename(rest, from, to);
            let tail = with_rename(rest, from, to);
            assert forall|i: int| 0 <= i < tail.len() implies (#[trigger] tail[i]).from
                != renames[0].from && (tail[i].from == from || exists|k: int|
                0 <= k < renames.len() && (#[trigger] renames[k]).from == tail[i].from) by {
                if tail[i].from != from {
                    let k = choose|k: int|
                        0 <= k < rest.len() && (#[trigger] rest[k]).from == tail[i].from;
                    assert(renames[k + 1].from == tail[i].from);
                    assert(renames[0].from != renames[k + 1].from);
                }
            }
            assert forall|i: int, j: int| 0 <= i < j < after.len() implies (
            #[trigger] after[i]).from != (#[trigger] after[j]).from by {
                if i == 0 {
                    assert(tail[j - 1].from != renames[0].from);
                } else {
                    assert(tail[i - 1].from != tail[j - 1].from);
                }
            }
            assert forall|i: int| 0 <= i < after.len() implies (#[trigger] after[i]).from == from
                || exists|k: int|
                0 <= k < renames.len() && (#[trigger] renames[k]).from == after[i].from by {
                if i == 0 {
                    assert(renames[0].from == after[0].from);
                } else {
                    assert(after[i] == tail[i - 1]);
                }
            }
        }
    }
}

pub proof fn lemma_music_relocated(music: Seq<MusicModel>, u: LocationUpdateModel, now: i64)
    requires
        music_wf(music),
        has_music(music, u.id) ==> !path_elsewhere(music, u.id, u.path),
    ensures
        music_wf(music_relocated(music, u, now)),
        forall|id: Seq<char>| #[trigger]
            has_music(music, id) <==> has_music(music_relocated(music, u, now), id),
{
    let after = music_relocated(music, u, now);
    assert forall|id: Seq<char>| #[trigger] has_music(music, id) <==> has_music(after, id) by {
        if has_music(music, id) {
            let i = choose|i: int| 0 <= i < music.len() && #[trigger] music[i].id == id;
            assert(after[i].id == id);
        }
        if has_music(after, id) {
            let i = choose|i: int| 0 <= i < after.len() && #[trigger] after[i].id == id;
            assert(music[i].id == id);
        }
    }
    assert forall|i: int, j: int| 0 <= i < j < after.len() implies (#[trigger] after[i]).id != (
    #[trigger] after[j]).id && after[i].path != after[j].path by {
        assert(music[i].id != music[j].id);
        assert(music[i].path != music[j].path);
    }
    assert forall|i: int| 0 <= i < after.len() implies (#[trigger] after[i]).file_size
        <= i64::MAX by {
        assert(music[i].file_size <= i64::MAX);
    }
}

pub proof fn lemma_locations_written(
    music: Seq<MusicModel>,
    updates: Seq<LocationUpdateModel>,
    now: i64,
)
    requires
        music_wf(music),
        locations_written(music, updates, now) is Ok,
    ensures
        music_wf(locations_written(music, updates, now)->Ok_0),
        forall|id: Seq<char>| #[trigger]
            has_music(music, id) <==> has_music(
                locations_written(music, updates, now)->Ok_0,
                id,
            ),
    decreases updates.len(),
{
    if updates.len() > 0 {
        let next = music_relocated(music, updates[0], now);
        lemma_music_relocated(music, updates[0], now);
        lemma_locations_written(next, updates.drop_first(), now);
        assert forall|id: Seq<char>| #[trigger] has_music(music, id) <==> has_music(
            locations_written(music, updates, now)->Ok_0,
            id,
        ) by {
            assert(has_music(music, id) <==> has_music(next, id));
        }
    }
}

/// Once places were written the tables are in order, and every music, clip, tag and
/// candidate is there still.
pub proof fn law_location_sync_keeps_the_library(
    l: LibraryModel,
    plan: LocationPlanModel,
    now: i64,
)
    requires
        l.wf(),
        locations_result(l, plan, now) is Ok,
    ensures
        ({
            let r = locations_result(l, plan, now)->Ok_0;
            &&& r.wf()
            &&& r.catalog == l.catalog
            &&& r.clips == l.clips
            &&& r.candidates == l.candidates
            &&& r.music_tags == l.music_tags
            &&& r.clip_tags == l.clip_tags
            &&& l.candidates_alive() ==> r.candidates_alive()
            &&& forall|id: Seq<char>| #[trigger]
                has_music(l.music, id) <==> has_music(r.music, id)
        }),
{
    let r = locations_result(l, plan, now)->Ok_0;
    if plan.updates.len() > 0 {
        lemma_locations_written(l.music, plan.updates, now);
        lemma_albums_renamed(l.catalog.tags, l.album_tags, plan.renames);
        assert forall|i: int| 0 <= i < r.clips.len() implies has_music(
            r.music,
            (#[trigger] r.clips[i]).music_id,
        ) by {
            assert(has_music(l.music, l.clips[i].music_id));
        }
        assert forall|i: int| 0 <= i < r.music_tags.len() implies has_music(
            r.music,
            (#[trigger] r.music_tags[i]).owner,
        ) by {
            assert(has_music(l.music, l.music_tags[i].owner));
        }
        if l.candidates_alive() {
            assert forall|i: int| 0 <= i < r.candidates.len() implies is_alive(
                r,
                #[trigger] r.candidates[i],
            ) by {
                assert(is_alive(l, l.candidates[i]));
            }
        }
    }
}

/// Notes that the album `from` is now named `to`.
fn note_rename(renames: &mut Vec<AlbumRename>, from: &str, to: &str)
    ensures
        models(final(renames)@) == with_rename(models(old(renames)@), from@, to@),
        final(renames)@.len() <= old(renames)@.len() + 1,
{
    let ghost m = models(renames@);
    let ghost all = with_rename(m, from@, to@);
    let mut k: usize = 0;
    proof {
        assert(m.skip(0) =~= m);
        assert(m.take(0) + all =~= all);
    }
    while k < renames.len()
        invariant
            k <= renames@.len(),
            m == models(renames@),
            m == models(old(renames)@),
            renames@.len() == old(renames)@.len(),
            all == with_rename(m, from@, to@),
            all == m.take(k as int) + with_rename(m.skip(k as int), from@, to@),
        decreases renames@.len() - k,
    {
        let ghost rest = m.skip(k as int);
        proof {
            assert(rest[0] == m[k as int]);
            assert(rest.drop_first() =~= m.skip(k + 1));
        }
        if same_text(renames[k].from.as_str(), from) {
            let rename = AlbumRename { from: from.to_string(), to: to.to_string() };
            renames.set(k, rename);
            proof {
                assert(models(renames@) =~= all);
            }
            return;
        }
        proof {
            assert(all =~= m.take(k + 1) + with_rename(m.skip(k + 1), from@, to@));
        }
        k = k + 1;
    }
    let rename = AlbumRename { from: from.to_string(), to: to.to_string() };
    renames.push(rename);
    proof {
        assert(m.take(k as int) =~= m);
        assert(m.skip(k as int) =~= Seq::empty());
        assert(models(renames@) =~= all);
    }
}

/// What is so of the place of a music whose file was found.
fn place_now(row: &MusicRow, found: &Located) -> (u: LocationUpdate)
    ensures
        u@ == moved(row@, found@),
{
    let source = if same_text(row.album_source.as_str(), "legacy")
        || row.album_source.as_str().is_empty() {
        "folder".to_string()
    } else {
        row.album_source.clone()
    };
    let album = if same_text(source.as_str(), "folder") {
        found.folder_album.clone()
    } else {
        row.album.clone()
    };
    let kept: Vec<u8> = match &row.file_bookmark {
        Some(b) => b.clone(),
        None => Vec::new(),
    };
    let bookmark = if needs_bookmark(row, found.path.as_str()) {
        match &found.bookmark {
            Some(b) => b.clone(),
            None => kept,
        }
    } else {
        kept
    };
    LocationUpdate {
        id: row.id.clone(),
        path: found.path.clone(),
        file_name: found.file_name.clone(),
        bookmark,
        album,
        album_source: source,
    }
}

/// Whether two byte strings are the same.
fn same_bytes(a: &Vec<u8>, b: &Vec<u8>) -> (r: bool)
    ensures
        r == (a@ == b@),
{
    if a.len() != b.len() {
        return false;
    }
    let mut i: usize = 0;
    while i < a.len()
        invariant
            i <= a@.len(),
            a@.len() == b@.len(),
            forall|j: int| 0 <= j < i ==> a@[j] == b@[j],
        decreases a@.len() - i,
    {
        if a[i] != b[i] {
            return false;
        }
        i = i + 1;
    }
    proof {
        assert(a@ =~= b@);
    }
    true
}

/// Whether `u` says of the place of a music anything but what is written.
fn differs(row: &MusicRow, u: &LocationUpdate) -> (b: bool)
    ensures
        b == changes(row@, u@),
{
    let bookmark_differs: bool = match &row.file_bookmark {
        Some(b) => !same_bytes(&u.bookmark, b),
        None => {
            proof {
                if u@.bookmark.len() == 0 {
                    assert(u@.bookmark =~= kept_bookmark(row@));
                }
            }
            u.bookmark.len() > 0
        },
    };
    !same_text(u.path.as_str(), row.path.as_str()) || !same_text(
        u.album.as_str(),
        row.album.as_str(),
    ) || !same_text(u.album_source.as_str(), row.album_source.as_str()) || bookmark_differs
}

/// Decides what is to be written about the music `music`, found as `found` says.
pub fn plan_locations(music: &Vec<MusicRow>, found: &Vec<Option<Located>>) -> (r: LocationPlan)
    requires
        music@.len() == found@.len(),
    ensures
        r@ == location_plan(models(music@), found_models(found@)),
{
    let ghost m = models(music@);
    let ghost f = found_models(found@);
    let mut updates: Vec<LocationUpdate> = Vec::new();
    let mut renames: Vec<AlbumRename> = Vec::new();
    let mut updated_paths: usize = 0;
    let mut updated_albums: usize = 0;
    let mut i: usize = 0;
    proof {
        assert(models(updates@) =~= Seq::empty());
        assert(models(renames@) =~= Seq::empty());
    }
    while i < music.len()
        invariant
            i <= music@.len(),
            music@.len() == found@.len(),
            m == models(music@),
            f == found_models(found@),
            updated_paths <= i,
            updated_albums <= i,
            (LocationPlanModel {
                updates: models(updates@),
                renames: models(renames@),
                updated_paths: updated_paths as nat,
                updated_albums: updated_albums as nat,
            }) == location_plan(m.take(i as int), f.take(i as int)),
        decreases music@.len() - i,
    {
        proof {
            assert(m.take(i + 1).drop_last() =~= m.take(i as int));
            assert(f.take(i + 1).drop_last() =~= f.take(i as int));
            assert(m.take(i + 1).last() == m[i as int]);
            assert(f.take(i + 1).last() == f[i as int]);
        }
        match &found[i] {
            None => {},
            Some(x) => {
                let u = place_now(&music[i], x);
                if differs(&music[i], &u) {
                    if !same_text(u.path.as_str(), music[i].path.as_str()) {
                        updated_paths = updated_paths + 1;
                    }
                    if !same_text(u.album.as_str(), music[i].album.as_str()) {
                        updated_albums = updated_albums + 1;
                        note_rename(&mut renames, music[i].album.as_str(), u.album.as_str());
                    }
                    let ghost before = models(updates@);
                    let ghost v = u@;
                    updates.push(u);
                    proof {
                        assert(models(updates@) =~= before.push(v));
                    }
                }
            },
        }
        i = i + 1;
    }
    proof {
        assert(m.take(m.len() as int) =~= m);
        assert(f.take(f.len() as int) =~= f);
    }
    LocationPlan { updates, renames, result: LocationSyncResult { updated_paths, updated_albums } }
}

impl Library {
    /// Writes the places of music as a plan says, and lets the tags of albums follow
    /// them to their new names.
    pub fn sync_library_locations(&mut self, plan: LocationPlan, now: i64) -> (r: Result<
        LocationSyncResult,
        LibraryError,
    >)
        requires
            old(self)@.wf(),
        ensures
            final(self)@.wf(),
            match locations_result(old(self)@, plan@, now) {
                Ok(l) => r == Ok::<LocationSyncResult, LibraryError>(plan.result) && final(self)@
                    == l,
                Err(e) => outcome(r) == Err::<LocationSyncResult, ErrorModel>(e) && final(self)@
                    == old(self)@,
            },
    {
        if plan.updates.len() == 0 {
            return Ok(plan.result);
        }
        let ghost before = self@;
        let ghost updates = models(plan.updates@);
        let ghost all = locations_written(before.music, updates, now);
        let mut next = Library {
            catalog: self.catalog.clone(),
            music: self.copy_music(),
            duration_column: self.duration_column,
            clips: Vec::new(),
            candidates: Vec::new(),
            music_tags: Vec::new(),
            clip_tags: Vec::new(),
            album_tags: Vec::new(),
        };
        let mut i: usize = 0;
        proof {
            assert(updates.skip(0) =~= updates);
        }
        while i < plan.updates.len()
            invariant
                i <= plan.updates@.len(),
                updates == models(plan.updates@),
                self@ == old(self)@,
                self@ == before,
                before.wf(),
                plan.updates@.len() > 0,
                music_wf(next@.music),
                all == locations_written(before.music, updates, now),
                all == locations_written(next@.music, updates.skip(i as int), now),
            decreases plan.updates@.len() - i,
        {
            let ghost u = updates[i as int];
            proof {
                assert(updates.skip(i as int).drop_first() =~= updates.skip(i + 1));
                assert(updates.skip(i as int)[0] == u);
            }
            let id = plan.updates[i].id.as_str();
            let at = next.music_index(id);
            if at.is_some() && next.path_in_use(id, plan.updates[i].path.as_str()) {
                proof {
                    assert(has_music(next@.music, u.id));
                }
                return Err(Failure::Write(Step::WriteLocation, Constraint::Unique(Key::MusicPath)));
            }
            let ghost music = next@.music;
            proof {
                assert(at is Some ==> has_music(music, u.id));
                lemma_music_relocated(music, u, now);
            }
            match at {
                Some(k) => {
                    let mut row = next.music[k].clone();
                    row.path = plan.updates[i].path.clone();
                    row.file_name = plan.updates[i].file_name.clone();
                    row.file_bookmark = Some(plan.updates[i].bookmark.clone());
                    row.album = plan.updates[i].album.clone();
                    row.album_source = plan.updates[i].album_source.clone();
                    row.updated_at = now;
                    proof {
                        assert(row@ == relocated(music[k as int], u, now));
                    }
                    next.music.set(k, row);
                    proof {
                        let after = music_relocated(music, u, now);
                        assert forall|j: int| 0 <= j < after.len() implies models(next.music@)[j]
                            == after[j] by {
                            if j < k {
                                assert(music[j].id != music[k as int].id);
                            } else if k < j {
                                assert(music[k as int].id != music[j].id);
                            }
                        }
                        assert(next@.music =~= after);
                    }
                },
                None => {
                    proof {
                        assert(music_relocated(music, u, now) =~= music);
                    }
                },
            }
            i = i + 1;
        }
        proof {
            law_location_sync_keeps_the_library(before, plan@, now);
        }
        self.music = next.music;
        apply_album_renames(&mut self.album_tags, &plan.renames);
        Ok(plan.result)
    }
}

} // verus!

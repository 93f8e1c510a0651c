//! The tables of the library: music and clips, the tags they carry, and the candidates
//! picked from them.
use vstd::prelude::*;

use crate::catalog::aligned;
use crate::catalog::has_tag;
use crate::catalog::models;
use crate::catalog::Catalog;
use crate::catalog::CatalogModel;
use crate::catalog::TagModel;
use crate::failure::outcome;
use crate::failure::ErrorModel;
use crate::failure::LibraryError;
use crate::links::law_sync_by_id;
use crate::links::law_sync_by_name;
use crate::links::lemma_filter_twice;
use crate::links::lemma_link_ids;
use crate::links::lemma_link_names;
use crate::links::lemma_links_filter;
use crate::links::link_ids;
use crate::links::links_wf;
use crate::links::named_among;
use crate::links::only_new_names;
use crate::links::other_owner;
use crate::links::sync_tag_ids;
use crate::links::sync_tag_ids_result;
use crate::links::sync_tags;
use crate::links::sync_tags_result;
use crate::links::targets_exist;
use crate::links::LinkModel;
use crate::links::LinkRow;
use crate::links::SyncModel;
use crate::seconds::valid_range;
use crate::seconds::Seconds;
use crate::text::same_text;

verus! {

/// A music file of the library.
pub struct MusicRow {
    pub id: String,
    pub name: String,
    pub file_name: String,
    pub path: String,
    pub album: String,
    pub album_source: String,
    pub artist: String,
    pub genre: String,
    pub year: String,
    pub channels: String,
    pub sample_rate: u32,
    pub bitrate: u32,
    pub duration: Seconds,
    pub file_size: u64,
    pub mime_type: String,
    pub cover_art: String,
    pub created_at: i64,
    pub updated_at: i64,
    pub file_bookmark: Option<Vec<u8>>,
}

/// A music file of the library, mathematically.
pub struct MusicModel {
    pub id: Seq<char>,
    pub name: Seq<char>,
    pub file_name: Seq<char>,
    pub path: Seq<char>,
    pub album: Seq<char>,
    pub album_source: Seq<char>,
    pub artist: Seq<char>,
    pub genre: Seq<char>,
    pub year: Seq<char>,
    pub channels: Seq<char>,
    pub sample_rate: u32,
    pub bitrate: u32,
    pub duration: Seconds,
    pub file_size: u64,
    pub mime_type: Seq<char>,
    pub cover_art: Seq<char>,
    pub created_at: i64,
    pub updated_at: i64,
    pub file_bookmark: Option<Seq<u8>>,
}

/// The bytes of a bookmark, if there is one.
pub open spec fn bookmark_model(b: Option<Vec<u8>>) -> Option<Seq<u8>> {
    match b {
        Some(v) => Some(v@),
        None => None,
    }
}

impl View for MusicRow {
    type V = MusicModel;

    open spec fn view(&self) -> MusicModel {
        MusicModel {
            id: self.id@,
            name: self.name@,
            file_name: self.file_name@,
            path: self.path@,
            album: self.album@,
            album_source: self.album_source@,
            artist: self.artist@,
            genre: self.genre@,
            year: self.year@,
            channels: self.channels@,
            sample_rate: self.sample_rate,
            bitrate: self.bitrate,
            duration: self.duration,
            file_size: self.file_size,
            mime_type: self.mime_type@,
            cover_art: self.cover_art@,
            created_at: self.created_at,
            updated_at: self.updated_at,
            file_bookmark: bookmark_model(self.file_bookmark),
        }
    }
}

impl Clone for MusicRow {
    fn clone(&self) -> (r: Self)
        ensures
            r@ == self@,
    {
        MusicRow {
            id: self.id.clone(),
            name: self.name.clone(),
            file_name: self.file_name.clone(),
            path: self.path.clone(),
            album: self.album.clone(),
            album_source: self.album_source.clone(),
            artist: self.artist.clone(),
            genre: self.genre.clone(),
            year: self.year.clone(),
            channels: self.channels.clone(),
            sample_rate: self.sample_rate,
            bitrate: self.bitrate,
            duration: self.duration,
            file_size: self.file_size,
            mime_type: self.mime_type.clone(),
            cover_art: self.cover_art.clone(),
            created_at: self.created_at,
            updated_at: self.updated_at,
            file_bookmark: match &self.file_bookmark {
                Some(v) => Some(v.clone()),
                None => None,
            },
        }
    }
}

/// What a caller hands over to create or change a music.
pub struct MusicInput {
    pub id: String,
    pub name: String,
    pub file_name: String,
    pub path: String,
    pub album: String,
    pub album_source: String,
    pub artist: String,
    pub genre: String,
    pub year: String,
    pub channels: String,
    pub sample_rate: u32,
    pub bitrate: u32,
    pub duration: Seconds,
    pub file_size: u64,
    pub mime_type: String,
    pub cover_art: String,
    pub created_at: i64,
    pub updated_at: i64,
    pub tags: Vec<String>,
    pub tag_ids: Option<Vec<i64>>,
    pub new_tags: Vec<String>,
}

/// The tags that a caller asks for: by identifier, with further names, where `tag_ids`
/// is given; else by name.
pub struct TagWish {
    pub tags: Seq<Seq<char>>,
    pub tag_ids: Option<Seq<i64>>,
    pub new_tags: Seq<Seq<char>>,
}

/// The tags asked for by `tags`, `tag_ids` and `new_tags`.
pub open spec fn wish(tags: Vec<String>, tag_ids: Option<Vec<i64>>, new_tags: Vec<String>) -> TagWish {
    TagWish {
        tags: models(tags@),
        tag_ids: match tag_ids {
            Some(v) => Some(v@),
            None => None,
        },
        new_tags: models(new_tags@),
    }
}

impl MusicInput {
    /// The music that this describes, with the bookmark given.
    pub open spec fn music(self, file_bookmark: Option<Seq<u8>>) -> MusicModel {
        MusicModel {
            id: self.id@,
            name: self.name@,
            file_name: self.file_name@,
            path: self.path@,
            album: self.album@,
            album_source: self.album_source@,
            artist: self.artist@,
            genre: self.genre@,
            year: self.year@,
            channels: self.channels@,
            sample_rate: self.sample_rate,
            bitrate: self.bitrate,
            duration: self.duration,
            file_size: self.file_size,
            mime_type: self.mime_type@,
            cover_art: self.cover_art@,
            created_at: self.created_at,
            updated_at: self.updated_at,
            file_bookmark,
        }
    }

    /// The tags that this asks for.
    pub open spec fn wish(self) -> TagWish {
        wish(self.tags, self.tag_ids, self.new_tags)
    }

    /// The row for the music that this describes.
    pub fn row(&self, bookmark: Vec<u8>) -> (r: MusicRow)
        ensures
            r@ == self.music(Some(bookmark@)),
    {
        MusicRow {
            id: self.id.clone(),
            name: self.name.clone(),
            file_name: self.file_name.clone(),
            path: self.path.clone(),
            album: self.album.clone(),
            album_source: self.album_source.clone(),
            artist: self.artist.clone(),
            genre: self.genre.clone(),
            year: self.year.clone(),
            channels: self.channels.clone(),
            sample_rate: self.sample_rate,
            bitrate: self.bitrate,
            duration: self.duration,
            file_size: self.file_size,
            mime_type: self.mime_type.clone(),
            cover_art: self.cover_art.clone(),
            created_at: self.created_at,
            updated_at: self.updated_at,
            file_bookmark: Some(bookmark),
        }
    }
}

/// A music as it is handed out, with the tags that it carries.
pub struct Music {
    pub id: String,
    pub name: String,
    pub file_name: String,
    pub path: String,
    pub album: String,
    pub album_source: String,
    pub artist: String,
    pub genre: String,
    pub year: String,
    pub channels: String,
    pub sample_rate: u32,
    pub bitrate: u32,
    pub duration: Seconds,
    pub file_size: u64,
    pub mime_type: String,
    pub cover_art: String,
    pub created_at: i64,
    pub updated_at: i64,
    pub tags: Vec<String>,
    pub tag_ids: Vec<i64>,
}

impl Music {
    /// The music that this describes; a bookmark is not handed out.
    pub open spec fn music(self) -> MusicModel {
        MusicModel {
            id: self.id@,
            name: self.name@,
            file_name: self.file_name@,
            path: self.path@,
            album: self.album@,
            album_source: self.album_source@,
            artist: self.artist@,
            genre: self.genre@,
            year: self.year@,
            channels: self.channels@,
            sample_rate: self.sample_rate,
            bitrate: self.bitrate,
            duration: self.duration,
            file_size: self.file_size,
            mime_type: self.mime_type@,
            cover_art: self.cover_art@,
            created_at: self.created_at,
            updated_at: self.updated_at,
            file_bookmark: None,
        }
    }

    /// The music of a row, with the tags given.
    pub fn from_row(row: &MusicRow, tags: Vec<String>, tag_ids: Vec<i64>) -> (r: Music)
        ensures
            r.music() == (MusicModel { file_bookmark: None, ..row@ }),
            r.tags == tags,
            r.tag_ids == tag_ids,
    {
        Music {
            id: row.id.clone(),
            name: row.name.clone(),
            file_name: row.file_name.clone(),
            path: row.path.clone(),
            album: row.album.clone(),
            album_source: row.album_source.clone(),
            artist: row.artist.clone(),
            genre: row.genre.clone(),
            year: row.year.clone(),
            channels: row.channels.clone(),
            sample_rate: row.sample_rate,
            bitrate: row.bitrate,
            duration: row.duration,
            file_size: row.file_size,
            mime_type: row.mime_type.clone(),
            cover_art: row.cover_art.clone(),
            created_at: row.created_at,
            updated_at: row.updated_at,
            tags,
            tag_ids,
        }
    }
}

/// A part of a music.
pub struct ClipRow {
    pub id: String,
    pub music_id: String,
    pub name: String,
    pub start: Seconds,
    pub end: Seconds,
    pub created_at: i64,
    pub updated_at: i64,
}

/// A part of a music, mathematically.
pub struct ClipModel {
    pub id: Seq<char>,
    pub music_id: Seq<char>,
    pub name: Seq<char>,
    pub start: Seconds,
    pub end: Seconds,
    pub created_at: i64,
    pub updated_at: i64,
}

impl View for ClipRow {
    type V = ClipModel;

    open spec fn view(&self) -> ClipModel {
        ClipModel {
            id: self.id@,
            music_id: self.music_id@,
            name: self.name@,
            start: self.start,
            end: self.end,
            created_at: self.created_at,
            updated_at: self.updated_at,
        }
    }
}

impl Clone for ClipRow {
    fn clone(&self) -> (r: Self)
        ensures
            r@ == self@,
    {
        ClipRow {
            id: self.id.clone(),
            music_id: self.music_id.clone(),
            name: self.name.clone(),
            start: self.start,
            end: self.end,
            created_at: self.created_at,
            updated_at: self.updated_at,
        }
    }
}

/// What a caller hands over to create or change a clip.
pub struct ClipInput {
    pub id: String,
    pub music_id: String,
    pub name: String,
    pub start: Seconds,
    pub end: Seconds,
    pub tags: Vec<String>,
    pub tag_ids: Option<Vec<i64>>,
    pub new_tags: Vec<String>,
    pub created_at: i64,
    pub updated_at: i64,
}

impl ClipInput {
    /// The clip that this describes.
    pub open spec fn clip(self) -> ClipModel {
        ClipModel {
            id: self.id@,
            music_id: self.music_id@,
            name: self.name@,
            start: self.start,
            end: self.end,
            created_at: self.created_at,
            updated_at: self.updated_at,
        }
    }

    /// The tags that this asks for.
    pub open spec fn wish(self) -> TagWish {
        wish(self.tags, self.tag_ids, self.new_tags)
    }

    /// The row for the clip that this describes.
    pub fn row(&self) -> (r: ClipRow)
        ensures
            r@ == self.clip(),
    {
        ClipRow {
            id: self.id.clone(),
            music_id: self.music_id.clone(),
            name: self.name.clone(),
            start: self.start,
            end: self.end,
            created_at: self.created_at,
            updated_at: self.updated_at,
        }
    }
}

/// A clip as it is handed out, with the tags that it carries.
pub struct Clip {
    pub id: String,
    pub music_id: String,
    pub name: String,
    pub start: Seconds,
    pub end: Seconds,
    pub tags: Vec<String>,
    pub tag_ids: Vec<i64>,
    pub created_at: i64,
    pub updated_at: i64,
}

impl Clip {
    /// The clip that this describes.
    pub open spec fn clip(self) -> ClipModel {
        ClipModel {
            id: self.id@,
            music_id: self.music_id@,
            name: self.name@,
            start: self.start,
            end: self.end,
            created_at: self.created_at,
            updated_at: self.updated_at,
        }
    }

    /// The clip of a row, with the tags given.
    pub fn from_row(row: &ClipRow, tags: Vec<String>, tag_ids: Vec<i64>) -> (r: Clip)
        ensures
            r.clip() == row@,
            r.tags == tags,
            r.tag_ids == tag_ids,
    {
        Clip {
            id: row.id.clone(),
            music_id: row.music_id.clone(),
            name: row.name.clone(),
            start: row.start,
            end: row.end,
            tags,
            tag_ids,
            created_at: row.created_at,
            updated_at: row.updated_at,
        }
    }
}

/// What a candidate is.
#[derive(Clone, Copy, Debug, PartialEq, Eq, Structural)]
pub enum CandidateKind {
    Music,
    Clip,
}

/// A music or a clip picked as a candidate.
pub struct CandidateRow {
    pub target_id: String,
    pub kind: CandidateKind,
    pub created_at: i64,
}

/// A music or a clip picked as a candidate, mathematically.
pub struct CandidateModel {
    pub target_id: Seq<char>,
    pub kind: CandidateKind,
    pub created_at: i64,
}

impl View for CandidateRow {
    type V = CandidateModel;

    open spec fn view(&self) -> CandidateModel {
        CandidateModel {
            target_id: self.target_id@,
            kind: self.kind,
            created_at: self.created_at,
        }
    }
}

impl Clone for CandidateRow {
    fn clone(&self) -> (r: Self)
        ensures
            r@ == self@,
    {
        CandidateRow {
            target_id: self.target_id.clone(),
            kind: self.kind,
            created_at: self.created_at,
        }
    }
}

/// The tables of the library.
pub struct Library {
    pub catalog: Catalog,
    pub music: Vec<MusicRow>,
    /// Where the duration stands among the columns of the table of music, counted from zero; a
    /// column in which an earlier schema kept tags is not counted.
    pub duration_column: u32,
    pub clips: Vec<ClipRow>,
    pub candidates: Vec<CandidateRow>,
    pub music_tags: Vec<LinkRow>,
    pub clip_tags: Vec<LinkRow>,
    pub album_tags: Vec<LinkRow>,
}

impl Clone for Library {
    fn clone(&self) -> (r: Self)
        ensures
            r@ == self@,
    {
        Library {
            catalog: self.catalog.clone(),
            music: self.copy_music(),
            duration_column: self.duration_column,
            clips: self.copy_clips(),
            candidates: self.copy_candidates(),
            music_tags: copy_links(&self.music_tags),
            clip_tags: copy_links(&self.clip_tags),
            album_tags: copy_links(&self.album_tags),
        }
    }
}

/// The tables of the library, mathematically.
#[verifier::ext_equal]
pub struct LibraryModel {
    pub catalog: CatalogModel,
    pub music: Seq<MusicModel>,
    pub duration_column: u32,
    pub clips: Seq<ClipModel>,
    pub candidates: Seq<CandidateModel>,
    pub music_tags: Seq<LinkModel>,
    pub clip_tags: Seq<LinkModel>,
    pub album_tags: Seq<LinkModel>,
}

impl View for Library {
    type V = LibraryModel;

    open spec fn view(&self) -> LibraryModel {
        LibraryModel {
            catalog: self.catalog@,
            music: models(self.music@),
            duration_column: self.duration_column,
            clips: models(self.clips@),
            candidates: models(self.candidates@),
            music_tags: models(self.music_tags@),
            clip_tags: models(self.clip_tags@),
            album_tags: models(self.album_tags@),
        }
    }
}

/// Whether a music has the identifier `id`.
pub open spec fn has_music(music: Seq<MusicModel>, id: Seq<char>) -> bool {
    exists|i: int| 0 <= i < music.len() && #[trigger] music[i].id == id
}

/// The music with the identifier `id`.
pub open spec fn music_at(music: Seq<MusicModel>, id: Seq<char>) -> MusicModel {
    music[choose|i: int| 0 <= i < music.len() && #[trigger] music[i].id == id]
}

/// Whether a music has the path `path`.
pub open spec fn has_path(music: Seq<MusicModel>, path: Seq<char>) -> bool {
    exists|i: int| 0 <= i < music.len() && #[trigger] music[i].path == path
}

/// Whether a clip has the identifier `id`.
pub open spec fn has_clip(clips: Seq<ClipModel>, id: Seq<char>) -> bool {
    exists|i: int| 0 <= i < clips.len() && #[trigger] clips[i].id == id
}

/// The clip with the identifier `id`.
pub open spec fn clip_at(clips: Seq<ClipModel>, id: Seq<char>) -> ClipModel {
    clips[choose|i: int| 0 <= i < clips.len() && #[trigger] clips[i].id == id]
}

/// No two music have the same identifier.
pub open spec fn music_keys(music: Seq<MusicModel>) -> bool {
    &&& forall|i: int, j: int|
        0 <= i < j < music.len() ==> (#[trigger] music[i]).id != (#[trigger] music[j]).id
    &&& forall|i: int| 0 <= i < music.len() ==> (#[trigger] music[i]).file_size <= i64::MAX
}

/// No two music have the same path.
pub open spec fn paths_distinct(music: Seq<MusicModel>) -> bool {
    forall|i: int, j: int|
        0 <= i < j < music.len() ==> (#[trigger] music[i]).path != (#[trigger] music[j]).path
}

/// No two music have the same identifier or the same path.
pub open spec fn music_wf(music: Seq<MusicModel>) -> bool {
    &&& music_keys(music)
    &&& paths_distinct(music)
}

/// No two clips have the same identifier, and every clip reaches from zero or later to a
/// later point.
pub open spec fn clip_keys(clips: Seq<ClipModel>) -> bool {
    &&& forall|i: int, j: int|
        0 <= i < j < clips.len() ==> (#[trigger] clips[i]).id != (#[trigger] clips[j]).id
    &&& forall|i: int|
        0 <= i < clips.len() ==> valid_range((#[trigger] clips[i]).start, clips[i].end)
}

/// Every clip is of a music that exists.
pub open spec fn clip_sources(music: Seq<MusicModel>, clips: Seq<ClipModel>) -> bool {
    forall|i: int| 0 <= i < clips.len() ==> has_music(music, (#[trigger] clips[i]).music_id)
}

/// No two clips have the same identifier; every clip is of a music that exists and
/// reaches from zero or later to a later point.
pub open spec fn clips_wf(music: Seq<MusicModel>, clips: Seq<ClipModel>) -> bool {
    &&& clip_keys(clips)
    &&& clip_sources(music, clips)
}

/// No target is a candidate twice.
pub open spec fn candidates_wf(candidates: Seq<CandidateModel>) -> bool {
    forall|i: int, j: int|
        0 <= i < j < candidates.len() ==> (#[trigger] candidates[i]).target_id != (
        #[trigger] candidates[j]).target_id
}

/// Every tag of a music is carried by a music that exists.
pub open spec fn music_owners(music: Seq<MusicModel>, links: Seq<LinkModel>) -> bool {
    forall|i: int| 0 <= i < links.len() ==> has_music(music, (#[trigger] links[i]).owner)
}

/// Every tag of a clip is carried by a clip that exists.
pub open spec fn clip_owners(clips: Seq<ClipModel>, links: Seq<LinkModel>) -> bool {
    forall|i: int| 0 <= i < links.len() ==> has_clip(clips, (#[trigger] links[i]).owner)
}

/// Whether the music or clip that is a candidate exists.
pub open spec fn is_alive(l: LibraryModel, c: CandidateModel) -> bool {
    match c.kind {
        CandidateKind::Music => has_music(l.music, c.target_id),
        CandidateKind::Clip => has_clip(l.clips, c.target_id),
    }
}

impl LibraryModel {
    /// What the tables of the library always satisfy.
    pub open spec fn wf(self) -> bool {
        &&& self.catalog.wf()
        &&& music_wf(self.music)
        &&& clips_wf(self.music, self.clips)
        &&& candidates_wf(self.candidates)
        &&& links_wf(self.catalog.tags, self.music_tags)
        &&& links_wf(self.catalog.tags, self.clip_tags)
        &&& links_wf(self.catalog.tags, self.album_tags)
        &&& music_owners(self.music, self.music_tags)
        &&& clip_owners(self.clips, self.clip_tags)
    }

    /// No row is there twice, and every clip has a valid range.
    pub open spec fn rows_wf(self) -> bool {
        &&& music_keys(self.music)
        &&& clip_keys(self.clips)
        &&& candidates_wf(self.candidates)
        &&& self.music_tags.no_duplicates()
        &&& self.clip_tags.no_duplicates()
        &&& self.album_tags.no_duplicates()
    }

    /// Everything that a row refers to exists.
    pub open spec fn references_hold(self) -> bool {
        &&& clip_sources(self.music, self.clips)
        &&& music_owners(self.music, self.music_tags)
        &&& clip_owners(self.clips, self.clip_tags)
        &&& targets_exist(self.catalog.tags, self.music_tags)
        &&& targets_exist(self.catalog.tags, self.clip_tags)
        &&& targets_exist(self.catalog.tags, self.album_tags)
    }

    /// Every candidate is of a music or clip that exists.
    pub open spec fn candidates_alive(self) -> bool {
        forall|i: int|
            0 <= i < self.candidates.len() ==> is_alive(self, #[trigger] self.candidates[i])
    }
}

/// What makes up the order of the tables.
pub proof fn lemma_library_wf(l: LibraryModel)
    ensures
        l.wf() <==> l.catalog.wf() && l.rows_wf() && paths_distinct(l.music) && l.references_hold(),
{
}

/// The tables once `owner` carries exactly the tags asked for.
pub open spec fn retagged(
    c: CatalogModel,
    links: Seq<LinkModel>,
    owner: Seq<char>,
    wish: TagWish,
    known: bool,
    now: i64,
) -> SyncModel {
    match wish.tag_ids {
        Some(ids) => sync_tag_ids_result(c, links, owner, ids, wish.new_tags, known, now),
        None => sync_tags_result(c, links, owner, wish.tags, known, now),
    }
}

/// Links to tags that exist stay so when more tags exist.
pub proof fn lemma_links_more_tags(
    before: Seq<TagModel>,
    after: Seq<TagModel>,
    links: Seq<LinkModel>,
)
    requires
        links_wf(before, links),
        forall|x: i64| #[trigger] has_tag(before, x) ==> has_tag(after, x),
    ensures
        links_wf(after, links),
{
}

/// What is kept when `owner` gets the tags asked for.
pub proof fn lemma_retagged(
    c: CatalogModel,
    links: Seq<LinkModel>,
    owner: Seq<char>,
    wish: TagWish,
    known: bool,
    now: i64,
)
    requires
        c.wf(),
        links_wf(c.tags, links),
    ensures
        ({
            let s = retagged(c, links, owner, wish, known, now);
            &&& s.catalog.wf()
            &&& links_wf(s.catalog.tags, s.links)
            &&& forall|x: i64| #[trigger] has_tag(c.tags, x) ==> has_tag(s.catalog.tags, x)
            &&& only_new_names(c, s.catalog)
            &&& aligned(c.tags) ==> aligned(s.catalog.tags)
            &&& s.links.filter(other_owner(owner)) == links.filter(other_owner(owner))
            &&& forall|i: int|
                0 <= i < s.links.len() ==> ((#[trigger] s.links[i]).owner == owner && known)
                    || links.contains(s.links[i])
        }),
{
    let s = retagged(c, links, owner, wish, known, now);
    let others = links.filter(other_owner(owner));
    lemma_links_filter(c.tags, links, other_owner(owner));
    lemma_filter_twice(links, other_owner(owner));
    assert(c.tags.take(c.tags.len() as int) =~= c.tags);
    match wish.tag_ids {
        Some(ids) => {
            lemma_link_ids(c.tags, others, owner, ids, known);
            let (chosen, error) = link_ids(c.tags, others, owner, ids, known);
            if error is None {
                lemma_link_names(c, chosen, owner, wish.new_tags, known, now);
            }
        },
        None => {
            lemma_link_names(c, others, owner, wish.tags, known, now);
        },
    }
    lemma_links_filter(s.catalog.tags, s.links, other_owner(owner));
    assert forall|i: int| 0 <= i < s.links.len() implies ((#[trigger] s.links[i]).owner == owner
        && known) || links.contains(s.links[i]) by {
        let l = s.links[i];
        assert(s.links.contains(l));
        if l.owner != owner {
            assert(s.links.filter(other_owner(owner)).contains(l));
        } else if !known {
            assert(s.links == others);
            assert(others.contains(l));
        }
    }
}

/// Whether the tag `id` is among those asked for.
pub open spec fn asks_for(c: CatalogModel, wish: TagWish, id: i64) -> bool {
    match wish.tag_ids {
        Some(ids) => ids.contains(id) || named_among(c, wish.new_tags, id),
        None => named_among(c, wish.tags, id),
    }
}

/// Once `owner` was given the tags asked for it carries exactly those, and everyone else
/// carries what they carried.
pub proof fn law_owner_carries_what_is_asked(
    c: CatalogModel,
    links: Seq<LinkModel>,
    owner: Seq<char>,
    wish: TagWish,
    now: i64,
)
    requires
        c.wf(),
        links_wf(c.tags, links),
        retagged(c, links, owner, wish, true, now).error is None,
    ensures
        ({
            let s = retagged(c, links, owner, wish, true, now);
            &&& forall|id: i64|
                s.links.contains(LinkModel { owner, tag_id: id }) <==> asks_for(
                    s.catalog,
                    wish,
                    id,
                )
            &&& forall|k: LinkModel|
                k.owner != owner ==> (s.links.contains(k) <==> links.contains(k))
        }),
{
    let s = retagged(c, links, owner, wish, true, now);
    match wish.tag_ids {
        Some(ids) => law_sync_by_id(c, links, owner, ids, wish.new_tags, now),
        None => law_sync_by_name(c, links, owner, wish.tags, now),
    }
    lemma_retagged(c, links, owner, wish, true, now);
    lemma_links_filter(c.tags, links, other_owner(owner));
    lemma_links_filter(s.catalog.tags, s.links, other_owner(owner));
    assert forall|k: LinkModel| k.owner != owner implies (s.links.contains(k) <==> links.contains(
        k,
    )) by {
        assert(s.links.filter(other_owner(owner)).contains(k) <==> s.links.contains(k));
        assert(links.filter(other_owner(owner)).contains(k) <==> links.contains(k));
    }
}

/// Lets `owner` carry exactly the tags asked for.
pub fn retag(
    catalog: &mut Catalog,
    links: &mut Vec<LinkRow>,
    owner: &str,
    tags: &Vec<String>,
    tag_ids: &Option<Vec<i64>>,
    new_tags: &Vec<String>,
    known: bool,
    now: i64,
) -> (r: Result<(), LibraryError>)
    requires
        old(catalog)@.wf(),
        links_wf(old(catalog)@.tags, models(old(links)@)),
    ensures
        final(catalog)@.wf(),
        ({
            let s = retagged(
                old(catalog)@,
                models(old(links)@),
                owner@,
                wish(*tags, *tag_ids, *new_tags),
                known,
                now,
            );
            &&& final(catalog)@ == s.catalog
            &&& models(final(links)@) == s.links
            &&& outcome(r) == match s.error {
                None => Ok::<(), ErrorModel>(()),
                Some(e) => Err(e),
            }
        }),
{
    match tag_ids {
        Some(ids) => sync_tag_ids(catalog, links, owner, ids, new_tags, known, now),
        None => sync_tags(catalog, links, owner, tags, known, now),
    }
}

/// A copy of `links`.
pub fn copy_links(links: &Vec<LinkRow>) -> (r: Vec<LinkRow>)
    ensures
        models(r@) == models(links@),
{
    let r = links.clone();
    proof {
        assert(r@ =~= links@);
    }
    r
}

impl Library {
    /// The position of the music with the identifier `id`.
    pub fn music_index(&self, id: &str) -> (r: Option<usize>)
        ensures
            match r {
                Some(i) => i < self@.music.len() && self@.music[i as int].id == id@,
                None => !has_music(self@.music, id@),
            },
    {
        let mut i: usize = 0;
        while i < self.music.len()
            invariant
                i <= self.music@.len(),
                forall|j: int| 0 <= j < i ==> (#[trigger] self@.music[j]).id != id@,
            decreases self.music@.len() - i,
        {
            if same_text(self.music[i].id.as_str(), id) {
                return Some(i);
            }
            i = i + 1;
        }
        None
    }

    /// The position of the clip with the identifier `id`.
    pub fn clip_index(&self, id: &str) -> (r: Option<usize>)
        ensures
            match r {
                Some(i) => i < self@.clips.len() && self@.clips[i as int].id == id@,
                None => !has_clip(self@.clips, id@),
            },
    {
        let mut i: usize = 0;
        while i < self.clips.len()
            invariant
                i <= self.clips@.len(),
                forall|j: int| 0 <= j < i ==> (#[trigger] self@.clips[j]).id != id@,
            decreases self.clips@.len() - i,
        {
            if same_text(self.clips[i].id.as_str(), id) {
                return Some(i);
            }
            i = i + 1;
        }
        None
    }
}

pub proof fn lemma_music_at(music: Seq<MusicModel>, i: int)
    requires
        music_wf(music),
        0 <= i < music.len(),
    ensures
        has_music(music, music[i].id),
        music_at(music, music[i].id) == music[i],
{
    let id = music[i].id;
    assert(music[i].id == id);
    let k = choose|k: int| 0 <= k < music.len() && #[trigger] music[k].id == id;
    assert(k == i);
}

pub proof fn lemma_clip_at(music: Seq<MusicModel>, clips: Seq<ClipModel>, i: int)
    requires
        clips_wf(music, clips),
        0 <= i < clips.len(),
    ensures
        has_clip(clips, clips[i].id),
        clip_at(clips, clips[i].id) == clips[i],
{
    let id = clips[i].id;
    assert(clips[i].id == id);
    let k = choose|k: int| 0 <= k < clips.len() && #[trigger] clips[k].id == id;
    assert(k == i);
}

} // verus!

//! What is known of a file before it becomes a music of the library.
use vstd::prelude::*;

use crate::mp3::Mp3Metadata;
use crate::mp3::Mp3Model;
use crate::paths::extension;
use crate::paths::extension_of;
use crate::paths::file_name;
use crate::paths::folder_name;
use crate::paths::folder_of;
use crate::paths::is_plain;
use crate::paths::name_of;
use crate::paths::names_file;
use crate::paths::names_folder;
use crate::paths::Platform;
use crate::paths::stem;
use crate::paths::stem_of;
use crate::seconds::Seconds;
use crate::text::lowered;
use crate::text::same_but_for_case;
use crate::text::same_text;

verus! {

/// A text in small letters.
pub uninterp spec fn lower_case(s: Seq<char>) -> Seq<char>;

/// Whether a text holds nothing but ASCII.
pub open spec fn all_ascii(s: Seq<char>) -> bool {
    forall|i: int| 0 <= i < s.len() ==> (#[trigger] s[i] as u32) < 128
}

/// `str::to_lowercase` gives a text in small letters. Claimed of it: the result depends
/// on the text alone, and of ASCII it is the text with its capitals made small.
#[verifier::external_body]
fn to_lower_case(s: &str) -> (r: String)
    ensures
        r@ == lower_case(s@),
        all_ascii(s@) ==> r@ == lowered(s@),
{
    s.to_lowercase()
}

/// A text in small letters: of ASCII, the text with its capitals made small.
pub open spec fn small(s: Seq<char>) -> Seq<char> {
    if all_ascii(s) {
        lowered(s)
    } else {
        lower_case(s)
    }
}

/// The media type of a file whose name ends, in small letters, in `extension`.
pub open spec fn media_type(extension: Seq<char>) -> Seq<char> {
    if extension == "mp3"@ {
        "audio/mpeg"@
    } else if extension == "wav"@ {
        "audio/wav"@
    } else if extension == "flac"@ {
        "audio/flac"@
    } else if extension == "m4a"@ {
        "audio/mp4"@
    } else if extension == "aac"@ {
        "audio/aac"@
    } else if extension == "ogg"@ {
        "audio/ogg"@
    } else if extension == "opus"@ {
        "audio/opus"@
    } else {
        "audio/*"@
    }
}

/// The media type of a file whose name ends, in small letters, in `extension`.
pub fn mime_of_extension(extension: &str) -> (r: &'static str)
    ensures
        r@ == media_type(extension@),
{
    if same_text(extension, "mp3") {
        "audio/mpeg"
    } else if same_text(extension, "wav") {
        "audio/wav"
    } else if same_text(extension, "flac") {
        "audio/flac"
    } else if same_text(extension, "m4a") {
        "audio/mp4"
    } else if same_text(extension, "aac") {
        "audio/aac"
    } else if same_text(extension, "ogg") {
        "audio/ogg"
    } else if same_text(extension, "opus") {
        "audio/opus"
    } else {
        "audio/*"
    }
}

/// The media type of a file of the name given, if it has one.
pub open spec fn mime_of(name: Option<Seq<char>>) -> Seq<char> {
    match name {
        Some(n) => match extension_of(n) {
            Some(e) => media_type(small(e)),
            None => media_type(Seq::empty()),
        },
        None => media_type(Seq::empty()),
    }
}

/// The media type of a file of the name given, if it has one.
pub fn mime_of_name(name: Option<&str>) -> (r: String)
    ensures
        r@ == mime_of(
            match name {
                Some(n) => Some(n@),
                None => None,
            },
        ),
        name matches Some(n) ==> (extension_of(n@) matches Some(e) ==> (all_ascii(e) ==> r@
            == media_type(lowered(e)))),
{
    let ending = match name {
        Some(n) => match extension(n) {
            Some(e) => to_lower_case(e.as_str()),
            None => String::new(),
        },
        None => String::new(),
    };
    proof {
        if ending@.len() == 0 {
            assert(ending@ =~= Seq::empty());
        }
    }
    mime_of_extension(ending.as_str()).to_string()
}

/// The media type of the file at `path`, by how its name ends.
pub fn mime_from_ext(path: &str) -> (r: String)
    ensures
        exists|os: Platform, name: Option<Seq<char>>| #[trigger]
            names_file(os, path@, name) && r@ == mime_of(name),
        is_plain(path@) ==> r@ == mime_of(name_of(path@)),
{
    let name = file_name(path);
    match &name {
        Some(n) => mime_of_name(Some(n.as_str())),
        None => mime_of_name(None),
    }
}

/// Whether a file of the name given, if it has one, is taken for an MP3 file.
pub open spec fn names_mp3(name: Option<Seq<char>>) -> bool {
    name matches Some(n) && extension_of(n) matches Some(e) && lowered(e) == lowered("mp3"@)
}

/// Whether a file of the name given, if it has one, is taken for an MP3 file.
pub fn is_mp3_name(name: Option<&str>) -> (b: bool)
    ensures
        b == names_mp3(
            match name {
                Some(n) => Some(n@),
                None => None,
            },
        ),
{
    match name {
        Some(n) => match extension(n) {
            Some(e) => same_but_for_case(e.as_str(), "mp3"),
            None => false,
        },
        None => false,
    }
}

/// Whether the file at `path` is taken for an MP3 file, by how its name ends.
pub fn is_mp3(path: &str) -> (b: bool)
    ensures
        exists|os: Platform, name: Option<Seq<char>>| #[trigger]
            names_file(os, path@, name) && b == names_mp3(name),
        is_plain(path@) ==> b == names_mp3(name_of(path@)),
{
    let name = file_name(path);
    match &name {
        Some(n) => is_mp3_name(Some(n.as_str())),
        None => is_mp3_name(None),
    }
}

/// What is known of a file.
pub struct ProbeResult {
    pub path: String,
    pub name: String,
    pub file_name: String,
    pub file_size: u64,
    pub mime_type: String,
    pub exists: bool,
    pub album: String,
    pub artist: String,
    pub genre: String,
    pub year: String,
    pub channels: String,
    pub sample_rate: u32,
    pub bitrate: u32,
    pub duration: Seconds,
    pub folder_album: String,
    pub cover_art: String,
}

/// What is known of a file whose name is `name`, or is not told apart from its path where
/// that is `None`, and of which `mp3` is what it says of itself: by its title it goes
/// where it has one, and else by its name without the ending.
pub open spec fn is_probe_of(
    r: ProbeResult,
    path: Seq<char>,
    name: Option<Seq<char>>,
    mp3: Mp3Model,
) -> bool {
    let file_name = match name {
        Some(n) => n,
        None => path,
    };
    &&& r.path@ == path
    &&& r.file_name@ == file_name
    &&& r.name@ == if mp3.title.len() == 0 {
        stem_of(file_name)
    } else {
        mp3.title
    }
    &&& r.mime_type@ == mime_of(name)
    &&& r.album@ == mp3.album
    &&& r.artist@ == mp3.artist
    &&& r.genre@ == mp3.genre
    &&& r.year@ == mp3.year
    &&& r.channels@ == mp3.channels
    &&& r.sample_rate == mp3.sample_rate
    &&& r.bitrate == mp3.bitrate
    &&& r.cover_art@ == mp3.cover_art
}

/// What is known of the file at `path`, whose name and folder are those given: its size,
/// or none where it does not exist, and what it says of itself.
pub fn probe_named(
    path: String,
    name: Option<String>,
    folder: String,
    size: Option<u64>,
    mp3: Mp3Metadata,
    duration: Seconds,
) -> (r: ProbeResult)
    ensures
        is_probe_of(
            r,
            path@,
            match name {
                Some(n) => Some(n@),
                None => None,
            },
            mp3@,
        ),
        r.folder_album == folder,
        r.exists == size is Some,
        r.file_size == match size {
            Some(n) => n,
            None => 0,
        },
        r.duration == duration,
{
    let mime_type = match &name {
        Some(n) => mime_of_name(Some(n.as_str())),
        None => mime_of_name(None),
    };
    let file_name = match name {
        Some(n) => n,
        None => path.clone(),
    };
    let fallback = stem(file_name.as_str());
    let title = if mp3.title.as_str().is_empty() {
        fallback
    } else {
        mp3.title
    };
    let (file_size, exists_now) = match size {
        Some(n) => (n, true),
        None => (0u64, false),
    };
    ProbeResult {
        path,
        name: title,
        file_name,
        file_size,
        mime_type,
        exists: exists_now,
        album: mp3.album,
        artist: mp3.artist,
        genre: mp3.genre,
        year: mp3.year,
        channels: mp3.channels,
        sample_rate: mp3.sample_rate,
        bitrate: mp3.bitrate,
        duration,
        folder_album: folder,
        cover_art: mp3.cover_art,
    }
}

/// What is known of the file at `path`: its size, or none where it does not exist, and
/// what it says of itself.
pub fn probe_path(
    path: String,
    size: Option<u64>,
    mp3: Mp3Metadata,
    duration: Seconds,
) -> (r: ProbeResult)
    ensures
        r.exists == size is Some,
        r.file_size == match size {
            Some(n) => n,
            None => 0,
        },
        r.duration == duration,
        exists|os: Platform, name: Option<Seq<char>>| #[trigger]
            names_file(os, path@, name) && is_probe_of(r, path@, name, mp3@),
        is_plain(path@) ==> is_probe_of(r, path@, name_of(path@), mp3@),
        names_folder(path@, r.folder_album@),
        is_plain(path@) ==> r.folder_album@ == folder_of(path@),
{
    let name = file_name(path.as_str());
    let folder = folder_name(path.as_str());
    probe_named(path, name, folder, size, mp3, duration)
}

/// The files that exist, out of those that were looked at.
pub fn existing(found: Vec<ProbeResult>) -> (r: Vec<ProbeResult>)
    ensures
        r@ == found@.filter(|p: ProbeResult| p.exists),
{
    let ghost keep = |p: ProbeResult| p.exists;
    let mut rest = found;
    let mut r: Vec<ProbeResult> = Vec::new();
    let ghost all = found@;
    let ghost mut left: int = all.len() as int;
    proof {
        reveal(Seq::filter);
        assert(all.take(left) =~= all);
        assert(all.filter(keep) =~= all.take(left).filter(keep) + r@);
    }
    while rest.len() > 0
        invariant
            keep == (|p: ProbeResult| p.exists),
            0 <= left <= all.len(),
            rest@ == all.take(left),
            all.filter(keep) == all.take(left).filter(keep) + r@,
        decreases rest@.len(),
    {
        proof {
            crate::rows::lemma_filter_take(all, keep, left - 1);
            assert(all.take(left).drop_last() =~= all.take(left - 1));
        }
        let x = rest.pop().unwrap();
        proof {
            assert(x == all[left - 1]);
        }
        if x.exists {
            let ghost before = r@;
            r.insert(0, x);
            proof {
                assert(all.take(left - 1).filter(keep).push(x) + before =~= all.take(
                    left - 1,
                ).filter(keep) + r@);
            }
        }
        proof {
            left = left - 1;
        }
    }
    proof {
        reveal(Seq::filter);
        assert(all.take(0).filter(keep) =~= Seq::empty());
        assert(all.filter(keep) =~= r@);
    }
    r
}

} // verus!

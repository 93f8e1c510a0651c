//! Laws of what is known of files.
use vstd::prelude::*;

use crate::mp3::Mp3Model;
use crate::paths::extension_of;
use crate::paths::law_stem_and_extension_are_found;
use crate::paths::stem_of;
use crate::probe::all_ascii;
use crate::probe::is_probe_of;
use crate::probe::media_type;
use crate::probe::mime_of;
use crate::probe::names_mp3;
use crate::probe::ProbeResult;
use crate::text::lowered;

verus! {

/// The endings by which a media type is told.
pub open spec fn endings() -> Seq<Seq<char>> {
    seq!["mp3"@, "wav"@, "flac"@, "m4a"@, "aac"@, "ogg"@, "opus"@]
}

/// The media types that the endings tell.
pub open spec fn types() -> Seq<Seq<char>> {
    seq![
        "audio/mpeg"@,
        "audio/wav"@,
        "audio/flac"@,
        "audio/mp4"@,
        "audio/aac"@,
        "audio/ogg"@,
        "audio/opus"@,
    ]
}

/// Each of the endings tells its media type, and any other tells only that it is audio.
pub proof fn law_media_type_is_told_by_the_ending(e: Seq<char>)
    ensures
        forall|k: int| 0 <= k < endings().len() && endings()[k] == e ==> media_type(e) == types()[k],
        !endings().contains(e) ==> media_type(e) == "audio/*"@,
{
    reveal_strlit("mp3");
    reveal_strlit("wav");
    reveal_strlit("flac");
    reveal_strlit("m4a");
    reveal_strlit("aac");
    reveal_strlit("ogg");
    reveal_strlit("opus");
    let n = endings();
    assert("mp3"@[1] == 'p' && "wav"@[0] == 'w' && "flac"@[0] == 'f' && "m4a"@[1] == '4'
        && "aac"@[0] == 'a' && "ogg"@[1] == 'g' && "opus"@[1] == 'p');
    assert("mp3"@[0] == 'm' && "opus"@[0] == 'o' && "ogg"@[0] == 'o' && "m4a"@[0] == 'm');
    assert(n[0] == "mp3"@ && n[1] == "wav"@ && n[2] == "flac"@ && n[3] == "m4a"@ && n[4] == "aac"@
        && n[5] == "ogg"@ && n[6] == "opus"@);
}

/// A file is taken by what stands behind the last dot of its name, capitals or not; where
/// nothing does, it is audio of some kind and no MP3 file.
pub proof fn law_file_is_taken_by_its_ending(stem: Seq<char>, ending: Seq<char>)
    requires
        stem.len() > 0,
        !ending.contains('.'),
        all_ascii(ending),
    ensures
        mime_of(Some(stem.push('.') + ending)) == media_type(lowered(ending)),
        names_mp3(Some(stem.push('.') + ending)) <==> lowered(ending) == "mp3"@,
        mime_of(None) == "audio/*"@,
        !names_mp3(None),
{
    law_stem_and_extension_are_found(stem, ending);
    law_media_type_is_told_by_the_ending(Seq::empty());
    reveal_strlit("mp3");
    reveal_strlit("wav");
    reveal_strlit("flac");
    reveal_strlit("m4a");
    reveal_strlit("aac");
    reveal_strlit("ogg");
    reveal_strlit("opus");
    assert(lowered("mp3"@) =~= "mp3"@);
    assert forall|k: int| 0 <= k < endings().len() implies (#[trigger] endings()[k]).len() > 0 by {}
    assert(!endings().contains(Seq::empty()));
}

/// A name without a dot has no ending, and nor has one whose only dot is its first character.
pub proof fn law_names_without_an_ending(name: Seq<char>)
    requires
        !name.contains('.'),
    ensures
        extension_of(name) is None,
        stem_of(name) == name,
        extension_of(seq!['.'] + name) is None,
        !names_mp3(Some(name)),
{
    lemma_no_dot(name);
    crate::paths::lemma_behind_last(Seq::empty(), name, '.');
    assert(Seq::<char>::empty().push('.') + name =~= seq!['.'] + name);
}

proof fn lemma_no_dot(name: Seq<char>)
    requires
        !name.contains('.'),
    ensures
        crate::paths::behind_last(name, '.') is None,
    decreases name.len(),
{
    if name.len() > 0 {
        assert(name.contains(name[name.len() - 1]));
        let rest = name.drop_last();
        if rest.contains('.') {
            let i = choose|i: int| 0 <= i < rest.len() && rest[i] == '.';
            assert(name[i] == '.');
        }
        lemma_no_dot(rest);
    }
}

/// A file goes by its title, where it has one; else by its name without the ending. All else
/// that it says of itself is handed on as it is.
pub proof fn law_file_goes_by_its_title(
    r: ProbeResult,
    path: Seq<char>,
    name: Option<Seq<char>>,
    mp3: Mp3Model,
)
    requires
        is_probe_of(r, path, name, mp3),
    ensures
        r.path@ == path,
        name matches Some(n) ==> r.file_name@ == n,
        name is None ==> r.file_name@ == path,
        mp3.title.len() > 0 ==> r.name@ == mp3.title,
        mp3.title.len() == 0 && !r.file_name@.contains('.') ==> r.name@ == r.file_name@,
        mp3.title.len() == 0 ==> forall|stem: Seq<char>, ending: Seq<char>|
            stem.len() > 0 && !ending.contains('.') && r.file_name@ == #[trigger] (stem.push('.')
                + ending) ==> r.name@ == stem,
        r.album@ == mp3.album,
        r.artist@ == mp3.artist,
        r.genre@ == mp3.genre,
        r.year@ == mp3.year,
        r.channels@ == mp3.channels,
        r.sample_rate == mp3.sample_rate,
        r.bitrate == mp3.bitrate,
        r.cover_art@ == mp3.cover_art,
{
    if !r.file_name@.contains('.') {
        law_names_without_an_ending(r.file_name@);
    }
    assert forall|stem: Seq<char>, ending: Seq<char>|
        mp3.title.len() == 0 && stem.len() > 0 && !ending.contains('.') && r.file_name@
            == #[trigger] (stem.push('.') + ending) implies r.name@ == stem by {
        law_stem_and_extension_are_found(stem, ending);
    }
}

} // verus!

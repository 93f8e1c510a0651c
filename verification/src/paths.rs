//! The parts of a path that names are taken from.
use std::path::Path;

use vstd::prelude::*;

use crate::rows::lemma_filter_joined;
use crate::rows::lemma_filter_push;
use crate::text::chars_of;
use crate::text::folded;
use crate::text::string_of;

verus! {

/// Whether `part` stands somewhere in `whole`.
pub open spec fn stands_in(whole: Seq<char>, part: Seq<char>) -> bool {
    exists|i: int, j: int| 0 <= i <= j <= whole.len() && #[trigger] whole.subrange(i, j) == part
}

/// The position behind the last `c` in `s`, if there is one.
pub open spec fn behind_last(s: Seq<char>, c: char) -> Option<int>
    decreases s.len(),
{
    if s.len() == 0 {
        None
    } else if s.last() == c {
        Some(s.len() as int)
    } else {
        behind_last(s.drop_last(), c)
    }
}

/// The position behind a character lies in the text.
pub proof fn lemma_behind_last_in_range(s: Seq<char>, c: char)
    ensures
        match behind_last(s, c) {
            Some(k) => 1 <= k <= s.len() && s[k - 1] == c,
            None => true,
        },
    decreases s.len(),
{
    if s.len() > 0 && s.last() != c {
        lemma_behind_last_in_range(s.drop_last(), c);
    }
}

/// Whether `path` is written so that Unix and Windows read it alike: with slashes for
/// separators, and with neither a drive nor a host at its beginning.
pub open spec fn is_plain(path: Seq<char>) -> bool {
    &&& !path.contains('\\')
    &&& !(path.len() >= 2 && path[1] == ':')
    &&& !(path.len() >= 2 && path[0] == '/' && path[1] == '/')
}

/// What stands between the slashes of a path, before the first and behind the last.
pub open spec fn pieces(path: Seq<char>) -> Seq<Seq<char>>
    decreases path.len(),
{
    match behind_last(path, '/') {
        Some(k) => {
            proof {
                lemma_behind_last_in_range(path, '/');
            }
            pieces(path.take(k - 1)).push(path.skip(k))
        },
        None => seq![path],
    }
}

/// Being a piece that counts: not empty, and no step that leads nowhere.
pub open spec fn counts() -> spec_fn(Seq<char>) -> bool {
    |piece: Seq<char>| piece.len() > 0 && piece != seq!['.']
}

/// What a path may begin with on Windows: a drive, or what a host shares.
pub enum Volume {
    Drive(char),
    Share { host: Seq<char>, share: Seq<char> },
}

/// A path as it is read: its volume, if it names one, whether it begins at the root, and its
/// parts.
#[verifier::ext_equal]
pub struct PathModel {
    pub volume: Option<Volume>,
    pub rooted: bool,
    pub parts: Seq<Seq<char>>,
}

/// A path as it is read where slashes are the separators and there are no volumes: its parts
/// are the pieces that count, and a single dot where that begins the path.
pub open spec fn components(path: Seq<char>) -> PathModel {
    let kept = pieces(path).filter(counts());
    PathModel {
        volume: None,
        rooted: path.len() > 0 && path[0] == '/',
        parts: if pieces(path)[0] == seq!['.'] {
            seq![seq!['.']] + kept
        } else {
            kept
        },
    }
}

/// The rules by which a path is read.
pub enum Platform {
    Unix,
    Windows,
}

/// A path with slashes for backslashes.
pub open spec fn with_slashes(path: Seq<char>) -> Seq<char> {
    path.map_values(
        |c: char|
            if c == '\\' {
                '/'
            } else {
                c
            },
    )
}

/// Whether a character may name a drive.
pub open spec fn is_letter(c: char) -> bool {
    'a' <= c <= 'z' || 'A' <= c <= 'Z'
}

/// Whether a path begins with a drive.
pub open spec fn has_drive(path: Seq<char>) -> bool {
    path.len() >= 2 && path[1] == ':' && is_letter(path[0])
}

/// How many characters stand before the first `c` in `s`; all of them, where there is none.
pub open spec fn before_first(s: Seq<char>, c: char) -> int
    decreases s.len(),
{
    if s.len() == 0 || s[0] == c {
        0
    } else {
        1 + before_first(s.drop_first(), c)
    }
}

/// What stands before the first separator of a path on Windows.
pub open spec fn first_piece(path: Seq<char>) -> Seq<char> {
    path.take(before_first(with_slashes(path), '/'))
}

/// What stands behind the first separator of a path on Windows.
pub open spec fn behind_first_piece(path: Seq<char>) -> Seq<char> {
    path.skip(first_piece(path).len() as int + 1)
}

/// Whether a path begins with two backslashes, a host, a backslash and what the host shares.
pub open spec fn has_share(path: Seq<char>) -> bool {
    let rest = path.skip(2);
    let host = first_piece(rest);
    &&& path.len() > 2
    &&& path[0] == '\\' && path[1] == '\\'
    &&& host.len() > 0 && host != seq!['?'] && host != seq!['.']
    &&& host.len() < rest.len() && rest[host.len() as int] == '\\'
    &&& first_piece(behind_first_piece(rest)).len() > 0
}

/// A path as it is read by the rules of a platform: Unix knows slashes alone; on Windows
/// backslashes are as good, and a volume may stand first. What a host shares is a root.
pub open spec fn read_on(os: Platform, path: Seq<char>) -> PathModel {
    match os {
        Platform::Unix => components(path),
        Platform::Windows => if has_drive(path) {
            PathModel {
                volume: Some(Volume::Drive(path[0])),
                ..components(with_slashes(path.skip(2)))
            }
        } else if has_share(path) {
            let rest = behind_first_piece(path.skip(2));
            let share = first_piece(rest);
            PathModel {
                volume: Some(Volume::Share { host: first_piece(path.skip(2)), share }),
                rooted: true,
                parts: components(with_slashes(rest.skip(share.len() as int))).parts,
            }
        } else {
            components(with_slashes(path))
        },
    }
}

/// Whether `read_on` says how a platform reads `path`: on Windows it leaves open what begins
/// with two separators and is not what a host shares, what has a colon in second place and no
/// drive, and a single dot behind a drive.
pub open spec fn is_told(os: Platform, path: Seq<char>) -> bool {
    match os {
        Platform::Unix => true,
        Platform::Windows => {
            let read = with_slashes(path);
            &&& read.len() >= 2 && read[0] == '/' && read[1] == '/' ==> has_share(path)
            &&& read.len() >= 2 && read[1] == ':' ==> has_drive(path) && pieces(read.skip(2))[0]
                != seq!['.']
        },
    }
}

/// Plain paths are read alike by all rules.
pub proof fn law_plain_paths_are_read_alike(os: Platform, path: Seq<char>)
    requires
        is_plain(path),
    ensures
        is_told(os, path),
        read_on(os, path) == components(path),
{
    assert forall|i: int| 0 <= i < path.len() implies path[i] != '\\' by {
        assert(path.contains(path[i]));
    }
    assert(with_slashes(path) =~= path);
}

/// Whether a part of a path is a name, and no step that leads nowhere or up.
pub open spec fn is_name(part: Seq<char>) -> bool {
    part.len() > 0 && part != seq!['.'] && part != seq!['.', '.']
}

/// The last of some parts, if that is a name.
pub open spec fn last_name(parts: Seq<Seq<char>>) -> Option<Seq<char>> {
    if parts.len() > 0 && is_name(parts.last()) {
        Some(parts.last())
    } else {
        None
    }
}

/// The name at the end of a plain path, if it ends in one.
pub open spec fn name_of(path: Seq<char>) -> Option<Seq<char>> {
    last_name(components(path).parts)
}

/// A path without its last part.
pub open spec fn without_last(path: PathModel) -> PathModel {
    PathModel { parts: path.parts.drop_last(), ..path }
}

/// The name of the folder in which the file at a plain path lies; nothing, where the path
/// names none.
pub open spec fn folder_of(path: Seq<char>) -> Seq<char> {
    let parts = components(path).parts;
    if parts.len() == 0 {
        Seq::empty()
    } else {
        match last_name(parts.drop_last()) {
            Some(n) => n,
            None => Seq::empty(),
        }
    }
}

/// Whether `name` may be what a platform gives for the name at the end of `path`: it stands in
/// the path, and where the rules tell, it is the last part, if that is a name.
pub open spec fn names_file(os: Platform, path: Seq<char>, name: Option<Seq<char>>) -> bool {
    &&& name matches Some(n) ==> n.len() > 0 && stands_in(path, n)
    &&& is_told(os, path) ==> name == last_name(read_on(os, path).parts)
}

/// Whether `parent` may be what a platform gives for the folder of `path`: it is a beginning
/// of the path, and where the rules tell, it is read as the path without its last part, and
/// there is none exactly where the path has no part.
pub open spec fn leads_up(os: Platform, path: Seq<char>, parent: Option<Seq<char>>) -> bool {
    &&& parent matches Some(p) ==> p.len() < path.len() && p == path.take(p.len() as int)
    &&& is_told(os, path) ==> match parent {
        Some(p) => read_on(os, path).parts.len() > 0 && read_on(os, p) == without_last(
            read_on(os, path),
        ),
        None => read_on(os, path).parts.len() == 0,
    }
}

/// The text of an optional string.
pub open spec fn text_of(s: Option<String>) -> Option<Seq<char>> {
    match s {
        Some(t) => Some(t@),
        None => None,
    }
}

/// `Path::file_name` gives the final component of a path, if that is neither `..` nor a
/// root. Claimed of it: the component is not empty and stands in the path; and it is the last
/// part, if that is a name, of the path as read by the rules of Unix or by those of Windows.
/// What counts as a device on Windows is left unsaid.
#[verifier::external_body]
fn last_component(path: &str) -> (r: Option<String>)
    ensures
        exists|os: Platform| #[trigger] names_file(os, path@, text_of(r)),
{
    Path::new(path).file_name().and_then(|n| n.to_str()).map(|n| n.to_string())
}

/// `Path::parent` gives a path without its final component, if there is one. Claimed of
/// it: what is left is a beginning of the path, and not all of it; and by the rules of Unix
/// or by those of Windows it is given exactly where the path has a part, and read as the path
/// without its last part. What counts as a device on Windows is left unsaid.
#[verifier::external_body]
fn without_last_component(path: &str) -> (r: Option<String>)
    ensures
        exists|os: Platform| #[trigger] leads_up(os, path@, text_of(r)),
{
    Path::new(path).parent().and_then(|p| p.to_str()).map(|p| p.to_string())
}

/// What stands behind the last dot of a file name, unless that dot is its first
/// character.
pub open spec fn extension_of(name: Seq<char>) -> Option<Seq<char>> {
    match behind_last(name, '.') {
        Some(k) => if k == 1 {
            None
        } else {
            Some(name.skip(k))
        },
        None => None,
    }
}

/// What stands before the last dot of a file name; all of it, where there is no dot.
pub open spec fn stem_of(name: Seq<char>) -> Seq<char> {
    match behind_last(name, '.') {
        Some(k) => name.take(k - 1),
        None => name,
    }
}

/// The position behind the last `c` in `s`, if there is one.
fn find_last(s: &Vec<char>, c: char) -> (r: Option<usize>)
    ensures
        match r {
            Some(k) => 1 <= k <= s@.len() && behind_last(s@, c) == Some(k as int),
            None => behind_last(s@, c) is None,
        },
{
    let mut k: usize = s.len();
    proof {
        assert(s@.take(k as int) =~= s@);
    }
    while k > 0
        invariant
            k <= s@.len(),
            behind_last(s@, c) == behind_last(s@.take(k as int), c),
        decreases k,
    {
        if s[k - 1] == c {
            return Some(k);
        }
        proof {
            assert(s@.take(k as int).drop_last() =~= s@.take(k - 1));
        }
        k = k - 1;
    }
    None
}

/// What stands behind the last dot of a file name, unless that dot is its first
/// character.
pub fn extension(name: &str) -> (r: Option<String>)
    ensures
        match extension_of(name@) {
            Some(e) => r matches Some(s) && s@ == e,
            None => r is None,
        },
{
    let chars = chars_of(name);
    match find_last(&chars, '.') {
        Some(k) => if k == 1 {
            None
        } else {
            let e = string_of(&chars, k, chars.len());
            proof {
                assert(e@ =~= name@.skip(k as int));
            }
            Some(e)
        },
        None => None,
    }
}

/// What stands before the last dot of a file name; all of it, where there is no dot.
pub fn stem(name: &str) -> (r: String)
    ensures
        r@ == stem_of(name@),
{
    let chars = chars_of(name);
    match find_last(&chars, '.') {
        Some(k) => {
            let s = string_of(&chars, 0, k - 1);
            proof {
                assert(s@ =~= name@.take(k - 1));
            }
            s
        },
        None => name.to_string(),
    }
}

/// The name of the file at `path`, if the path ends in one.
pub fn file_name(path: &str) -> (r: Option<String>)
    ensures
        exists|os: Platform| #[trigger] names_file(os, path@, text_of(r)),
        is_plain(path@) ==> text_of(r) == name_of(path@),
{
    let r = last_component(path);
    proof {
        let os = choose|os: Platform| #[trigger] names_file(os, path@, text_of(r));
        if is_plain(path@) {
            law_plain_paths_are_read_alike(os, path@);
        }
    }
    r
}

/// A beginning of a plain path is plain.
proof fn lemma_beginning_is_plain(path: Seq<char>, n: int)
    requires
        is_plain(path),
        0 <= n <= path.len(),
    ensures
        is_plain(path.take(n)),
{
    let p = path.take(n);
    assert forall|i: int| 0 <= i < p.len() implies p[i] != '\\' by {
        assert(path.contains(path[i]));
    }
}

/// The folder in which the file at `path` lies, if the path names one.
pub fn parent_folder(path: &str) -> (r: Option<String>)
    ensures
        exists|os: Platform| #[trigger] leads_up(os, path@, text_of(r)),
        is_plain(path@) ==> match r {
            Some(p) => is_plain(p@) && components(path@).parts.len() > 0 && components(p@)
                == without_last(components(path@)),
            None => components(path@).parts.len() == 0,
        },
{
    let r = without_last_component(path);
    proof {
        let os = choose|os: Platform| #[trigger] leads_up(os, path@, text_of(r));
        if is_plain(path@) {
            law_plain_paths_are_read_alike(os, path@);
            if let Some(p) = &r {
                lemma_beginning_is_plain(path@, p@.len() as int);
                law_plain_paths_are_read_alike(os, p@);
            }
        }
    }
    r
}

/// Whether the volumes of two paths are told apart: those whose names differ in case alone are
/// not, nor are those of hosts with other names.
pub open spec fn volumes_told_apart(a: Option<Volume>, b: Option<Volume>) -> bool {
    match (a, b) {
        (Some(Volume::Drive(c)), Some(Volume::Drive(d))) => c == d || folded(c) != folded(d),
        (Some(Volume::Share { .. }), Some(Volume::Share { .. })) => a == b,
        _ => true,
    }
}

/// Whether `same` may be what a platform says of two paths being the same: a path is the same
/// as itself, and where the rules tell, those are the same that are read as the same.
pub open spec fn compares(os: Platform, a: Seq<char>, b: Seq<char>, same: bool) -> bool {
    &&& a == b ==> same
    &&& is_told(os, a) && is_told(os, b) && volumes_told_apart(
        read_on(os, a).volume,
        read_on(os, b).volume,
    ) ==> same == (read_on(os, a) == read_on(os, b))
}

/// `Path`'s equality holds of paths with the same components. Claimed of it: a path is
/// the same as itself, and by the rules of Unix or by those of Windows those paths are the
/// same that are read as the same. What counts as a device on Windows, and whether a volume
/// is known under names that differ in case, is left unsaid.
#[verifier::external_body]
fn same_components(a: &str, b: &str) -> (r: bool)
    ensures
        exists|os: Platform| #[trigger] compares(os, a@, b@, r),
{
    Path::new(a) == Path::new(b)
}

/// Whether two paths are the same.
pub fn same_path(a: &str, b: &str) -> (r: bool)
    ensures
        exists|os: Platform| #[trigger] compares(os, a@, b@, r),
        is_plain(a@) && is_plain(b@) ==> r == (components(a@) == components(b@)),
{
    let r: bool = same_components(a, b);
    proof {
        let os = choose|os: Platform| #[trigger] compares(os, a@, b@, r);
        if is_plain(a@) && is_plain(b@) {
            law_plain_paths_are_read_alike(os, a@);
            law_plain_paths_are_read_alike(os, b@);
        }
    }
    r
}

/// Whether `name` may be given for the name of the folder `parent`, if there is one; nothing
/// stands for none.
pub open spec fn names_parent(parent: Option<Seq<char>>, name: Seq<char>) -> bool {
    match parent {
        None => name == Seq::<char>::empty(),
        Some(p) => exists|os: Platform, n: Option<Seq<char>>| #[trigger]
            names_file(os, p, n) && name == n.unwrap_or(Seq::empty()),
    }
}

/// Whether `name` may be given for the name of the folder in which the file at `path` lies.
pub open spec fn names_folder(path: Seq<char>, name: Seq<char>) -> bool {
    exists|os: Platform, parent: Option<Seq<char>>| #[trigger]
        leads_up(os, path, parent) && names_parent(parent, name)
}

/// What may be given for the name of a folder stands in the path, unless it is empty.
pub proof fn law_folder_stands_in_the_path(path: Seq<char>, name: Seq<char>)
    requires
        names_folder(path, name),
    ensures
        name.len() == 0 || stands_in(path, name),
{
    let (os, parent) = choose|os: Platform, parent: Option<Seq<char>>| #[trigger]
        leads_up(os, path, parent) && names_parent(parent, name);
    if let Some(p) = parent {
        if name.len() > 0 {
            let (i, j) = choose|i: int, j: int|
                0 <= i <= j <= p.len() && #[trigger] p.subrange(i, j) == name;
            assert(path.subrange(i, j) =~= p.subrange(i, j));
        }
    }
}

/// The name of the folder in which the file at `path` lies; nothing, where the path
/// names none.
pub fn folder_name(path: &str) -> (r: String)
    ensures
        names_folder(path@, r@),
        is_plain(path@) ==> r@ == folder_of(path@),
{
    let parent = parent_folder(path);
    let r = match &parent {
        None => String::new(),
        Some(p) => match file_name(p.as_str()) {
            None => String::new(),
            Some(n) => n,
        },
    };
    proof {
        let os = choose|os: Platform| #[trigger] leads_up(os, path@, text_of(parent));
        if r@.len() == 0 {
            assert(r@ =~= Seq::<char>::empty());
        }
        assert(names_parent(text_of(parent), r@));
        assert(leads_up(os, path@, text_of(parent)) && names_parent(text_of(parent), r@));
    }
    r
}

/// Where the last slash of a path stands once something without a slash follows it.
proof fn lemma_last_slash(folder: Seq<char>, name: Seq<char>)
    requires
        !name.contains('/'),
    ensures
        behind_last(folder.push('/') + name, '/') == Some((folder.len() + 1) as int),
        pieces(folder.push('/') + name) == pieces(folder).push(name),
{
    let path = folder.push('/') + name;
    lemma_behind_last(folder, name, '/');
    assert(path.take(folder.len() as int) =~= folder);
    assert(path.skip((folder.len() + 1) as int) =~= name);
}

/// A path is made of one piece at least.
proof fn lemma_pieces_exist(path: Seq<char>)
    ensures
        pieces(path).len() > 0,
    decreases path.len(),
{
    lemma_behind_last_in_range(path, '/');
}

/// A file whose name stands behind a slash behind its folder lies in that folder, under
/// that name.
pub proof fn law_file_lies_in_its_folder(folder: Seq<char>, name: Seq<char>)
    requires
        folder.len() > 0,
        is_name(name),
        !name.contains('/'),
    ensures
        name_of(folder.push('/') + name) == Some(name),
        without_last(components(folder.push('/') + name)) == components(folder),
        folder_of(folder.push('/') + name) == match name_of(folder) {
            Some(n) => n,
            None => Seq::empty(),
        },
{
    let path = folder.push('/') + name;
    lemma_last_slash(folder, name);
    lemma_pieces_exist(folder);
    lemma_filter_push(pieces(folder), name, counts());
    assert(path[0] == folder[0]);
    assert(pieces(path)[0] == pieces(folder)[0]);
    assert(components(path).parts =~= components(folder).parts.push(name));
    assert(components(path).parts.drop_last() =~= components(folder).parts);
}

/// On Windows a file whose name stands behind a backslash behind its folder lies in that
/// folder, under that name.
pub proof fn law_file_lies_in_its_windows_folder(folder: Seq<char>, name: Seq<char>)
    requires
        folder.len() > 0,
        has_drive(folder) ==> folder.len() > 2,
        !(folder[0] == '\\' && (folder.len() == 1 || folder[1] == '\\')),
        is_name(name),
        !name.contains('/'),
        !name.contains('\\'),
    ensures
        last_name(read_on(Platform::Windows, folder.push('\\') + name).parts) == Some(name),
        without_last(read_on(Platform::Windows, folder.push('\\') + name)) == read_on(
            Platform::Windows,
            folder,
        ),
{
    let path = folder.push('\\') + name;
    assert forall|i: int| 0 <= i < name.len() implies name[i] != '\\' by {
        assert(name.contains(name[i]));
    }
    assert(with_slashes(path) =~= with_slashes(folder).push('/') + name);
    if has_drive(folder) {
        assert(with_slashes(path.skip(2)) =~= with_slashes(folder.skip(2)).push('/') + name);
        law_file_lies_in_its_folder(with_slashes(folder.skip(2)), name);
    } else {
        law_file_lies_in_its_folder(with_slashes(folder), name);
        assert(!has_drive(path));
    }
}

/// The pieces of two paths joined by a slash are those of the one and of the other.
proof fn lemma_pieces_joined(a: Seq<char>, b: Seq<char>)
    ensures
        pieces(a.push('/') + b) == pieces(a) + pieces(b),
    decreases b.len(),
{
    lemma_behind_last_in_range(b, '/');
    match behind_last(b, '/') {
        None => {
            assert forall|i: int| 0 <= i < b.len() implies b[i] != '/' by {
                lemma_none_behind(b, '/', i);
            }
            lemma_last_slash(a, b);
            assert(pieces(a).push(b) =~= pieces(a) + pieces(b));
        },
        Some(k) => {
            let head = b.take(k - 1);
            let tail = b.skip(k);
            lemma_pieces_joined(a, head);
            lemma_tail_holds_none(b, '/', k);
            lemma_last_slash(a.push('/') + head, tail);
            assert(a.push('/') + b =~= (a.push('/') + head).push('/') + tail);
            assert((pieces(a) + pieces(head)).push(tail) =~= pieces(a) + pieces(head).push(tail));
        },
    }
}

/// Where no `c` is found, none stands.
proof fn lemma_none_behind(s: Seq<char>, c: char, i: int)
    requires
        behind_last(s, c) is None,
        0 <= i < s.len(),
    ensures
        s[i] != c,
    decreases s.len(),
{
    if i < s.len() - 1 {
        lemma_none_behind(s.drop_last(), c, i);
    }
}

/// Behind the last `c` stands none.
proof fn lemma_tail_holds_none(s: Seq<char>, c: char, k: int)
    requires
        behind_last(s, c) == Some(k),
    ensures
        !s.skip(k).contains(c),
    decreases s.len(),
{
    lemma_behind_last_in_range(s, c);
    if s.last() == c {
        assert(s.skip(k) =~= Seq::empty());
    } else {
        let rest = s.drop_last();
        lemma_tail_holds_none(rest, c, k);
        lemma_behind_last_in_range(rest, c);
        assert(s.skip(k) =~= rest.skip(k).push(s.last()));
        assert forall|i: int| 0 <= i < s.skip(k).len() implies s.skip(k)[i] != c by {
            if i < rest.skip(k).len() {
                assert(rest.skip(k).contains(rest.skip(k)[i]));
            }
        }
    }
}

/// Two slashes in the middle of a path are as good as one.
pub proof fn law_doubled_slashes_are_one(a: Seq<char>, b: Seq<char>)
    requires
        a.len() > 0,
    ensures
        components(a.push('/').push('/') + b) == components(a.push('/') + b),
{
    let none = Seq::<char>::empty();
    lemma_pieces_exist(a);
    lemma_last_slash(a, none);
    assert(a.push('/') + none =~= a.push('/'));
    lemma_pieces_joined(a.push('/'), b);
    lemma_pieces_joined(a, b);
    lemma_filter_joined(pieces(a).push(none), pieces(b), counts());
    lemma_filter_joined(pieces(a), pieces(b), counts());
    lemma_filter_push(pieces(a), none, counts());
    assert((pieces(a).push(none) + pieces(b))[0] == pieces(a)[0]);
    assert((pieces(a) + pieces(b))[0] == pieces(a)[0]);
    assert(components(a.push('/').push('/') + b) =~= components(a.push('/') + b));
}

/// Slashes and single dots at the end of a path change nothing.
pub proof fn law_end_of_a_path_changes_nothing(path: Seq<char>)
    requires
        path.len() > 0,
    ensures
        components(path.push('/')) == components(path),
        components(path.push('/').push('.')) == components(path),
{
    let none = Seq::<char>::empty();
    let dot = seq!['.'];
    lemma_pieces_exist(path);
    lemma_last_slash(path, none);
    lemma_last_slash(path, dot);
    lemma_filter_push(pieces(path), none, counts());
    lemma_filter_push(pieces(path), dot, counts());
    assert(path.push('/') + none =~= path.push('/'));
    assert(path.push('/') + dot =~= path.push('/').push('.'));
    assert(pieces(path).push(none)[0] == pieces(path)[0]);
    assert(pieces(path).push(dot)[0] == pieces(path)[0]);
    assert(components(path.push('/')) =~= components(path));
    assert(components(path.push('/').push('.')) =~= components(path));
}

/// A name made of a stem and an extension that holds no dot is taken apart again.
pub proof fn law_stem_and_extension_are_found(stem: Seq<char>, extension: Seq<char>)
    requires
        stem.len() > 0,
        !extension.contains('.'),
    ensures
        extension_of(stem.push('.') + extension) == Some(extension),
        stem_of(stem.push('.') + extension) == stem,
{
    let name = stem.push('.') + extension;
    lemma_behind_last(stem, extension, '.');
    assert(name.skip((stem.len() + 1) as int) =~= extension);
    assert(name.take(stem.len() as int) =~= stem);
}

/// Where the last `c` stands once something without it follows.
pub proof fn lemma_behind_last(before: Seq<char>, behind: Seq<char>, c: char)
    requires
        !behind.contains(c),
    ensures
        behind_last(before.push(c) + behind, c) == Some((before.len() + 1) as int),
    decreases behind.len(),
{
    let all = before.push(c) + behind;
    if behind.len() == 0 {
        assert(all =~= before.push(c));
        assert(all.last() == c);
    } else {
        let rest = behind.drop_last();
        assert forall|i: int| 0 <= i < rest.len() implies rest[i] != c by {
            assert(behind[i] == rest[i]);
            assert(behind.contains(behind[i]));
        }
        lemma_behind_last(before, rest, c);
        assert(all.drop_last() =~= before.push(c) + rest);
        assert(all.last() == behind.last());
        assert(behind.contains(behind.last()));
    }
}

} // verus!

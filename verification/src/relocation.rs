//! Moving the database to another folder.
//!
//! A [`Relocation`] says at every point what is to be done next; the caller does it and
//! hands back what came of it. Nothing of the present database is removed before its
//! copy is in use and its place is recorded.
use vstd::prelude::*;

use crate::failure::outcome;
use crate::failure::ErrorModel;
use crate::failure::Failure;
use crate::failure::LibraryError;
use crate::failure::Rule;
use crate::paths::compares;
use crate::paths::components;
use crate::paths::is_name;
use crate::paths::is_plain;
use crate::paths::law_end_of_a_path_changes_nothing;
use crate::paths::law_file_lies_in_its_folder;
use crate::paths::leads_up;
use crate::paths::parent_folder;
use crate::paths::same_path;
use crate::paths::text_of;
use crate::paths::without_last;
use crate::paths::Platform;
use crate::text::is_blank;
use crate::text::trim;

verus! {

/// A file of a database.
#[derive(Clone, Copy, Debug, PartialEq, Eq, Structural)]
pub enum Part {
    Main,
    Log,
    SharedMemory,
}

/// How far a relocation has come.
#[derive(Clone, Copy, Debug, PartialEq, Eq, Structural)]
pub enum Stage {
    Begun,
    FolderMade,
    Writable,
    Occupied(Part),
    Clear,
    Copied,
    Switched,
    Leftover(Part),
    Finished,
    Refused,
}

/// What is to be done next.
#[derive(Clone, Copy, Debug, PartialEq, Eq, Structural)]
pub enum Action {
    /// Make the folder, if it is not there.
    MakeFolder,
    /// See whether a file can be written to the folder.
    TestWriting,
    /// See whether a database is in the folder.
    LookForDatabase,
    /// Remove a file of the database that is in the folder, if it is there.
    RemoveTargetFile(Part),
    /// Copy the database to the folder.
    CopyDatabase,
    /// Use the copy from now on.
    SwitchConnection,
    /// Record the place of the copy.
    SaveLocation,
    /// Remove a file of the database as it was, if it is there and not a file of the
    /// copy; that it stays does no harm.
    RemoveOldFile(Part),
    /// Nothing: the database is where it was to go.
    Finish,
    /// Nothing: another database is in the folder.
    Refuse,
}

/// What the name of a file of a database ends in.
pub open spec fn suffix(part: Part) -> Seq<char> {
    match part {
        Part::Main => ""@,
        Part::Log => "-wal"@,
        Part::SharedMemory => "-shm"@,
    }
}

impl Part {
    /// What the name of this file of a database ends in.
    pub fn suffix(self) -> (r: &'static str)
        ensures
            r@ == suffix(self),
    {
        match self {
            Part::Main => "",
            Part::Log => "-wal",
            Part::SharedMemory => "-shm",
        }
    }

    /// The name of this file of the database `name`.
    pub fn of(self, name: &str) -> (r: String)
        ensures
            r@ == name@ + suffix(self),
    {
        let mut r = name.to_string();
        r.append(self.suffix());
        r
    }
}

/// What is to be done at a stage.
pub open spec fn action_at(stage: Stage) -> Action {
    match stage {
        Stage::Begun => Action::MakeFolder,
        Stage::FolderMade => Action::TestWriting,
        Stage::Writable => Action::LookForDatabase,
        Stage::Occupied(p) => Action::RemoveTargetFile(p),
        Stage::Clear => Action::CopyDatabase,
        Stage::Copied => Action::SwitchConnection,
        Stage::Switched => Action::SaveLocation,
        Stage::Leftover(p) => Action::RemoveOldFile(p),
        Stage::Finished => Action::Finish,
        Stage::Refused => Action::Refuse,
    }
}

/// The stage once what was to be done is done; `found` says whether a database is in the
/// folder.
pub open spec fn stage_after(stage: Stage, overwrite: bool, found: bool) -> Stage {
    match stage {
        Stage::Begun => Stage::FolderMade,
        Stage::FolderMade => Stage::Writable,
        Stage::Writable => if !found {
            Stage::Clear
        } else if overwrite {
            Stage::Occupied(Part::Main)
        } else {
            Stage::Refused
        },
        Stage::Occupied(Part::Main) => Stage::Occupied(Part::Log),
        Stage::Occupied(Part::Log) => Stage::Occupied(Part::SharedMemory),
        Stage::Occupied(Part::SharedMemory) => Stage::Clear,
        Stage::Clear => Stage::Copied,
        Stage::Copied => Stage::Switched,
        Stage::Switched => Stage::Leftover(Part::Main),
        Stage::Leftover(Part::Main) => Stage::Leftover(Part::Log),
        Stage::Leftover(Part::Log) => Stage::Leftover(Part::SharedMemory),
        Stage::Leftover(Part::SharedMemory) => Stage::Finished,
        Stage::Finished => Stage::Finished,
        Stage::Refused => Stage::Refused,
    }
}

/// A number that grows from stage to stage.
pub open spec fn progress(stage: Stage) -> int {
    match stage {
        Stage::Begun => 0,
        Stage::FolderMade => 1,
        Stage::Writable => 2,
        Stage::Occupied(Part::Main) => 3,
        Stage::Occupied(Part::Log) => 4,
        Stage::Occupied(Part::SharedMemory) => 5,
        Stage::Clear => 6,
        Stage::Copied => 7,
        Stage::Switched => 8,
        Stage::Leftover(Part::Main) => 9,
        Stage::Leftover(Part::Log) => 10,
        Stage::Leftover(Part::SharedMemory) => 11,
        Stage::Finished => 12,
        Stage::Refused => 12,
    }
}

/// Every step leads on, until the relocation is finished or refused.
pub proof fn law_relocation_comes_to_an_end(stage: Stage, overwrite: bool, found: bool)
    ensures
        stage == Stage::Finished || stage == Stage::Refused || progress(stage) < progress(
            stage_after(stage, overwrite, found),
        ),
        progress(stage) <= 12,
{
}

/// What is in the folder is removed only where that is asked for.
pub proof fn law_target_is_kept_unless_asked(stage: Stage, found: bool)
    requires
        !(stage is Occupied),
    ensures
        !(stage_after(stage, false, found) is Occupied),
        stage == Stage::Writable && found ==> stage_after(stage, false, found) == Stage::Refused,
{
}

/// A file of the database as it was is removed only once the copy is made, in use and
/// recorded: the stages at which that is done come before every such removal, and none
/// of them is passed over.
pub proof fn law_old_files_are_removed_last(stage: Stage, overwrite: bool, found: bool)
    requires
        stage_after(stage, overwrite, found) is Leftover,
        !(stage is Leftover),
    ensures
        stage == Stage::Switched,
        action_at(stage) == Action::SaveLocation,
        forall|before: Stage|
            stage_after(before, overwrite, found) == Stage::Switched ==> before == Stage::Copied
                && action_at(before) == Action::SwitchConnection,
        forall|before: Stage|
            stage_after(before, overwrite, found) == Stage::Copied ==> before == Stage::Clear
                && action_at(before) == Action::CopyDatabase,
{
}

/// The move of the database to another folder.
pub struct Relocation {
    pub overwrite: bool,
    pub stage: Stage,
}

/// That the database is in the folder already, if it is.
pub open spec fn begin_result(same_folder: bool) -> Result<(), ErrorModel> {
    if same_folder {
        Err(Failure::Rule(Rule::SameLocation))
    } else {
        Ok(())
    }
}

impl Relocation {
    /// Begins the move; `same_folder` says whether the database is in the folder
    /// already, `overwrite` whether another database there may be removed.
    pub fn begin(same_folder: bool, overwrite: bool) -> (r: Result<Relocation, LibraryError>)
        ensures
            match begin_result(same_folder) {
                Ok(_) => r matches Ok(m) && m.stage == Stage::Begun && m.overwrite == overwrite,
                Err(e) => r matches Err(f) && f@ == e,
            },
    {
        if same_folder {
            return Err(Failure::Rule(Rule::SameLocation));
        }
        Ok(Relocation { overwrite, stage: Stage::Begun })
    }

    /// What is to be done next.
    pub fn action(&self) -> (r: Action)
        ensures
            r == action_at(self.stage),
    {
        match self.stage {
            Stage::Begun => Action::MakeFolder,
            Stage::FolderMade => Action::TestWriting,
            Stage::Writable => Action::LookForDatabase,
            Stage::Occupied(p) => Action::RemoveTargetFile(p),
            Stage::Clear => Action::CopyDatabase,
            Stage::Copied => Action::SwitchConnection,
            Stage::Switched => Action::SaveLocation,
            Stage::Leftover(p) => Action::RemoveOldFile(p),
            Stage::Finished => Action::Finish,
            Stage::Refused => Action::Refuse,
        }
    }

    /// Takes note that what was to be done is done; `found` says whether a database is
    /// in the folder.
    pub fn done(&mut self, found: bool) -> (r: Result<(), LibraryError>)
        ensures
            final(self).overwrite == old(self).overwrite,
            final(self).stage == stage_after(old(self).stage, old(self).overwrite, found),
            outcome(r) == if final(self).stage == Stage::Refused {
                Err::<(), ErrorModel>(Failure::Rule(Rule::LocationOccupied))
            } else {
                Ok(())
            },
    {
        let next = match self.stage {
            Stage::Begun => Stage::FolderMade,
            Stage::FolderMade => Stage::Writable,
            Stage::Writable => if !found {
                Stage::Clear
            } else if self.overwrite {
                Stage::Occupied(Part::Main)
            } else {
                Stage::Refused
            },
            Stage::Occupied(Part::Main) => Stage::Occupied(Part::Log),
            Stage::Occupied(Part::Log) => Stage::Occupied(Part::SharedMemory),
            Stage::Occupied(Part::SharedMemory) => Stage::Clear,
            Stage::Clear => Stage::Copied,
            Stage::Copied => Stage::Switched,
            Stage::Switched => Stage::Leftover(Part::Main),
            Stage::Leftover(Part::Main) => Stage::Leftover(Part::Log),
            Stage::Leftover(Part::Log) => Stage::Leftover(Part::SharedMemory),
            Stage::Leftover(Part::SharedMemory) => Stage::Finished,
            Stage::Finished => Stage::Finished,
            Stage::Refused => Stage::Refused,
        };
        self.stage = next;
        match next {
            Stage::Refused => Err(Failure::Rule(Rule::LocationOccupied)),
            _ => Ok(()),
        }
    }
}

/// Whether `b` may say whether the folder `parent`, if there is one, is `folder`: nothing is
/// in no folder.
pub open spec fn answers_for(b: bool, parent: Option<Seq<char>>, folder: Seq<char>) -> bool {
    match parent {
        Some(p) => exists|os: Platform| #[trigger] compares(os, p, folder, b),
        None => !b,
    }
}

/// Whether the database at `database` is in the folder `folder`.
pub fn is_in_folder(database: &str, folder: &str) -> (b: bool)
    ensures
        exists|os: Platform, parent: Option<Seq<char>>| #[trigger]
            leads_up(os, database@, parent) && answers_for(b, parent, folder@),
        is_plain(database@) && is_plain(folder@) ==> b == (components(database@).parts.len() > 0
            && without_last(components(database@)) == components(folder@)),
{
    let parent = parent_folder(database);
    let b: bool = match &parent {
        Some(p) => same_path(p.as_str(), folder),
        None => false,
    };
    proof {
        let os = choose|os: Platform| #[trigger] leads_up(os, database@, text_of(parent));
        assert(leads_up(os, database@, text_of(parent)) && answers_for(b, text_of(parent), folder@));
    }
    b
}

/// The file of the database as it was that is to be removed: none, where that is a file
/// of the copy.
pub fn old_file(database: &str, part: Part, target: &str) -> (r: Option<String>)
    ensures
        r matches Some(f) ==> f@ == database@ + suffix(part),
        exists|os: Platform| #[trigger]
            compares(os, database@ + suffix(part), target@, r is None),
        is_plain(database@ + suffix(part)) && is_plain(target@) ==> (r is None <==> components(
            database@ + suffix(part),
        ) == components(target@)),
{
    let file = part.of(database);
    if same_path(file.as_str(), target) {
        None
    } else {
        Some(file)
    }
}

/// The folder that a database lies in is known for it, whether or not a slash stands at
/// the end of the folder's path.
pub proof fn law_database_is_in_its_folder(folder: Seq<char>, name: Seq<char>)
    requires
        folder.len() > 0,
        is_name(name),
        !name.contains('/'),
    ensures
        components(folder.push('/') + name).parts.len() > 0,
        without_last(components(folder.push('/') + name)) == components(folder),
        without_last(components(folder.push('/') + name)) == components(folder.push('/')),
{
    law_file_lies_in_its_folder(folder, name);
    law_end_of_a_path_changes_nothing(folder);
}

/// Where the database is: at the place recorded, unless that is blank.
pub open spec fn chosen_location(custom: Option<Seq<char>>) -> Option<Seq<char>> {
    match custom {
        Some(c) => if is_blank(c) {
            None
        } else {
            Some(c)
        },
        None => None,
    }
}

/// Where the database is: at the place recorded, unless that is blank; else `None`, for
/// the usual place.
pub fn choose_location(custom: Option<String>) -> (r: Option<String>)
    ensures
        text_of(r) == chosen_location(text_of(custom)),
{
    match custom {
        Some(c) => if trim(c.as_str()).as_str().is_empty() {
            None
        } else {
            Some(c)
        },
        None => None,
    }
}

/// Where a database is to be opened.
pub enum DatabasePlace {
    /// At the place recorded, once `folder` is there, if the place is in one.
    Recorded { path: String, folder: Option<String> },
    /// In the folder of the application's data, once that is there.
    Usual,
}

/// Decides where the database is to be opened and which folder has to be there: at the place
/// recorded, as it was recorded, unless that is blank; else at the usual place.
pub fn resolve_db_path(custom: Option<String>) -> (r: DatabasePlace)
    ensures
        match chosen_location(text_of(custom)) {
            Some(c) => r matches DatabasePlace::Recorded { path, folder } && path@ == c && (exists|
                os: Platform,
            | #[trigger]
                leads_up(os, c, text_of(folder))) && (is_plain(c) ==> match folder {
                Some(f) => components(c).parts.len() > 0 && components(f@) == without_last(
                    components(c),
                ),
                None => components(c).parts.len() == 0,
            }),
            None => r is Usual,
        },
{
    match choose_location(custom) {
        Some(path) => {
            let folder = parent_folder(path.as_str());
            DatabasePlace::Recorded { path, folder }
        },
        None => DatabasePlace::Usual,
    }
}

} // verus!

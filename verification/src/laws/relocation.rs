//! Laws of moving the database to another folder.
use vstd::prelude::*;

use crate::failure::ErrorModel;
use crate::failure::Failure;
use crate::failure::Rule;
use crate::laws::text::law_trim_drops_white_space_at_the_ends;
use crate::relocation::action_at;
use crate::relocation::begin_result;
use crate::relocation::chosen_location;
use crate::relocation::stage_after;
use crate::relocation::suffix;
use crate::relocation::Action;
use crate::relocation::Part;
use crate::relocation::Stage;
use crate::text::is_white_space;

verus! {

/// What is done from a stage on, up to `n` actions.
pub open spec fn actions_from(stage: Stage, overwrite: bool, found: bool, n: nat) -> Seq<Action>
    decreases n,
{
    if n == 0 {
        Seq::empty()
    } else {
        seq![action_at(stage)] + actions_from(
            stage_after(stage, overwrite, found),
            overwrite,
            found,
            (n - 1) as nat,
        )
    }
}

/// What is done once nothing is in the way: the database is copied, the copy used and recorded,
/// and the files as they were removed.
pub open spec fn moving() -> Seq<Action> {
    seq![
        Action::CopyDatabase,
        Action::SwitchConnection,
        Action::SaveLocation,
        Action::RemoveOldFile(Part::Main),
        Action::RemoveOldFile(Part::Log),
        Action::RemoveOldFile(Part::SharedMemory),
        Action::Finish,
    ]
}

/// What is done first: the folder is made and tried, and looked into.
pub open spec fn looking() -> Seq<Action> {
    seq![Action::MakeFolder, Action::TestWriting, Action::LookForDatabase]
}

/// What is done to a database that is in the way.
pub open spec fn clearing() -> Seq<Action> {
    seq![
        Action::RemoveTargetFile(Part::Main),
        Action::RemoveTargetFile(Part::Log),
        Action::RemoveTargetFile(Part::SharedMemory),
    ]
}

/// A database is moved step by step: a database that is in the way is removed where that is
/// asked for; where it is not, the move ends there, and nothing is copied or removed.
pub proof fn law_database_is_moved_step_by_step(overwrite: bool, found: bool)
    ensures
        !found ==> actions_from(Stage::Begun, overwrite, found, 10) == looking() + moving(),
        found && overwrite ==> actions_from(Stage::Begun, overwrite, found, 13) == looking()
            + clearing() + moving(),
        found && !overwrite ==> actions_from(Stage::Begun, overwrite, found, 4) == looking().push(
            Action::Refuse,
        ),
{
    reveal_with_fuel(actions_from, 14);
    if !found {
        assert(actions_from(Stage::Begun, overwrite, found, 10) =~= looking() + moving());
    } else if overwrite {
        assert(actions_from(Stage::Begun, overwrite, found, 13) =~= looking() + clearing()
            + moving());
    } else {
        assert(actions_from(Stage::Begun, overwrite, found, 4) =~= looking().push(Action::Refuse));
    }
}

/// A move that is at its end stays there.
pub proof fn law_move_stays_at_its_end(stage: Stage, overwrite: bool, found: bool)
    ensures
        action_at(stage) == Action::Finish || action_at(stage) == Action::Refuse ==> stage_after(
            stage,
            overwrite,
            found,
        ) == stage,
{
}

/// A database is not moved to where it is, and can be moved anywhere else.
pub proof fn law_database_is_moved_elsewhere(same_folder: bool)
    ensures
        begin_result(same_folder) is Ok <==> !same_folder,
        same_folder ==> begin_result(same_folder) == Err::<(), ErrorModel>(
            Failure::Rule(Rule::SameLocation),
        ),
{
}

/// The files of a database are told apart by how their names end.
pub proof fn law_files_of_a_database(database: Seq<char>)
    ensures
        database + suffix(Part::Main) == database,
        suffix(Part::Log) == "-wal"@,
        suffix(Part::SharedMemory) == "-shm"@,
{
    reveal_strlit("");
    assert(database + suffix(Part::Main) =~= database);
}

/// The place recorded is kept as it was recorded, unless nothing but white space is; then, and
/// where nothing is recorded, there is none.
pub proof fn law_place_recorded_is_kept(custom: Option<Seq<char>>)
    ensures
        chosen_location(custom) is None <==> custom is None || forall|k: int|
            0 <= k < custom->0.len() ==> is_white_space(#[trigger] custom->0[k]),
        chosen_location(custom) is Some ==> chosen_location(custom) == custom,
{
    if let Some(c) = custom {
        law_trim_drops_white_space_at_the_ends(c);
    }
}

} // verus!

//! What an operation of the library is refused with.
use vstd::prelude::*;

verus! {

/// A rule of the library that an operation would break.
#[derive(Clone, Copy, Debug, PartialEq, Eq, Structural)]
pub enum Rule {
    EmptyTagName,
    EmptyCategoryName,
    EmptyAlbumName,
    NoSuchTag,
    NoSuchParent,
    NoSuchCategory,
    CategoryNotEmpty,
    ParentInOtherCategory,
    ChosenTagMissing,
    MoveToSelf,
    MoveIntoDescendant,
    UnknownCandidateKind,
    NoSuchCandidateTarget,
    NegativeClipStart,
    ClipEndsBeforeStart,
    DanglingReference,
    SameLocation,
    LocationOccupied,
}

/// A step that writes rows.
#[derive(Clone, Copy, Debug, PartialEq, Eq, Structural)]
pub enum Step {
    InsertMusic,
    UpdateMusic,
    InsertClip,
    SaveTag,
    SaveLink,
    CreateUncategorized,
    CreateTag,
    CreateTagCategory,
    CreateCategory,
    UpdateTag,
    UpdateCategory,
    MoveTag,
    MoveSubtree,
    LiftChildren,
    WriteLocation,
    SeedCategory,
    SeedTag,
    MigrateCategories,
    FillCategories,
    MigrateTags,
    SwitchTagTables,
    IndexTags,
    IndexPaths,
    MigrateTag,
    CreateDimension,
}

/// What no two rows of a table have in common.
#[derive(Clone, Copy, Debug, PartialEq, Eq, Structural)]
pub enum Key {
    MusicId,
    MusicPath,
    ClipId,
    CategoryName,
    TagPlace,
    LegacyCategoryName,
    LegacyTagId,
}

/// What keeps a row from being written.
#[derive(Clone, Copy, Debug, PartialEq, Eq, Structural)]
pub enum Constraint {
    Unique(Key),
    ForeignKey,
    Full,
    OutOfRange,
}

/// What is read of the music.
#[derive(Clone, Copy, Debug, PartialEq, Eq, Structural)]
pub enum Reading {
    /// One music, with all columns of the table; the duration stands in that given.
    OneMusic(u32),
    /// All music, with the columns that a list shows.
    AllMusic,
}

/// Why an operation is refused. `T` holds the text that the refusal quotes.
#[derive(Debug)]
pub enum Failure<T> {
    /// The operation would break a rule.
    Rule(Rule),
    /// Another tag already has this name at the place aimed at.
    NameTaken(T),
    /// A row could not be written.
    Write(Step, Constraint),
    /// A music was written with a duration that is no number, and cannot be read.
    NoDuration(Reading),
    /// The database was written under a later schema, of this number.
    NewerSchema(i64),
}

/// Why an operation is refused.
pub type LibraryError = Failure<String>;

/// Why an operation is refused, mathematically.
pub type ErrorModel = Failure<Seq<char>>;

impl View for LibraryError {
    type V = ErrorModel;

    open spec fn view(&self) -> ErrorModel {
        match *self {
            Failure::Rule(r) => Failure::Rule(r),
            Failure::NameTaken(n) => Failure::NameTaken(n@),
            Failure::Write(s, c) => Failure::Write(s, c),
            Failure::NoDuration(r) => Failure::NoDuration(r),
            Failure::NewerSchema(v) => Failure::NewerSchema(v),
        }
    }
}

/// The result of an operation, with the refusal taken by its view.
pub open spec fn outcome<T>(r: Result<T, LibraryError>) -> Result<T, ErrorModel> {
    match r {
        Ok(v) => Ok(v),
        Err(e) => Err(e@),
    }
}

} // verus!

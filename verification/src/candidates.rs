//! Picking candidates among the music and clips.
use vstd::prelude::*;

use crate::catalog::models;
use crate::failure::outcome;
use crate::failure::ErrorModel;
use crate::failure::Failure;
use crate::failure::LibraryError;
use crate::failure::Rule;
use crate::library::has_clip;
use crate::library::has_music;
use crate::library::is_alive;
use crate::library::CandidateKind;
use crate::library::CandidateModel;
use crate::library::CandidateRow;
use crate::library::Library;
use crate::library::LibraryModel;
use crate::order::in_order;
use crate::order::sort;
use crate::order::Ordered;
use crate::rows::lemma_filter_all;
use crate::rows::lemma_filter_at;
use crate::rows::lemma_filter_pair;
use crate::rows::lemma_filter_push;
use crate::rows::retain;
use crate::text::same_text;

verus! {

/// A candidate as it is handed out.
pub struct CandidateEntry {
    pub target_id: String,
    pub kind: String,
}

/// A candidate as it is handed out, mathematically.
pub struct CandidateEntryModel {
    pub target_id: Seq<char>,
    pub kind: Seq<char>,
}

impl View for CandidateEntry {
    type V = CandidateEntryModel;

    open spec fn view(&self) -> CandidateEntryModel {
        CandidateEntryModel { target_id: self.target_id@, kind: self.kind@ }
    }
}

/// The name of a kind of candidate.
pub open spec fn kind_name(kind: CandidateKind) -> Seq<char> {
    match kind {
        CandidateKind::Music => "music"@,
        CandidateKind::Clip => "clip"@,
    }
}

/// The kind of candidate that has the name `name`.
pub open spec fn kind_named(name: Seq<char>) -> Option<CandidateKind> {
    if name == kind_name(CandidateKind::Music) {
        Some(CandidateKind::Music)
    } else if name == kind_name(CandidateKind::Clip) {
        Some(CandidateKind::Clip)
    } else {
        None
    }
}

impl CandidateKind {
    /// The name of this kind of candidate.
    pub fn name(self) -> (r: String)
        ensures
            r@ == kind_name(self),
    {
        match self {
            CandidateKind::Music => "music".to_string(),
            CandidateKind::Clip => "clip".to_string(),
        }
    }

    /// The kind of candidate that has the name `name`.
    pub fn named(name: &str) -> (r: Option<CandidateKind>)
        ensures
            r == kind_named(name@),
    {
        if same_text(name, "music") {
            Some(CandidateKind::Music)
        } else if same_text(name, "clip") {
            Some(CandidateKind::Clip)
        } else {
            None
        }
    }
}

/// Every kind of candidate is found again under its name.
pub proof fn law_kind_is_found_by_name(kind: CandidateKind)
    ensures
        kind_named(kind_name(kind)) == Some(kind),
{
    reveal_strlit("music");
    reveal_strlit("clip");
    assert("music"@.len() != "clip"@.len());
}

/// Whether a target is a candidate.
pub open spec fn is_picked(candidates: Seq<CandidateModel>, target: Seq<char>) -> bool {
    exists|i: int| 0 <= i < candidates.len() && #[trigger] candidates[i].target_id == target
}

/// The library once the target given is a candidate, or why it cannot be one. What is a
/// candidate already stays as it is.
pub open spec fn create_candidate_result(
    l: LibraryModel,
    target: Seq<char>,
    kind: Seq<char>,
    created_at: i64,
) -> Result<LibraryModel, ErrorModel> {
    match kind_named(kind) {
        None => Err(Failure::Rule(Rule::UnknownCandidateKind)),
        Some(k) => {
            let c = CandidateModel { target_id: target, kind: k, created_at };
            if !is_alive(l, c) {
                Err(Failure::Rule(Rule::NoSuchCandidateTarget))
            } else if is_picked(l.candidates, target) {
                Ok(l)
            } else {
                Ok(LibraryModel { candidates: l.candidates.push(c), ..l })
            }
        },
    }
}

/// Being a candidate other than `target`.
pub open spec fn other_candidate(target: Seq<char>) -> spec_fn(CandidateModel) -> bool {
    |c: CandidateModel| c.target_id != target
}

/// The candidates as they are handed out.
pub open spec fn entries(candidates: Seq<CandidateModel>) -> Seq<CandidateEntryModel> {
    candidates.map_values(
        |c: CandidateModel|
            CandidateEntryModel { target_id: c.target_id, kind: kind_name(c.kind) },
    )
}

impl Ordered for CandidateRow {
    open spec fn le(a: CandidateModel, b: CandidateModel) -> bool {
        a.created_at <= b.created_at
    }

    proof fn le_total(a: CandidateModel, b: CandidateModel) {
    }

    proof fn le_transitive(a: CandidateModel, b: CandidateModel, c: CandidateModel) {
    }

    fn at_most(&self, other: &Self) -> (r: bool) {
        self.created_at <= other.created_at
    }
}

/// Only what exists becomes a candidate, and nothing becomes one twice.
pub proof fn law_candidates_stay_alive(
    l: LibraryModel,
    target: Seq<char>,
    kind: Seq<char>,
    created_at: i64,
)
    requires
        l.wf(),
        create_candidate_result(l, target, kind, created_at) is Ok,
    ensures
        (create_candidate_result(l, target, kind, created_at)->Ok_0).wf(),
        l.candidates_alive() ==> (create_candidate_result(
            l,
            target,
            kind,
            created_at,
        )->Ok_0).candidates_alive(),
        is_picked(
            (create_candidate_result(l, target, kind, created_at)->Ok_0).candidates,
            target,
        ),
{
    let r = create_candidate_result(l, target, kind, created_at)->Ok_0;
    if !is_picked(l.candidates, target) {
        let n = l.candidates.len() as int;
        assert(r.candidates[n].target_id == target);
        assert forall|i: int, j: int| 0 <= i < j < r.candidates.len() implies (
        #[trigger] r.candidates[i]).target_id != (#[trigger] r.candidates[j]).target_id by {
            if j == n {
                assert(l.candidates[i].target_id != target);
            } else {
                assert(l.candidates[i].target_id != l.candidates[j].target_id);
            }
        }
        if l.candidates_alive() {
            assert forall|i: int| 0 <= i < r.candidates.len() implies is_alive(
                r,
                #[trigger] r.candidates[i],
            ) by {
                if i < n {
                    assert(is_alive(l, l.candidates[i]));
                }
            }
        }
    }
}

/// A candidate taken back is none, and the others stay.
pub proof fn law_candidate_is_taken_back(l: LibraryModel, target: Seq<char>)
    requires
        l.wf(),
    ensures
        ({
            let r = LibraryModel { candidates: l.candidates.filter(other_candidate(target)), ..l };
            &&& r.wf()
            &&& l.candidates_alive() ==> r.candidates_alive()
            &&& !is_picked(r.candidates, target)
            &&& forall|other: Seq<char>| #[trigger]
                is_picked(l.candidates, other) && other != target ==> is_picked(
                    r.candidates,
                    other,
                )
        }),
{
    let p = other_candidate(target);
    let r = LibraryModel { candidates: l.candidates.filter(p), ..l };
    assert forall|i: int, j: int| 0 <= i < j < r.candidates.len() implies (
    #[trigger] r.candidates[i]).target_id != (#[trigger] r.candidates[j]).target_id by {
        let (a, b) = lemma_filter_pair(l.candidates, p, i, j);
        assert(l.candidates[a].target_id != l.candidates[b].target_id);
    }
    if l.candidates_alive() {
        assert forall|i: int| 0 <= i < r.candidates.len() implies is_alive(
            r,
            #[trigger] r.candidates[i],
        ) by {
            let a = lemma_filter_at(l.candidates, p, i);
            assert(is_alive(l, l.candidates[a]));
        }
    }
    if is_picked(r.candidates, target) {
        let i = choose|i: int|
            0 <= i < r.candidates.len() && #[trigger] r.candidates[i].target_id == target;
        let a = lemma_filter_at(l.candidates, p, i);
    }
    assert forall|other: Seq<char>| #[trigger]
        is_picked(l.candidates, other) && other != target implies is_picked(
        r.candidates,
        other,
    ) by {
        let a = choose|a: int|
            0 <= a < l.candidates.len() && #[trigger] l.candidates[a].target_id == other;
        let i = crate::rows::lemma_filter_has(l.candidates, p, a);
        assert(r.candidates[i].target_id == other);
    }
}

/// A candidate that is picked and taken back leaves the candidates as they were.
pub proof fn law_picked_candidate_is_undone(
    l: LibraryModel,
    target: Seq<char>,
    kind: Seq<char>,
    created_at: i64,
)
    requires
        !is_picked(l.candidates, target),
        create_candidate_result(l, target, kind, created_at) is Ok,
    ensures
        (create_candidate_result(l, target, kind, created_at)->Ok_0).candidates.filter(
            other_candidate(target),
        ) == l.candidates,
{
    let r = create_candidate_result(l, target, kind, created_at)->Ok_0;
    lemma_filter_push(l.candidates, r.candidates.last(), other_candidate(target));
    assert(r.candidates =~= l.candidates.push(r.candidates.last()));
    lemma_filter_all(l.candidates, other_candidate(target));
}

impl Library {
    /// Whether a target is a candidate.
    fn has_candidate(&self, target: &str) -> (b: bool)
        ensures
            b == is_picked(self@.candidates, target@),
    {
        let mut i: usize = 0;
        while i < self.candidates.len()
            invariant
                i <= self.candidates@.len(),
                forall|j: int| 0 <= j < i ==> (#[trigger] self@.candidates[j]).target_id != target@,
            decreases self.candidates@.len() - i,
        {
            if same_text(self.candidates[i].target_id.as_str(), target) {
                assert(self@.candidates[i as int].target_id == target@);
                return true;
            }
            i = i + 1;
        }
        false
    }

    /// Makes a music or a clip that exists a candidate.
    pub fn create_candidate(&mut self, target_id: &str, kind: &str, created_at: i64) -> (r: Result<
        (),
        LibraryError,
    >)
        requires
            old(self)@.wf(),
        ensures
            final(self)@.wf(),
            match create_candidate_result(old(self)@, target_id@, kind@, created_at) {
                Ok(l) => r is Ok && final(self)@ == l,
                Err(e) => outcome(r) == Err::<(), ErrorModel>(e) && final(self)@ == old(self)@,
            },
    {
        let kind = match CandidateKind::named(kind) {
            Some(k) => k,
            None => {
                return Err(Failure::Rule(Rule::UnknownCandidateKind));
            },
        };
        let exists_already: bool = match kind {
            CandidateKind::Music => self.music_index(target_id).is_some(),
            CandidateKind::Clip => self.clip_index(target_id).is_some(),
        };
        proof {
            assert(exists_already == match kind {
                CandidateKind::Music => has_music(self@.music, target_id@),
                CandidateKind::Clip => has_clip(self@.clips, target_id@),
            });
        }
        if !exists_already {
            return Err(Failure::Rule(Rule::NoSuchCandidateTarget));
        }
        if self.has_candidate(target_id) {
            return Ok(());
        }
        let ghost before = self@;
        self.candidates.push(
            CandidateRow { target_id: target_id.to_string(), kind, created_at },
        );
        proof {
            assert(self@.candidates =~= before.candidates.push(
                CandidateModel { target_id: target_id@, kind, created_at },
            ));
            law_candidates_stay_alive(before, target_id@, kind_name(kind), created_at);
            law_kind_is_found_by_name(kind);
        }
        Ok(())
    }

    /// Takes a candidate back.
    pub fn delete_candidate(&mut self, target_id: &str)
        requires
            old(self)@.wf(),
        ensures
            final(self)@.wf(),
            final(self)@ == (LibraryModel {
                candidates: old(self)@.candidates.filter(other_candidate(target_id@)),
                ..old(self)@
            }),
    {
        proof {
            law_candidate_is_taken_back(self@, target_id@);
        }
        let keep = |c: &CandidateRow| -> (b: bool)
            ensures
                b == (c@.target_id != target_id@),
            { !same_text(c.target_id.as_str(), target_id) };
        retain(&mut self.candidates, Ghost(other_candidate(target_id@)), keep);
    }

    /// Takes all candidates back.
    pub fn clear_candidates(&mut self)
        requires
            old(self)@.wf(),
        ensures
            final(self)@.wf(),
            final(self)@ == (LibraryModel { candidates: Seq::empty(), ..old(self)@ }),
    {
        self.candidates = Vec::new();
        proof {
            assert(models(self.candidates@) =~= Seq::empty());
        }
    }

    /// The candidates, in the order in which they were picked.
    pub fn list_candidates(&self) -> (r: Vec<CandidateEntry>)
        ensures
            exists|c: Seq<CandidateModel>|
                in_order::<CandidateRow>(c) && c.to_multiset() == self@.candidates.to_multiset()
                    && models(r@) == #[trigger] entries(c),
    {
        let copy = self.copy_candidates();
        let sorted = sort(copy);
        let ghost c = models(sorted@);
        let mut r: Vec<CandidateEntry> = Vec::new();
        let mut i: usize = 0;
        while i < sorted.len()
            invariant
                i <= sorted@.len(),
                r@.len() == i,
                c == models(sorted@),
                forall|j: int| 0 <= j < i ==> (#[trigger] r@[j])@ == entries(c)[j],
            decreases sorted@.len() - i,
        {
            r.push(
                CandidateEntry {
                    target_id: sorted[i].target_id.clone(),
                    kind: sorted[i].kind.name(),
                },
            );
            i = i + 1;
        }
        proof {
            assert(models(r@) =~= entries(c));
        }
        r
    }

    /// A copy of the candidates.
    pub fn copy_candidates(&self) -> (r: Vec<CandidateRow>)
        ensures
            models(r@) == self@.candidates,
    {
        let r = self.candidates.clone();
        proof {
            assert forall|i: int| 0 <= i < r@.len() implies (#[trigger] r@[i])@
                == self.candidates@[i]@ by {
                assert(cloned::<CandidateRow>(self.candidates@[i], r@[i]));
            }
            assert(models(r@) =~= self@.candidates);
        }
        r
    }
}

} // verus!

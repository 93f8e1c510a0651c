//! Testing whether tables that were read from elsewhere are in order.
use vstd::prelude::*;

use crate::catalog::acyclic;
use crate::catalog::categories_wf;
use crate::catalog::has_category;
use crate::catalog::has_tag;
use crate::catalog::is_rank;
use crate::catalog::models;
use crate::catalog::tag_ids_unique;
use crate::catalog::tags_linked;
use crate::catalog::Catalog;
use crate::catalog::CatalogModel;
use crate::catalog::CategoryModel;
use crate::catalog::CategoryRow;
use crate::catalog::TagModel;
use crate::catalog::TagRow;
use crate::legacy::ids_distinct;
use crate::legacy::legacy_wf;
use crate::legacy::LegacyTag;
use crate::legacy::LegacyTagModel;
use crate::library::candidates_wf;
use crate::library::clip_keys;
use crate::library::clip_owners;
use crate::library::clip_sources;
use crate::library::has_clip;
use crate::library::has_music;
use crate::library::music_keys;
use crate::library::music_owners;
use crate::library::paths_distinct;
use crate::library::lemma_library_wf;
use crate::library::CandidateModel;
use crate::library::CandidateRow;
use crate::library::ClipModel;
use crate::library::ClipRow;
use crate::library::Library;
use crate::library::MusicModel;
use crate::library::MusicRow;
use crate::links::targets_exist;
use crate::links::LinkModel;
use crate::links::LinkRow;
use crate::migrate::texts_of_clips;
use crate::migrate::texts_of_music;
use crate::migrate::RawTags;
use crate::migrate::RawTagsModel;
use crate::migrate::Tables;
use crate::rows::all_satisfy;
use crate::rows::holds_of_all;
use crate::rows::holds_of_pairs;
use crate::rows::pairs_satisfy;
use crate::seconds::valid_range;
use crate::seconds::validate_clip_range;
use crate::text::nocase;
use crate::text::same_nocase;
use crate::text::same_text;
use crate::tree::places_distinct;

verus! {

/// Whether the tag at `i` has a parent, and that stands at `k`.
spec fn parent_at(tags: Seq<TagModel>, i: int, k: int) -> bool {
    0 <= k < tags.len() && tags[i].parent_id == Some(tags[k].id)
}

/// Where every tag that is not settled has a parent that is not settled, and no tag is
/// above itself, every tag is settled.
proof fn lemma_none_waits(
    tags: Seq<TagModel>,
    settled: Seq<bool>,
    rank: spec_fn(i64) -> nat,
    i: int,
)
    requires
        is_rank(tags, rank),
        settled.len() == tags.len(),
        0 <= i < tags.len(),
        forall|j: int|
            0 <= j < tags.len() && !(#[trigger] settled[j]) ==> exists|k: int| #[trigger]
                parent_at(tags, j, k) && !settled[k],
    ensures
        settled[i],
    decreases rank(tags[i].id),
{
    if !settled[i] {
        let k = choose|k: int| #[trigger] parent_at(tags, i, k) && !settled[k];
        assert(tags[i].parent_id is Some);
        lemma_none_waits(tags, settled, rank, k);
    }
}

/// How many are not settled.
spec fn waiting(settled: Seq<bool>) -> nat
    decreases settled.len(),
{
    if settled.len() == 0 {
        0
    } else if settled.last() {
        waiting(settled.drop_last())
    } else {
        waiting(settled.drop_last()) + 1
    }
}

proof fn lemma_waiting(settled: Seq<bool>, i: int)
    requires
        0 <= i < settled.len(),
        !settled[i],
    ensures
        waiting(settled.update(i, true)) + 1 == waiting(settled),
    decreases settled.len(),
{
    let after = settled.update(i, true);
    if i == settled.len() - 1 {
        assert(after.drop_last() =~= settled.drop_last());
    } else {
        lemma_waiting(settled.drop_last(), i);
        assert(after.drop_last() =~= settled.drop_last().update(i, true));
    }
}

/// Whether `times` says of every settled tag when it was settled: later than its parent.
spec fn in_turn(tags: Seq<TagModel>, settled: Seq<bool>, times: Seq<nat>, clock: nat) -> bool {
    &&& settled.len() == tags.len()
    &&& times.len() == tags.len()
    &&& forall|i: int| 0 <= i < tags.len() && #[trigger] settled[i] ==> times[i] < clock
    &&& forall|i: int, k: int|
        0 <= i < tags.len() && #[trigger] parent_at(tags, i, k) && settled[i] ==> settled[k]
            && times[k] < times[i]
}

/// Where every tag is settled, no tag is above itself.
proof fn lemma_settled(tags: Seq<TagModel>, settled: Seq<bool>, times: Seq<nat>, clock: nat)
    requires
        tag_ids_unique(tags),
        in_turn(tags, settled, times, clock),
        forall|i: int| 0 <= i < tags.len() ==> #[trigger] settled[i],
    ensures
        acyclic(tags),
{
    let rank = |id: i64|
        if has_tag(tags, id) {
            (times[choose|i: int| 0 <= i < tags.len() && #[trigger] tags[i].id == id] + 1) as nat
        } else {
            0nat
        };
    assert forall|i: int| 0 <= i < tags.len() && (#[trigger] tags[i]).parent_id is Some implies rank(
        tags[i].parent_id->0,
    ) < rank(tags[i].id) by {
        let id = tags[i].id;
        assert(tags[i].id == id);
        let own = choose|j: int| 0 <= j < tags.len() && #[trigger] tags[j].id == id;
        assert(own == i);
        let p = tags[i].parent_id->0;
        if has_tag(tags, p) {
            let k = choose|k: int| 0 <= k < tags.len() && #[trigger] tags[k].id == p;
            assert(parent_at(tags, i, k));
            assert(settled[i]);
        }
    }
    assert(is_rank(tags, rank));
}

impl Catalog {
    /// Whether no tag is above itself.
    fn is_acyclic(&self) -> (b: bool)
        requires
            tag_ids_unique(self@.tags),
        ensures
            b == acyclic(self@.tags),
    {
        let ghost tags = self@.tags;
        let mut settled: Vec<bool> = Vec::new();
        let mut i: usize = 0;
        while i < self.tags.len()
            invariant
                i <= self.tags@.len(),
                settled@.len() == i,
                forall|j: int| 0 <= j < i ==> !settled@[j],
            decreases self.tags@.len() - i,
        {
            settled.push(false);
            i = i + 1;
        }
        let ghost mut times: Seq<nat> = Seq::new(tags.len(), |j: int| 0nat);
        let ghost mut clock: nat = 0;
        let mut progress: bool = true;
        while progress
            invariant
                tags == self@.tags,
                tag_ids_unique(tags),
                in_turn(tags, settled@, times, clock),
                !progress ==> forall|j: int|
                    0 <= j < tags.len() && !(#[trigger] settled@[j]) ==> exists|k: int| #[trigger]
                        parent_at(tags, j, k) && !settled@[k],
            decreases
                    waiting(settled@),
                    if progress {
                        1int
                    } else {
                        0int
                    },
        {
            progress = false;
            let ghost start = settled@;
            let mut j: usize = 0;
            while j < self.tags.len()
                invariant
                    tags == self@.tags,
                    tag_ids_unique(tags),
                    j <= self.tags@.len(),
                    in_turn(tags, settled@, times, clock),
                    waiting(settled@) <= waiting(start),
                    progress ==> waiting(settled@) < waiting(start),
                    !progress ==> settled@ == start,
                    !progress ==> forall|x: int|
                        0 <= x < j && !(#[trigger] start[x]) ==> exists|k: int| #[trigger]
                            parent_at(tags, x, k) && !start[k],
                decreases self.tags@.len() - j,
            {
                if !settled[j] {
                    let waits: bool = match self.tags[j].parent_id {
                        None => {
                            proof {
                                assert forall|k: int| !parent_at(tags, j as int, k) by {}
                            }
                            false
                        },
                        Some(p) => match self.tag_index(p) {
                            None => {
                                proof {
                                    assert forall|k: int| !parent_at(tags, j as int, k) by {
                                        if parent_at(tags, j as int, k) {
                                            assert(tags[k].id == p);
                                        }
                                    }
                                }
                                false
                            },
                            Some(k) => {
                                proof {
                                    assert(parent_at(tags, j as int, k as int));
                                    assert forall|x: int| parent_at(tags, j as int, x) implies x
                                        == k by {
                                        assert(tags[x].id == tags[k as int].id);
                                    }
                                }
                                !settled[k]
                            },
                        },
                    };
                    if !waits {
                        let ghost before = settled@;
                        let ghost old_times = times;
                        settled.set(j, true);
                        progress = true;
                        proof {
                            lemma_waiting(before, j as int);
                            times = times.update(j as int, clock);
                            clock = clock + 1;
                            assert forall|x: int, k: int|
                                0 <= x < tags.len() && #[trigger] parent_at(tags, x, k)
                                    && settled@[x] implies settled@[k] && times[k] < times[x] by {
                                if x == j {
                                    assert(before[k]);
                                } else {
                                    assert(before[x]);
                                    assert(before[k] && old_times[k] < old_times[x]);
                                }
                            }
                        }
                    }
                }
                j = j + 1;
            }
        }
        let mut k: usize = 0;
        while k < self.tags.len()
            invariant
                tags == self@.tags,
                k <= self.tags@.len(),
                in_turn(tags, settled@, times, clock),
                forall|j: int|
                    0 <= j < tags.len() && !(#[trigger] settled@[j]) ==> exists|x: int| #[trigger]
                        parent_at(tags, j, x) && !settled@[x],
                forall|j: int| 0 <= j < k ==> #[trigger] settled@[j],
            decreases self.tags@.len() - k,
        {
            if !settled[k] {
                proof {
                    if acyclic(tags) {
                        let rank = choose|rank: spec_fn(i64) -> nat| is_rank(tags, rank);
                        lemma_none_waits(tags, settled@, rank, k as int);
                    }
                }
                return false;
            }
            k = k + 1;
        }
        proof {
            lemma_settled(tags, settled@, times, clock);
        }
        true
    }
}

/// Having an identifier from one to the largest given.
spec fn category_in_range(seq: i64) -> spec_fn(CategoryModel) -> bool {
    |c: CategoryModel| 1 <= c.id <= seq
}

/// Having different identifiers and names.
spec fn categories_differ() -> spec_fn(CategoryModel, CategoryModel) -> bool {
    |a: CategoryModel, b: CategoryModel| a.id != b.id && nocase(a.name) != nocase(b.name)
}

/// Having an identifier from one to the largest given, and a category and a parent that
/// exist.
spec fn tag_is_linked(c: CatalogModel) -> spec_fn(TagModel) -> bool {
    |t: TagModel|
        1 <= t.id <= c.tag_seq && has_category(c.categories, t.category_id) && (t.parent_id is Some
            ==> has_tag(c.tags, t.parent_id->0))
}

impl Catalog {
    /// Whether the categories are in order.
    fn categories_are_sound(&self) -> (b: bool)
        ensures
            b == categories_wf(self@.categories, self@.category_seq),
    {
        let seq: i64 = self.category_seq;
        let in_range = |c: &CategoryRow| -> (b: bool)
            ensures
                b == (1 <= c@.id <= seq),
            { 1 <= c.id && c.id <= seq };
        let differ = |x: &CategoryRow, y: &CategoryRow| -> (b: bool)
            ensures
                b == (x@.id != y@.id && nocase(x@.name) != nocase(y@.name)),
            { x.id != y.id && !same_nocase(x.name.as_str(), y.name.as_str()) };
        let p = holds_of_all(&self.categories, Ghost(category_in_range(seq)), in_range);
        let q = holds_of_pairs(&self.categories, Ghost(categories_differ()), differ);
        proof {
            let s = self@.categories;
            if p {
                assert forall|i: int| 0 <= i < s.len() implies 1 <= (#[trigger] s[i]).id <= seq by {
                    assert(category_in_range(seq)(s[i]));
                }
            }
            if q {
                assert forall|i: int, j: int| 0 <= i < j < s.len() implies (#[trigger] s[i]).id != (
                #[trigger] s[j]).id && nocase(s[i].name) != nocase(s[j].name) by {
                    assert(categories_differ()(s[i], s[j]));
                }
            }
        }
        0 <= seq && p && q
    }

    /// Whether the tags are linked to what exists.
    pub fn tags_are_linked(&self) -> (b: bool)
        ensures
            b == tags_linked(self@.categories, self@.tags, self@.tag_seq),
    {
        let catalog: &Catalog = self;
        let linked = |t: &TagRow| -> (b: bool)
            ensures
                b == tag_is_linked(catalog@)(t@),
            {
                let parent_exists: bool = match t.parent_id {
                    Some(p) => catalog.tag_index(p).is_some(),
                    None => true,
                };
                let category_exists: bool = catalog.category_index(t.category_id).is_some();
                proof {
                    assert(category_exists == has_category(catalog@.categories, t@.category_id));
                }
                1 <= t.id && t.id <= catalog.tag_seq && category_exists && parent_exists
            };
        let p = holds_of_all(&self.tags, Ghost(tag_is_linked(self@)), linked);
        proof {
            let s = self@.tags;
            if p {
                assert forall|i: int| 0 <= i < s.len() implies tag_is_linked(self@)(
                    #[trigger] s[i],
                ) by {}
            }
        }
        if self.tag_seq < 0 || !p || !ids_distinct(&self.tags) {
            return false;
        }
        self.is_acyclic()
    }

    /// Whether the catalog is in order.
    pub fn is_sound(&self) -> (b: bool)
        ensures
            b == self@.wf(),
    {
        self.categories_are_sound() && self.tags_are_linked() && places_distinct(&self.tags)
    }

    /// Whether the categories are in order and the tags linked to what exists.
    pub fn is_linked_up(&self) -> (b: bool)
        ensures
            b == (categories_wf(self@.categories, self@.category_seq) && tags_linked(
                self@.categories,
                self@.tags,
                self@.tag_seq,
            )),
    {
        self.categories_are_sound() && self.tags_are_linked()
    }
}

/// Being two different rows.
spec fn rows_differ() -> spec_fn(LinkModel, LinkModel) -> bool {
    |a: LinkModel, b: LinkModel| a != b
}

/// Being a link to a tag that exists.
spec fn target_exists(tags: Seq<TagModel>) -> spec_fn(LinkModel) -> bool {
    |k: LinkModel| has_tag(tags, k.tag_id)
}

/// Whether no link is there twice.
pub fn links_distinct(links: &Vec<LinkRow>) -> (b: bool)
    ensures
        b == models(links@).no_duplicates(),
{
    let differ = |x: &LinkRow, y: &LinkRow| -> (b: bool)
        ensures
            b == (x@ != y@),
        { x.tag_id != y.tag_id || !same_text(x.owner.as_str(), y.owner.as_str()) };
    let b = holds_of_pairs(links, Ghost(rows_differ()), differ);
    proof {
        let s = models(links@);
        if b {
            assert forall|i: int, j: int| 0 <= i < s.len() && 0 <= j < s.len() && i != j implies
                s[i] != s[j] by {
                if i < j {
                    assert(rows_differ()(s[i], s[j]));
                } else {
                    assert(rows_differ()(s[j], s[i]));
                }
            }
        } else if s.no_duplicates() {
            assert forall|i: int, j: int| 0 <= i < j < s.len() implies rows_differ()(
                #[trigger] s[i],
                #[trigger] s[j],
            ) by {}
        }
    }
    b
}

impl Library {
    /// Whether every link is to a tag that exists.
    fn targets_are_there(&self, links: &Vec<LinkRow>) -> (b: bool)
        ensures
            b == targets_exist(self@.catalog.tags, models(links@)),
    {
        let library: &Library = self;
        let test = |k: &LinkRow| -> (b: bool)
            ensures
                b == has_tag(library@.catalog.tags, k@.tag_id),
            { library.catalog.tag_index(k.tag_id).is_some() };
        let b = holds_of_all(links, Ghost(target_exists(self@.catalog.tags)), test);
        proof {
            let s = models(links@);
            let p = target_exists(self@.catalog.tags);
            if b {
                assert forall|i: int| 0 <= i < s.len() implies has_tag(
                    self@.catalog.tags,
                    (#[trigger] s[i]).tag_id,
                ) by {
                    assert(p(s[i]));
                }
            } else if targets_exist(self@.catalog.tags, s) {
                assert forall|i: int| 0 <= i < s.len() implies p(#[trigger] s[i]) by {}
            }
        }
        b
    }
}

/// Having different identifiers.
spec fn music_ids_differ() -> spec_fn(MusicModel, MusicModel) -> bool {
    |a: MusicModel, b: MusicModel| a.id != b.id
}

/// Having different paths.
spec fn paths_differ() -> spec_fn(MusicModel, MusicModel) -> bool {
    |a: MusicModel, b: MusicModel| a.path != b.path
}

/// Having a size that fits.
spec fn size_fits() -> spec_fn(MusicModel) -> bool {
    |m: MusicModel| m.file_size <= i64::MAX
}

/// Having different identifiers.
spec fn clip_ids_differ() -> spec_fn(ClipModel, ClipModel) -> bool {
    |a: ClipModel, b: ClipModel| a.id != b.id
}

/// Having a range that a clip may have.
spec fn range_is_valid() -> spec_fn(ClipModel) -> bool {
    |c: ClipModel| valid_range(c.start, c.end)
}

/// Being of a music that exists.
spec fn source_exists(music: Seq<MusicModel>) -> spec_fn(ClipModel) -> bool {
    |c: ClipModel| has_music(music, c.music_id)
}

/// Having different targets.
spec fn candidates_differ() -> spec_fn(CandidateModel, CandidateModel) -> bool {
    |a: CandidateModel, b: CandidateModel| a.target_id != b.target_id
}

/// Being carried by a music that exists.
spec fn music_exists(music: Seq<MusicModel>) -> spec_fn(LinkModel) -> bool {
    |k: LinkModel| has_music(music, k.owner)
}

/// Being carried by a clip that exists.
spec fn clip_exists(clips: Seq<ClipModel>) -> spec_fn(LinkModel) -> bool {
    |k: LinkModel| has_clip(clips, k.owner)
}

impl Library {
    /// Whether no two music have the same identifier.
    fn music_is_keyed(&self) -> (b: bool)
        ensures
            b == music_keys(self@.music),
    {
        let differ = |x: &MusicRow, y: &MusicRow| -> (b: bool)
            ensures
                b == (x@.id != y@.id),
            { !same_text(x.id.as_str(), y.id.as_str()) };
        let fits = |m: &MusicRow| -> (b: bool)
            ensures
                b == (m@.file_size <= i64::MAX),
            { m.file_size <= 0x7fff_ffff_ffff_ffff };
        let p = holds_of_pairs(&self.music, Ghost(music_ids_differ()), differ);
        let q = holds_of_all(&self.music, Ghost(size_fits()), fits);
        proof {
            let s = self@.music;
            if p && q {
                assert forall|i: int, j: int| 0 <= i < j < s.len() implies (#[trigger] s[i]).id != (
                #[trigger] s[j]).id by {
                    assert(music_ids_differ()(s[i], s[j]));
                }
                assert forall|i: int| 0 <= i < s.len() implies (#[trigger] s[i]).file_size
                    <= i64::MAX by {
                    assert(size_fits()(s[i]));
                }
            } else if music_keys(s) {
                assert(pairs_satisfy(s, music_ids_differ()));
                assert(all_satisfy(s, size_fits()));
            }
        }
        p && q
    }

    /// Whether no two music have the same path.
    pub fn paths_are_distinct(&self) -> (b: bool)
        ensures
            b == paths_distinct(self@.music),
    {
        let differ = |x: &MusicRow, y: &MusicRow| -> (b: bool)
            ensures
                b == (x@.path != y@.path),
            { !same_text(x.path.as_str(), y.path.as_str()) };
        let b = holds_of_pairs(&self.music, Ghost(paths_differ()), differ);
        proof {
            let s = self@.music;
            if b {
                assert forall|i: int, j: int| 0 <= i < j < s.len() implies (#[trigger] s[i]).path
                    != (#[trigger] s[j]).path by {
                    assert(paths_differ()(s[i], s[j]));
                }
            } else if paths_distinct(s) {
                assert(pairs_satisfy(s, paths_differ()));
            }
        }
        b
    }

    /// Whether no two clips have the same identifier, and every range is valid.
    fn clips_are_keyed(&self) -> (b: bool)
        ensures
            b == clip_keys(self@.clips),
    {
        let differ = |x: &ClipRow, y: &ClipRow| -> (b: bool)
            ensures
                b == (x@.id != y@.id),
            { !same_text(x.id.as_str(), y.id.as_str()) };
        let valid = |c: &ClipRow| -> (b: bool)
            ensures
                b == valid_range(c@.start, c@.end),
            { validate_clip_range(c.start, c.end).is_ok() };
        let p = holds_of_pairs(&self.clips, Ghost(clip_ids_differ()), differ);
        let q = holds_of_all(&self.clips, Ghost(range_is_valid()), valid);
        proof {
            let s = self@.clips;
            if p && q {
                assert forall|i: int, j: int| 0 <= i < j < s.len() implies (#[trigger] s[i]).id != (
                #[trigger] s[j]).id by {
                    assert(clip_ids_differ()(s[i], s[j]));
                }
                assert forall|i: int| 0 <= i < s.len() implies valid_range(
                    (#[trigger] s[i]).start,
                    s[i].end,
                ) by {
                    assert(range_is_valid()(s[i]));
                }
            } else if clip_keys(s) {
                assert(pairs_satisfy(s, clip_ids_differ()));
                assert(all_satisfy(s, range_is_valid()));
            }
        }
        p && q
    }

    /// Whether every clip is of a music that exists.
    fn clips_have_sources(&self) -> (b: bool)
        ensures
            b == clip_sources(self@.music, self@.clips),
    {
        let library: &Library = self;
        let test = |c: &ClipRow| -> (b: bool)
            ensures
                b == has_music(library@.music, c@.music_id),
            {
                let b: bool = library.music_index(c.music_id.as_str()).is_some();
                proof {
                    assert(b == has_music(library@.music, c@.music_id));
                }
                b
            };
        let b = holds_of_all(&self.clips, Ghost(source_exists(self@.music)), test);
        proof {
            let s = self@.clips;
            let p = source_exists(self@.music);
            if b {
                assert forall|i: int| 0 <= i < s.len() implies has_music(
                    self@.music,
                    (#[trigger] s[i]).music_id,
                ) by {
                    assert(p(s[i]));
                }
            } else if clip_sources(self@.music, s) {
                assert(all_satisfy(s, p));
            }
        }
        b
    }

    /// Whether no target is a candidate twice.
    fn candidates_are_keyed(&self) -> (b: bool)
        ensures
            b == candidates_wf(self@.candidates),
    {
        let differ = |x: &CandidateRow, y: &CandidateRow| -> (b: bool)
            ensures
                b == (x@.target_id != y@.target_id),
            { !same_text(x.target_id.as_str(), y.target_id.as_str()) };
        let b = holds_of_pairs(&self.candidates, Ghost(candidates_differ()), differ);
        proof {
            let s = self@.candidates;
            if b {
                assert forall|i: int, j: int| 0 <= i < j < s.len() implies (
                #[trigger] s[i]).target_id != (#[trigger] s[j]).target_id by {
                    assert(candidates_differ()(s[i], s[j]));
                }
            } else if candidates_wf(s) {
                assert(pairs_satisfy(s, candidates_differ()));
            }
        }
        b
    }

    /// Whether every tag of a music is carried by a music that exists.
    fn music_owners_are_there(&self) -> (b: bool)
        ensures
            b == music_owners(self@.music, self@.music_tags),
    {
        let library: &Library = self;
        let test = |k: &LinkRow| -> (b: bool)
            ensures
                b == has_music(library@.music, k@.owner),
            {
                let b: bool = library.music_index(k.owner.as_str()).is_some();
                proof {
                    assert(b == has_music(library@.music, k@.owner));
                }
                b
            };
        let b = holds_of_all(&self.music_tags, Ghost(music_exists(self@.music)), test);
        proof {
            let s = self@.music_tags;
            let p = music_exists(self@.music);
            if b {
                assert forall|i: int| 0 <= i < s.len() implies has_music(
                    self@.music,
                    (#[trigger] s[i]).owner,
                ) by {
                    assert(p(s[i]));
                }
            } else if music_owners(self@.music, s) {
                assert(all_satisfy(s, p));
            }
        }
        b
    }

    /// Whether every tag of a clip is carried by a clip that exists.
    fn clip_owners_are_there(&self) -> (b: bool)
        ensures
            b == clip_owners(self@.clips, self@.clip_tags),
    {
        let library: &Library = self;
        let test = |k: &LinkRow| -> (b: bool)
            ensures
                b == has_clip(library@.clips, k@.owner),
            {
                let b: bool = library.clip_index(k.owner.as_str()).is_some();
                proof {
                    assert(b == has_clip(library@.clips, k@.owner));
                }
                b
            };
        let b = holds_of_all(&self.clip_tags, Ghost(clip_exists(self@.clips)), test);
        proof {
            let s = self@.clip_tags;
            let p = clip_exists(self@.clips);
            if b {
                assert forall|i: int| 0 <= i < s.len() implies has_clip(
                    self@.clips,
                    (#[trigger] s[i]).owner,
                ) by {
                    assert(p(s[i]));
                }
            } else if clip_owners(self@.clips, s) {
                assert(all_satisfy(s, p));
            }
        }
        b
    }

    /// Whether no row is there twice, and every clip has a valid range.
    pub fn rows_are_keyed(&self) -> (b: bool)
        ensures
            b == self@.rows_wf(),
    {
        self.music_is_keyed() && self.clips_are_keyed() && self.candidates_are_keyed()
            && links_distinct(&self.music_tags) && links_distinct(&self.clip_tags)
            && links_distinct(&self.album_tags)
    }

    /// Whether everything that a row refers to exists.
    pub fn references_are_there(&self) -> (b: bool)
        ensures
            b == self@.references_hold(),
    {
        self.clips_have_sources() && self.music_owners_are_there() && self.clip_owners_are_there()
            && self.targets_are_there(&self.music_tags) && self.targets_are_there(&self.clip_tags)
            && self.targets_are_there(&self.album_tags)
    }

    /// Whether the tables are in order.
    pub fn is_sound(&self) -> (b: bool)
        ensures
            b == self@.wf(),
    {
        proof {
            lemma_library_wf(self@);
        }
        self.catalog.is_sound() && self.rows_are_keyed() && self.paths_are_distinct()
            && self.references_are_there()
    }
}

/// Being the text of a music that exists.
spec fn text_of_music(music: Seq<MusicModel>) -> spec_fn(RawTagsModel) -> bool {
    |t: RawTagsModel| has_music(music, t.owner)
}

/// Being the text of a clip that exists.
spec fn text_of_clip(clips: Seq<ClipModel>) -> spec_fn(RawTagsModel) -> bool {
    |t: RawTagsModel| has_clip(clips, t.owner)
}

/// Having an identifier from one on.
spec fn legacy_id_is_valid() -> spec_fn(LegacyTagModel) -> bool {
    |t: LegacyTagModel| 1 <= t.id
}

impl Tables {
    /// Whether every text is of a music that exists.
    fn music_texts_are_sound(&self) -> (b: bool)
        ensures
            b == match self@.music_texts {
                Some(rows) => texts_of_music(self@.library.music, rows),
                None => true,
            },
    {
        match &self.music_texts {
            None => true,
            Some(rows) => {
                let library: &Library = &self.library;
                let test = |t: &RawTags| -> (b: bool)
                    ensures
                        b == has_music(library@.music, t@.owner),
                    {
                        let b: bool = library.music_index(t.owner.as_str()).is_some();
                        proof {
                            assert(b == has_music(library@.music, t@.owner));
                        }
                        b
                    };
                let b = holds_of_all(rows, Ghost(text_of_music(self@.library.music)), test);
                proof {
                    let s = models(rows@);
                    let p = text_of_music(self@.library.music);
                    if b {
                        assert forall|i: int| 0 <= i < s.len() implies has_music(
                            self@.library.music,
                            (#[trigger] s[i]).owner,
                        ) by {
                            assert(p(s[i]));
                        }
                    } else if texts_of_music(self@.library.music, s) {
                        assert forall|i: int| 0 <= i < s.len() implies p(#[trigger] s[i]) by {
                            assert(has_music(self@.library.music, s[i].owner));
                        }
                    }
                }
                b
            },
        }
    }

    /// Whether every text is of a clip that exists.
    fn clip_texts_are_sound(&self) -> (b: bool)
        ensures
            b == match self@.clip_texts {
                Some(rows) => texts_of_clips(self@.library.clips, rows),
                None => true,
            },
    {
        match &self.clip_texts {
            None => true,
            Some(rows) => {
                let library: &Library = &self.library;
                let test = |t: &RawTags| -> (b: bool)
                    ensures
                        b == has_clip(library@.clips, t@.owner),
                    {
                        let b: bool = library.clip_index(t.owner.as_str()).is_some();
                        proof {
                            assert(b == has_clip(library@.clips, t@.owner));
                        }
                        b
                    };
                let b = holds_of_all(rows, Ghost(text_of_clip(self@.library.clips)), test);
                proof {
                    let s = models(rows@);
                    let p = text_of_clip(self@.library.clips);
                    if b {
                        assert forall|i: int| 0 <= i < s.len() implies has_clip(
                            self@.library.clips,
                            (#[trigger] s[i]).owner,
                        ) by {
                            assert(p(s[i]));
                        }
                    } else if texts_of_clips(self@.library.clips, s) {
                        assert forall|i: int| 0 <= i < s.len() implies p(#[trigger] s[i]) by {
                            assert(has_clip(self@.library.clips, s[i].owner));
                        }
                    }
                }
                b
            },
        }
    }

    /// Whether the tables can be migrated as they are found.
    pub fn is_sound(&self) -> (b: bool)
        ensures
            b == self@.wf(),
    {
        let tags_sound: bool = match &self.legacy {
            Some(t) => {
                let valid = |x: &LegacyTag| -> (b: bool)
                    ensures
                        b == (1 <= x@.id),
                    { 1 <= x.id };
                let b = holds_of_all(&t.tags, Ghost(legacy_id_is_valid()), valid);
                proof {
                    let s = models(t.tags@);
                    if b {
                        assert forall|i: int| 0 <= i < s.len() implies 1 <= (
                        #[trigger] s[i]).id by {
                            assert(legacy_id_is_valid()(s[i]));
                        }
                    } else if legacy_wf(s) {
                        assert(all_satisfy(s, legacy_id_is_valid()));
                    }
                }
                b
            },
            None => self.library.catalog.is_linked_up() && self.library.references_are_there(),
        };
        tags_sound && self.library.rows_are_keyed() && self.music_texts_are_sound()
            && self.clip_texts_are_sound()
    }
}

} // verus!

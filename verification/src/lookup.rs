//! Counting, and finding music by identifiers and paths.
use vstd::prelude::*;

use crate::catalog::models;
use crate::library::has_path;
use crate::library::Library;
use crate::library::MusicModel;
use crate::order::in_order;
use crate::order::sort;
use crate::order::Ordered;
use crate::rows::lemma_filter_at;
use crate::rows::lemma_filter_has;
use crate::rows::lemma_filter_take;
use crate::text::lemma_text_le_total;
use crate::text::lemma_text_le_transitive;
use crate::text::not_after;
use crate::text::same_text;
use crate::text::text_le;

verus! {

/// How many music and clips the library holds.
pub struct LibraryCounts {
    pub music: i64,
    pub clips: i64,
}

/// The cover of a music.
pub struct MusicCoverArt {
    pub id: String,
    pub cover_art: String,
}

/// The cover of a music, mathematically.
pub struct MusicCoverArtModel {
    pub id: Seq<char>,
    pub cover_art: Seq<char>,
}

impl View for MusicCoverArt {
    type V = MusicCoverArtModel;

    open spec fn view(&self) -> MusicCoverArtModel {
        MusicCoverArtModel { id: self.id@, cover_art: self.cover_art@ }
    }
}

/// How many texts are looked up at a time.
pub const BATCH: usize = 900;

/// Having its identifier among `wanted`.
pub open spec fn has_id_among(wanted: Seq<Seq<char>>) -> spec_fn(MusicModel) -> bool {
    |m: MusicModel| wanted.contains(m.id)
}

/// Having its path among `wanted`.
pub open spec fn has_path_among(wanted: Seq<Seq<char>>) -> spec_fn(MusicModel) -> bool {
    |m: MusicModel| wanted.contains(m.path)
}

/// How many of `n` texts are looked up at a time.
pub open spec fn batch_size(n: nat) -> int {
    if n <= BATCH {
        n as int
    } else {
        BATCH as int
    }
}

/// The covers of music.
pub open spec fn covers(music: Seq<MusicModel>) -> Seq<MusicCoverArtModel> {
    music.map_values(|m: MusicModel| MusicCoverArtModel { id: m.id, cover_art: m.cover_art })
}

/// The paths of music.
pub open spec fn paths(music: Seq<MusicModel>) -> Seq<Seq<char>> {
    music.map_values(|m: MusicModel| m.path)
}

impl Ordered for MusicCoverArt {
    open spec fn le(a: MusicCoverArtModel, b: MusicCoverArtModel) -> bool {
        text_le(a.id, b.id)
    }

    proof fn le_total(a: MusicCoverArtModel, b: MusicCoverArtModel) {
        lemma_text_le_total(a.id, b.id);
    }

    proof fn le_transitive(a: MusicCoverArtModel, b: MusicCoverArtModel, c: MusicCoverArtModel) {
        lemma_text_le_transitive(a.id, b.id, c.id);
    }

    fn at_most(&self, other: &Self) -> (r: bool) {
        not_after(self.id.as_str(), other.id.as_str())
    }
}

/// Whether `r` are the covers of the music `wanted`, as far as they exist: one batch after
/// the other, and in each by identifier.
pub open spec fn finds_covers(
    music: Seq<MusicModel>,
    wanted: Seq<Seq<char>>,
    r: Seq<MusicCoverArtModel>,
) -> bool
    decreases wanted.len(),
{
    if wanted.len() == 0 {
        r.len() == 0
    } else {
        let size = batch_size(wanted.len());
        let found = covers(music.filter(has_id_among(wanted.take(size))));
        let n = found.len() as int;
        &&& n <= r.len()
        &&& in_order::<MusicCoverArt>(r.take(n))
        &&& r.take(n).to_multiset() == found.to_multiset()
        &&& finds_covers(music, wanted.skip(size), r.skip(n))
    }
}

/// Whether `r` are those of `wanted` that are paths of music: one batch after the other,
/// and each in order.
pub open spec fn finds_paths(
    music: Seq<MusicModel>,
    wanted: Seq<Seq<char>>,
    r: Seq<Seq<char>>,
) -> bool
    decreases wanted.len(),
{
    if wanted.len() == 0 {
        r.len() == 0
    } else {
        let size = batch_size(wanted.len());
        let found = paths(music.filter(has_path_among(wanted.take(size))));
        let n = found.len() as int;
        &&& n <= r.len()
        &&& in_order::<String>(r.take(n))
        &&& r.take(n).to_multiset() == found.to_multiset()
        &&& finds_paths(music, wanted.skip(size), r.skip(n))
    }
}

/// A path is found exactly where it is asked for and a music has it.
pub proof fn law_paths_found_are_those_in_use(
    music: Seq<MusicModel>,
    wanted: Seq<Seq<char>>,
    r: Seq<Seq<char>>,
    path: Seq<char>,
)
    requires
        finds_paths(music, wanted, r),
    ensures
        r.contains(path) <==> wanted.contains(path) && has_path(music, path),
    decreases wanted.len(),
{
    if wanted.len() > 0 {
        let size = batch_size(wanted.len());
        let now = wanted.take(size);
        let rest = wanted.skip(size);
        let p = has_path_among(now);
        let found = music.filter(p);
        let n = found.len() as int;
        if paths(found).contains(path) {
            let i = choose|i: int| 0 <= i < found.len() && paths(found)[i] == path;
            let a = lemma_filter_at(music, p, i);
            assert(music[a].path == path);
        }
        if now.contains(path) && has_path(music, path) {
            let a = choose|a: int| 0 <= a < music.len() && #[trigger] music[a].path == path;
            let i = lemma_filter_has(music, p, a);
            assert(paths(found)[i] == path);
        }
        lemma_same_members(r.take(n), paths(found), path);
        law_paths_found_are_those_in_use(music, rest, r.skip(n), path);
        assert(wanted =~= now + rest);
        assert(r =~= r.take(n) + r.skip(n));
        lemma_contains_either(now, rest, path);
        lemma_contains_either(r.take(n), r.skip(n), path);
    }
}

/// A cover is found exactly where a music that is asked for has it.
pub proof fn law_covers_found_are_those_asked_for(
    music: Seq<MusicModel>,
    wanted: Seq<Seq<char>>,
    r: Seq<MusicCoverArtModel>,
    cover: MusicCoverArtModel,
)
    requires
        finds_covers(music, wanted, r),
    ensures
        r.contains(cover) <==> wanted.contains(cover.id) && covers(music).contains(cover),
    decreases wanted.len(),
{
    if wanted.len() > 0 {
        let size = batch_size(wanted.len());
        let now = wanted.take(size);
        let rest = wanted.skip(size);
        let p = has_id_among(now);
        let found = music.filter(p);
        let n = found.len() as int;
        if covers(found).contains(cover) {
            let i = choose|i: int| 0 <= i < found.len() && covers(found)[i] == cover;
            let a = lemma_filter_at(music, p, i);
            assert(covers(music)[a] == cover);
        }
        if now.contains(cover.id) && covers(music).contains(cover) {
            let a = choose|a: int| 0 <= a < music.len() && covers(music)[a] == cover;
            let i = lemma_filter_has(music, p, a);
            assert(covers(found)[i] == cover);
        }
        lemma_same_members(r.take(n), covers(found), cover);
        law_covers_found_are_those_asked_for(music, rest, r.skip(n), cover);
        assert(wanted =~= now + rest);
        assert(r =~= r.take(n) + r.skip(n));
        lemma_contains_either(now, rest, cover.id);
        lemma_contains_either(r.take(n), r.skip(n), cover);
    }
}

/// Rows that are the same, but for their order, are as many.
proof fn lemma_multiset_len<A>(a: Seq<A>, b: Seq<A>)
    requires
        a.to_multiset() == b.to_multiset(),
    ensures
        a.len() == b.len(),
{
    broadcast use vstd::seq_lib::group_to_multiset_ensures;

    assert(a.to_multiset().len() == a.len());
    assert(b.to_multiset().len() == b.len());
}

/// Rows that are the same, but for their order, hold the same.
proof fn lemma_same_members<A>(a: Seq<A>, b: Seq<A>, x: A)
    requires
        a.to_multiset() == b.to_multiset(),
    ensures
        a.contains(x) <==> b.contains(x),
{
    broadcast use vstd::seq_lib::group_to_multiset_ensures;

    assert(a.contains(x) <==> a.to_multiset().count(x) > 0);
    assert(b.contains(x) <==> b.to_multiset().count(x) > 0);
}

proof fn lemma_contains_either<A>(a: Seq<A>, b: Seq<A>, x: A)
    ensures
        (a + b).contains(x) <==> a.contains(x) || b.contains(x),
{
    if a.contains(x) {
        let i = choose|i: int| 0 <= i < a.len() && a[i] == x;
        assert((a + b)[i] == x);
    }
    if b.contains(x) {
        let i = choose|i: int| 0 <= i < b.len() && b[i] == x;
        assert((a + b)[a.len() + i] == x);
    }
    if (a + b).contains(x) {
        let i = choose|i: int| 0 <= i < (a + b).len() && (a + b)[i] == x;
        if i < a.len() {
            assert(a[i] == x);
        } else {
            assert(b[i - a.len()] == x);
        }
    }
}

/// Whether `text` is one of `texts[from..to]`.
fn is_among(texts: &Vec<String>, from: usize, to: usize, text: &str) -> (b: bool)
    requires
        from <= to <= texts@.len(),
    ensures
        b == models(texts@).subrange(from as int, to as int).contains(text@),
{
    let ghost part = models(texts@).subrange(from as int, to as int);
    let mut i: usize = from;
    while i < to
        invariant
            from <= i <= to <= texts@.len(),
            part == models(texts@).subrange(from as int, to as int),
            forall|j: int| 0 <= j < i - from ==> #[trigger] part[j] != text@,
        decreases to - i,
    {
        if same_text(texts[i].as_str(), text) {
            proof {
                assert(part[i - from] == text@);
            }
            return true;
        }
        i = i + 1;
    }
    false
}

impl Library {
    /// How many music and clips the library holds.
    pub fn get_library_counts(&self) -> (r: LibraryCounts)
        requires
            self@.music.len() <= i64::MAX,
            self@.clips.len() <= i64::MAX,
        ensures
            r.music == self@.music.len(),
            r.clips == self@.clips.len(),
    {
        LibraryCounts { music: self.music.len() as i64, clips: self.clips.len() as i64 }
    }

    /// The covers of those music whose identifiers are among `ids[from..to]`, by
    /// identifier.
    fn covers_in_batch(&self, ids: &Vec<String>, from: usize, to: usize) -> (r: Vec<MusicCoverArt>)
        requires
            from <= to <= ids@.len(),
        ensures
            in_order::<MusicCoverArt>(models(r@)),
            models(r@).to_multiset() == covers(
                self@.music.filter(
                    has_id_among(models(ids@).subrange(from as int, to as int)),
                ),
            ).to_multiset(),
            r@.len() == self@.music.filter(
                has_id_among(models(ids@).subrange(from as int, to as int)),
            ).len(),
    {
        let ghost p = has_id_among(models(ids@).subrange(from as int, to as int));
        let mut r: Vec<MusicCoverArt> = Vec::new();
        let mut i: usize = 0;
        proof {
            reveal(Seq::filter);
            assert(self@.music.take(0).filter(p) =~= Seq::empty());
            assert(models(r@) =~= covers(Seq::empty()));
        }
        while i < self.music.len()
            invariant
                i <= self.music@.len(),
                from <= to <= ids@.len(),
                p == has_id_among(models(ids@).subrange(from as int, to as int)),
                models(r@) == covers(self@.music.take(i as int).filter(p)),
            decreases self.music@.len() - i,
        {
            proof {
                lemma_filter_take(self@.music, p, i as int);
            }
            if is_among(ids, from, to, self.music[i].id.as_str()) {
                let ghost before = models(r@);
                r.push(
                    MusicCoverArt {
                        id: self.music[i].id.clone(),
                        cover_art: self.music[i].cover_art.clone(),
                    },
                );
                proof {
                    let m = self@.music[i as int];
                    let some = self@.music.take(i as int).filter(p);
                    assert(covers(some.push(m)) =~= covers(some).push(
                        MusicCoverArtModel { id: m.id, cover_art: m.cover_art },
                    ));
                    assert(models(r@) =~= before.push(
                        MusicCoverArtModel { id: m.id, cover_art: m.cover_art },
                    ));
                }
            }
            i = i + 1;
        }
        proof {
            assert(self@.music.take(self@.music.len() as int) =~= self@.music);
        }
        let sorted = sort(r);
        proof {
            lemma_multiset_len(models(sorted@), models(r@));
        }
        sorted
    }

    /// The covers of the music `ids[from..]`, as far as they exist.
    fn covers_from(&self, ids: &Vec<String>, from: usize) -> (r: Vec<MusicCoverArt>)
        requires
            from <= ids@.len(),
        ensures
            finds_covers(self@.music, models(ids@).skip(from as int), models(r@)),
        decreases ids@.len() - from,
    {
        if from == ids.len() {
            return Vec::new();
        }
        let to: usize = if ids.len() - from <= BATCH {
            ids.len()
        } else {
            from + BATCH
        };
        let mut r = self.covers_in_batch(ids, from, to);
        let ghost first = models(r@);
        let mut rest = self.covers_from(ids, to);
        let ghost later = models(rest@);
        r.append(&mut rest);
        proof {
            let wanted = models(ids@).skip(from as int);
            let size = batch_size(wanted.len());
            assert(wanted.take(size) =~= models(ids@).subrange(from as int, to as int));
            assert(wanted.skip(size) =~= models(ids@).skip(to as int));
            assert(models(r@) =~= first + later);
            assert(models(r@).take(first.len() as int) =~= first);
            assert(models(r@).skip(first.len() as int) =~= later);
        }
        r
    }

    /// The covers of the music `ids`, as far as they exist.
    pub fn get_music_cover_arts(&self, ids: Vec<String>) -> (r: Vec<MusicCoverArt>)
        ensures
            finds_covers(self@.music, models(ids@), models(r@)),
    {
        proof {
            assert(models(ids@).skip(0) =~= models(ids@));
        }
        self.covers_from(&ids, 0)
    }

    /// The paths of music among `wanted[from..to]`, in order.
    fn paths_in_batch(&self, wanted: &Vec<String>, from: usize, to: usize) -> (r: Vec<String>)
        requires
            from <= to <= wanted@.len(),
        ensures
            in_order::<String>(models(r@)),
            models(r@).to_multiset() == paths(
                self@.music.filter(
                    has_path_among(models(wanted@).subrange(from as int, to as int)),
                ),
            ).to_multiset(),
            r@.len() == self@.music.filter(
                has_path_among(models(wanted@).subrange(from as int, to as int)),
            ).len(),
    {
        let ghost p = has_path_among(models(wanted@).subrange(from as int, to as int));
        let mut r: Vec<String> = Vec::new();
        let mut i: usize = 0;
        proof {
            reveal(Seq::filter);
            assert(self@.music.take(0).filter(p) =~= Seq::empty());
            assert(models(r@) =~= paths(Seq::empty()));
        }
        while i < self.music.len()
            invariant
                i <= self.music@.len(),
                from <= to <= wanted@.len(),
                p == has_path_among(models(wanted@).subrange(from as int, to as int)),
                models(r@) == paths(self@.music.take(i as int).filter(p)),
            decreases self.music@.len() - i,
        {
            proof {
                lemma_filter_take(self@.music, p, i as int);
            }
            if is_among(wanted, from, to, self.music[i].path.as_str()) {
                let ghost before = models(r@);
                r.push(self.music[i].path.clone());
                proof {
                    let m = self@.music[i as int];
                    let some = self@.music.take(i as int).filter(p);
                    assert(paths(some.push(m)) =~= paths(some).push(m.path));
                    assert(models(r@) =~= before.push(m.path));
                }
            }
            i = i + 1;
        }
        proof {
            assert(self@.music.take(self@.music.len() as int) =~= self@.music);
        }
        let sorted = sort(r);
        proof {
            lemma_multiset_len(models(sorted@), models(r@));
        }
        sorted
    }

    /// Those of `wanted[from..]` that are paths of music.
    fn paths_from(&self, wanted: &Vec<String>, from: usize) -> (r: Vec<String>)
        requires
            from <= wanted@.len(),
        ensures
            finds_paths(self@.music, models(wanted@).skip(from as int), models(r@)),
        decreases wanted@.len() - from,
    {
        if from == wanted.len() {
            return Vec::new();
        }
        let to: usize = if wanted.len() - from <= BATCH {
            wanted.len()
        } else {
            from + BATCH
        };
        let mut r = self.paths_in_batch(wanted, from, to);
        let ghost first = models(r@);
        let mut rest = self.paths_from(wanted, to);
        let ghost later = models(rest@);
        r.append(&mut rest);
        proof {
            let asked = models(wanted@).skip(from as int);
            let size = batch_size(asked.len());
            assert(asked.take(size) =~= models(wanted@).subrange(from as int, to as int));
            assert(asked.skip(size) =~= models(wanted@).skip(to as int));
            assert(models(r@) =~= first + later);
            assert(models(r@).take(first.len() as int) =~= first);
            assert(models(r@).skip(first.len() as int) =~= later);
        }
        r
    }

    /// Those of `wanted` that are paths of music.
    pub fn find_existing_music_paths(&self, wanted: Vec<String>) -> (r: Vec<String>)
        ensures
            finds_paths(self@.music, models(wanted@), models(r@)),
    {
        proof {
            assert(models(wanted@).skip(0) =~= models(wanted@));
        }
        self.paths_from(&wanted, 0)
    }
}

} // verus!

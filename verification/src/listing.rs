//! Handing out music and clips with the tags that they carry.
use vstd::prelude::*;

use crate::catalog::has_tag;
use crate::catalog::lemma_tag_at;
use crate::catalog::lemma_tag_index;
use crate::catalog::models;
use crate::catalog::tag;
use crate::catalog::tag_ids_unique;
use crate::catalog::Catalog;
use crate::catalog::TagModel;
use crate::catalog::TagRow;
use crate::library::clip_at;
use crate::library::has_clip;
use crate::library::has_music;
use crate::library::lemma_clip_at;
use crate::library::lemma_music_at;
use crate::library::music_at;
use crate::library::Clip;
use crate::failure::Failure;
use crate::failure::LibraryError;
use crate::failure::Reading;
use crate::library::ClipModel;
use crate::library::ClipRow;
use crate::library::Library;
use crate::library::LibraryModel;
use crate::library::Music;
use crate::library::MusicModel;
use crate::library::MusicRow;
use crate::links::is_linked;
use crate::links::links_wf;
use crate::links::LinkModel;
use crate::links::LinkRow;
use crate::order::in_order;
use crate::order::sort;
use crate::order::Ordered;
use crate::rows::lemma_filter_at;
use crate::rows::lemma_filter_has;
use crate::rows::lemma_filter_pair;
use crate::rows::retain;
use crate::text::lemma_text_le_antisymmetric;
use crate::text::lemma_text_le_total;
use crate::text::lemma_text_le_transitive;
use crate::text::name_key;
use crate::text::nocase;
use crate::text::not_after;
use crate::text::same_text;
use crate::text::text_le;

verus! {

/// Whether of two tags `a` may come first in a list: by name, ASCII case aside, and
/// where the names are the same by identifier.
pub open spec fn tag_le(a: TagModel, b: TagModel) -> bool {
    if nocase(a.name) == nocase(b.name) {
        a.id <= b.id
    } else {
        text_le(nocase(a.name), nocase(b.name))
    }
}

/// Whether `ids` lists the tags that `owner` carries: each of them once, no other, and
/// in order.
pub open spec fn lists_tags(
    tags: Seq<TagModel>,
    links: Seq<LinkModel>,
    owner: Seq<char>,
    ids: Seq<i64>,
) -> bool {
    &&& ids.no_duplicates()
    &&& forall|id: i64| #[trigger]
        ids.contains(id) <==> links.contains(LinkModel { owner, tag_id: id })
    &&& forall|i: int, j: int|
        0 <= i < j < ids.len() ==> tag_le(tag(tags, #[trigger] ids[i]), tag(tags, #[trigger] ids[j]))
}

/// The names of the tags `ids`.
pub open spec fn tag_names(tags: Seq<TagModel>, ids: Seq<i64>) -> Seq<Seq<char>> {
    ids.map_values(|id: i64| tag(tags, id).name)
}

/// What a caller lists is determined by what is carried.
pub proof fn law_tags_are_listed_in_one_way(
    tags: Seq<TagModel>,
    links: Seq<LinkModel>,
    owner: Seq<char>,
    a: Seq<i64>,
    b: Seq<i64>,
)
    requires
        tag_ids_unique(tags),
        links_wf(tags, links),
        lists_tags(tags, links, owner, a),
        lists_tags(tags, links, owner, b),
    ensures
        a == b,
{
    assert forall|x: i64| a.contains(x) <==> b.contains(x) by {
        assert(a.contains(x) <==> links.contains(LinkModel { owner, tag_id: x }));
        assert(b.contains(x) <==> links.contains(LinkModel { owner, tag_id: x }));
    }
    assert forall|x: i64| a.contains(x) implies has_tag(tags, x) by {
        assert(links.contains(LinkModel { owner, tag_id: x }));
        let k = choose|k: int|
            0 <= k < links.len() && links[k] == (LinkModel { owner, tag_id: x });
        assert(has_tag(tags, links[k].tag_id));
    }
    lemma_one_order(tags, a, b);
}

proof fn lemma_one_order(tags: Seq<TagModel>, a: Seq<i64>, b: Seq<i64>)
    requires
        tag_ids_unique(tags),
        a.no_duplicates(),
        b.no_duplicates(),
        forall|x: i64| a.contains(x) <==> b.contains(x),
        forall|x: i64| a.contains(x) ==> has_tag(tags, x),
        forall|i: int, j: int|
            0 <= i < j < a.len() ==> tag_le(tag(tags, #[trigger] a[i]), tag(tags, #[trigger] a[j])),
        forall|i: int, j: int|
            0 <= i < j < b.len() ==> tag_le(tag(tags, #[trigger] b[i]), tag(tags, #[trigger] b[j])),
    ensures
        a == b,
    decreases a.len(),
{
    if a.len() == 0 {
        if b.len() > 0 {
            assert(b.contains(b[0]));
            assert(a.contains(b[0]));
        }
        assert(a =~= b);
    } else {
        assert(a.contains(a[0]));
        assert(b.contains(a[0]));
        let k = choose|k: int| 0 <= k < b.len() && b[k] == a[0];
        assert(b.contains(b[0]));
        assert(a.contains(b[0]));
        let m = choose|m: int| 0 <= m < a.len() && a[m] == b[0];
        if k > 0 {
            assert(m > 0);
            assert(tag_le(tag(tags, b[0]), tag(tags, b[k])));
            assert(tag_le(tag(tags, a[0]), tag(tags, a[m])));
            let x = tag(tags, a[0]);
            let y = tag(tags, b[0]);
            let i = lemma_tag_index(tags, a[0]);
            let j = lemma_tag_index(tags, b[0]);
            if nocase(x.name) != nocase(y.name) {
                lemma_text_le_antisymmetric(nocase(x.name), nocase(y.name));
            }
        }
        assert(a[0] == b[0]);
        let c = a.drop_first();
        let d = b.drop_first();
        assert forall|x: i64| c.contains(x) <==> d.contains(x) by {
            if c.contains(x) {
                let i = choose|i: int| 0 <= i < c.len() && c[i] == x;
                assert(a[i + 1] == x);
                assert(a.contains(x));
                let j = choose|j: int| 0 <= j < b.len() && b[j] == x;
                assert(d[j - 1] == x);
            }
            if d.contains(x) {
                let i = choose|i: int| 0 <= i < d.len() && d[i] == x;
                assert(b[i + 1] == x);
                assert(b.contains(x));
                let j = choose|j: int| 0 <= j < a.len() && a[j] == x;
                assert(c[j - 1] == x);
            }
        }
        assert forall|x: i64| c.contains(x) implies has_tag(tags, x) by {
            let i = choose|i: int| 0 <= i < c.len() && c[i] == x;
            assert(a[i + 1] == x);
            assert(a.contains(x));
        }
        lemma_one_order(tags, c, d);
        assert(a =~= seq![a[0]] + c);
        assert(b =~= seq![b[0]] + d);
    }
}

impl Ordered for TagRow {
    open spec fn le(a: TagModel, b: TagModel) -> bool {
        tag_le(a, b)
    }

    proof fn le_total(a: TagModel, b: TagModel) {
        lemma_text_le_total(nocase(a.name), nocase(b.name));
    }

    proof fn le_transitive(a: TagModel, b: TagModel, c: TagModel) {
        let x = nocase(a.name);
        let y = nocase(b.name);
        let z = nocase(c.name);
        if x != y && y != z {
            lemma_text_le_transitive(x, y, z);
            if x == z {
                lemma_text_le_antisymmetric(x, y);
            }
        }
    }

    fn at_most(&self, other: &Self) -> (r: bool) {
        let x = name_key(self.name.as_str());
        let y = name_key(other.name.as_str());
        if x == y {
            self.id <= other.id
        } else {
            not_after(x.as_str(), y.as_str())
        }
    }
}

/// Being a tag that `owner` carries.
pub open spec fn carried_by(links: Seq<LinkModel>, owner: Seq<char>) -> spec_fn(TagModel) -> bool {
    |t: TagModel| links.contains(LinkModel { owner, tag_id: t.id })
}

/// The tags that `owner` carries, once sorted, are listed.
proof fn lemma_sorted_lists(
    tags: Seq<TagModel>,
    links: Seq<LinkModel>,
    owner: Seq<char>,
    s: Seq<TagModel>,
    ids: Seq<i64>,
)
    requires
        tag_ids_unique(tags),
        links_wf(tags, links),
        in_order::<TagRow>(s),
        s.to_multiset() == tags.filter(carried_by(links, owner)).to_multiset(),
        ids.len() == s.len(),
        forall|i: int| 0 <= i < s.len() ==> #[trigger] ids[i] == s[i].id,
    ensures
        lists_tags(tags, links, owner, ids),
        forall|i: int| 0 <= i < s.len() ==> tag(tags, #[trigger] ids[i]) == s[i],
        forall|i: int| 0 <= i < s.len() ==> has_tag(tags, #[trigger] ids[i]),
{
    let p = carried_by(links, owner);
    let kept = tags.filter(p);
    assert(kept.no_duplicates()) by {
        assert forall|i: int, j: int| 0 <= i < kept.len() && 0 <= j < kept.len() && i != j implies
            kept[i] != kept[j] by {
            if i < j {
                let (a, b) = lemma_filter_pair(tags, p, i, j);
                assert(tags[a].id != tags[b].id);
            } else {
                let (a, b) = lemma_filter_pair(tags, p, j, i);
                assert(tags[a].id != tags[b].id);
            }
        }
    }
    kept.lemma_multiset_has_no_duplicates();
    s.lemma_multiset_has_no_duplicates_conv();
    assert forall|i: int| 0 <= i < s.len() implies tag(tags, #[trigger] ids[i]) == s[i] && has_tag(
        tags,
        ids[i],
    ) && links.contains(LinkModel { owner, tag_id: ids[i] }) by {
        broadcast use vstd::seq_lib::group_to_multiset_ensures;

        assert(s.contains(s[i]));
        assert(kept.to_multiset().count(s[i]) > 0);
        assert(kept.contains(s[i]));
        let k = choose|k: int| 0 <= k < kept.len() && kept[k] == s[i];
        let a = lemma_filter_at(tags, p, k);
        lemma_tag_at(tags, a);
    }
    assert forall|i: int, j: int| 0 <= i < ids.len() && 0 <= j < ids.len() && i != j implies ids[i]
        != ids[j] by {
        assert(s[i] != s[j]);
        assert(tag(tags, ids[i]) == s[i]);
        assert(tag(tags, ids[j]) == s[j]);
    }
    assert forall|id: i64| #[trigger]
        ids.contains(id) <==> links.contains(LinkModel { owner, tag_id: id }) by {
        if ids.contains(id) {
            let i = choose|i: int| 0 <= i < ids.len() && ids[i] == id;
            assert(links.contains(LinkModel { owner, tag_id: ids[i] }));
        }
        if links.contains(LinkModel { owner, tag_id: id }) {
            broadcast use vstd::seq_lib::group_to_multiset_ensures;

            let k = choose|k: int|
                0 <= k < links.len() && links[k] == (LinkModel { owner, tag_id: id });
            assert(has_tag(tags, links[k].tag_id));
            let a = lemma_tag_index(tags, id);
            let m = lemma_filter_has(tags, p, a);
            assert(kept.contains(tags[a]));
            assert(s.to_multiset().count(tags[a]) > 0);
            assert(s.contains(tags[a]));
            let i = choose|i: int| 0 <= i < s.len() && s[i] == tags[a];
            assert(ids[i] == id);
        }
    }
    assert forall|i: int, j: int| 0 <= i < j < ids.len() implies tag_le(
        tag(tags, #[trigger] ids[i]),
        tag(tags, #[trigger] ids[j]),
    ) by {
        assert(TagRow::le(s[i], s[j]));
    }
}

impl Catalog {
    /// The tags that `owner` carries by `links`, in order.
    fn carried(&self, links: &Vec<LinkRow>, owner: &str) -> (r: Vec<TagRow>)
        ensures
            in_order::<TagRow>(models(r@)),
            models(r@).to_multiset() == self@.tags.filter(
                carried_by(models(links@), owner@),
            ).to_multiset(),
    {
        let mut rows = self.tags.clone();
        proof {
            assert(rows@ =~= self.tags@);
        }
        let keep = |t: &TagRow| -> (b: bool)
            ensures
                b == models(links@).contains(LinkModel { owner: owner@, tag_id: t@.id }),
            { is_linked(links, owner, t.id) };
        retain(&mut rows, Ghost(carried_by(models(links@), owner@)), keep);
        sort(rows)
    }

    /// The tags that `owner` carries by `links`, by their identifiers.
    pub fn load_tag_ids(&self, links: &Vec<LinkRow>, owner: &str) -> (r: Vec<i64>)
        requires
            self@.wf(),
            links_wf(self@.tags, models(links@)),
        ensures
            lists_tags(self@.tags, models(links@), owner@, r@),
    {
        let rows = self.carried(links, owner);
        let ghost s = models(rows@);
        let mut r: Vec<i64> = Vec::new();
        let mut i: usize = 0;
        while i < rows.len()
            invariant
                i <= rows@.len(),
                r@.len() == i,
                s == models(rows@),
                forall|j: int| 0 <= j < i ==> #[trigger] r@[j] == s[j].id,
            decreases rows@.len() - i,
        {
            r.push(rows[i].id);
            i = i + 1;
        }
        proof {
            lemma_sorted_lists(self@.tags, models(links@), owner@, s, r@);
        }
        r
    }

    /// The tags that `owner` carries by `links`, by their names.
    pub fn load_tags(&self, links: &Vec<LinkRow>, owner: &str) -> (r: Vec<String>)
        requires
            self@.wf(),
            links_wf(self@.tags, models(links@)),
        ensures
            exists|ids: Seq<i64>|
                lists_tags(self@.tags, models(links@), owner@, ids) && models(r@)
                    == #[trigger] tag_names(self@.tags, ids),
    {
        let rows = self.carried(links, owner);
        let ghost s = models(rows@);
        let ghost ids = s.map_values(|t: TagModel| t.id);
        let mut r: Vec<String> = Vec::new();
        let mut i: usize = 0;
        while i < rows.len()
            invariant
                i <= rows@.len(),
                r@.len() == i,
                s == models(rows@),
                forall|j: int| 0 <= j < i ==> (#[trigger] r@[j])@ == s[j].name,
            decreases rows@.len() - i,
        {
            r.push(rows[i].name.clone());
            i = i + 1;
        }
        proof {
            lemma_sorted_lists(self@.tags, models(links@), owner@, s, ids);
            assert forall|j: int| 0 <= j < r@.len() implies models(r@)[j] == tag_names(
                self@.tags,
                ids,
            )[j] by {
                assert(tag(self@.tags, ids[j]) == s[j]);
            }
            assert(models(r@) =~= tag_names(self@.tags, ids));
        }
        r
    }
}

/// Whether `m` hands out the music `model` with the tags that it carries.
pub open spec fn hands_out_music(l: LibraryModel, m: Music, model: MusicModel) -> bool {
    &&& m.music() == model
    &&& lists_tags(l.catalog.tags, l.music_tags, model.id, m.tag_ids@)
    &&& models(m.tags@) == tag_names(l.catalog.tags, m.tag_ids@)
}

/// Whether `c` hands out the clip `model` with the tags that it carries.
pub open spec fn hands_out_clip(l: LibraryModel, c: Clip, model: ClipModel) -> bool {
    &&& c.clip() == model
    &&& lists_tags(l.catalog.tags, l.clip_tags, model.id, c.tag_ids@)
    &&& models(c.tags@) == tag_names(l.catalog.tags, c.tag_ids@)
}

/// Whether every music has a duration that is a number.
pub open spec fn all_readable(music: Seq<MusicModel>) -> bool {
    forall|i: int| 0 <= i < music.len() ==> (#[trigger] music[i]).duration.numeric()
}

/// A music as a list shows it: without its cover and its bookmark.
pub open spec fn music_entry(m: MusicModel) -> MusicModel {
    MusicModel { cover_art: Seq::empty(), file_bookmark: None, ..m }
}

/// Whether `r` hands out the music `s` in that order, as a list shows them.
pub open spec fn lists_music(l: LibraryModel, s: Seq<MusicModel>, r: Seq<Music>) -> bool {
    &&& r.len() == s.len()
    &&& forall|i: int|
        0 <= i < r.len() ==> hands_out_music(l, #[trigger] r[i], music_entry(s[i]))
}

/// Whether `r` hands out all music in the order in which they were created, as a list
/// shows them.
pub open spec fn lists_all_music(l: LibraryModel, r: Seq<Music>) -> bool {
    exists|s: Seq<MusicModel>|
        in_order::<MusicRow>(s) && s.to_multiset() == l.music.to_multiset()
            && #[trigger] lists_music(l, s, r)
}

/// Whether `r` hands out the clips `s` in that order.
pub open spec fn lists_clips(l: LibraryModel, s: Seq<ClipModel>, r: Seq<Clip>) -> bool {
    &&& r.len() == s.len()
    &&& forall|i: int| 0 <= i < r.len() ==> hands_out_clip(l, #[trigger] r[i], s[i])
}

impl Ordered for MusicRow {
    open spec fn le(a: MusicModel, b: MusicModel) -> bool {
        a.created_at <= b.created_at
    }

    proof fn le_total(a: MusicModel, b: MusicModel) {
    }

    proof fn le_transitive(a: MusicModel, b: MusicModel, c: MusicModel) {
    }

    fn at_most(&self, other: &Self) -> (r: bool) {
        self.created_at <= other.created_at
    }
}

impl Ordered for ClipRow {
    open spec fn le(a: ClipModel, b: ClipModel) -> bool {
        a.created_at <= b.created_at
    }

    proof fn le_total(a: ClipModel, b: ClipModel) {
    }

    proof fn le_transitive(a: ClipModel, b: ClipModel, c: ClipModel) {
    }

    fn at_most(&self, other: &Self) -> (r: bool) {
        self.created_at <= other.created_at
    }
}

/// A clip, to be ordered by where it starts.
pub struct ClipByStart {
    pub row: ClipRow,
}

impl View for ClipByStart {
    type V = ClipModel;

    open spec fn view(&self) -> ClipModel {
        self.row@
    }
}

impl Ordered for ClipByStart {
    open spec fn le(a: ClipModel, b: ClipModel) -> bool {
        a.start.rank() < b.start.rank() || (a.start.rank() == b.start.rank() && a.created_at
            <= b.created_at)
    }

    proof fn le_total(a: ClipModel, b: ClipModel) {
    }

    proof fn le_transitive(a: ClipModel, b: ClipModel, c: ClipModel) {
    }

    fn at_most(&self, other: &Self) -> (r: bool) {
        if self.row.start.at_most(other.row.start) {
            if other.row.start.at_most(self.row.start) {
                self.row.created_at <= other.row.created_at
            } else {
                true
            }
        } else {
            false
        }
    }
}

/// Being a clip of the music `music_id`.
pub open spec fn clip_of(music_id: Seq<char>) -> spec_fn(ClipModel) -> bool {
    |c: ClipModel| c.music_id == music_id
}

impl Library {
    /// A music with the tags that it carries.
    fn hand_out_music(&self, row: &MusicRow) -> (m: Music)
        requires
            self@.wf(),
        ensures
            hands_out_music(self@, m, (MusicModel { file_bookmark: None, ..row@ })),
    {
        let tag_ids = self.catalog.load_tag_ids(&self.music_tags, row.id.as_str());
        let tags = self.catalog.load_tags(&self.music_tags, row.id.as_str());
        proof {
            let c = self@.catalog;
            let ids = choose|ids: Seq<i64>|
                lists_tags(c.tags, self@.music_tags, row@.id, ids) && models(tags@)
                    == #[trigger] tag_names(c.tags, ids);
            law_tags_are_listed_in_one_way(c.tags, self@.music_tags, row@.id, ids, tag_ids@);
        }
        Music::from_row(row, tags, tag_ids)
    }

    /// A clip with the tags that it carries.
    fn hand_out_clip(&self, row: &ClipRow) -> (m: Clip)
        requires
            self@.wf(),
        ensures
            hands_out_clip(self@, m, row@),
    {
        let tag_ids = self.catalog.load_tag_ids(&self.clip_tags, row.id.as_str());
        let tags = self.catalog.load_tags(&self.clip_tags, row.id.as_str());
        proof {
            let c = self@.catalog;
            let ids = choose|ids: Seq<i64>|
                lists_tags(c.tags, self@.clip_tags, row@.id, ids) && models(tags@)
                    == #[trigger] tag_names(c.tags, ids);
            law_tags_are_listed_in_one_way(c.tags, self@.clip_tags, row@.id, ids, tag_ids@);
        }
        Clip::from_row(row, tags, tag_ids)
    }

    /// The music `id`, if there is one. One whose duration is no number cannot be read.
    pub fn get_music(&self, id: &str) -> (r: Result<Option<Music>, LibraryError>)
        requires
            self@.wf(),
        ensures
            match r {
                Ok(Some(m)) => has_music(self@.music, id@) && music_at(
                    self@.music,
                    id@,
                ).duration.numeric() && hands_out_music(
                    self@,
                    m,
                    (MusicModel { file_bookmark: None, ..music_at(self@.music, id@) }),
                ),
                Ok(None) => !has_music(self@.music, id@),
                Err(e) => has_music(self@.music, id@) && !music_at(
                    self@.music,
                    id@,
                ).duration.numeric() && e@ == Failure::<Seq<char>>::NoDuration(
                    Reading::OneMusic(self@.duration_column),
                ),
            },
    {
        match self.music_index(id) {
            Some(i) => {
                proof {
                    lemma_music_at(self@.music, i as int);
                }
                if !self.music[i].duration.is_number() {
                    return Err(Failure::NoDuration(Reading::OneMusic(self.duration_column)));
                }
                Ok(Some(self.hand_out_music(&self.music[i])))
            },
            None => Ok(None),
        }
    }

    /// The clip `id`, if there is one.
    pub fn get_clip(&self, id: &str) -> (r: Option<Clip>)
        requires
            self@.wf(),
        ensures
            match r {
                Some(c) => has_clip(self@.clips, id@) && hands_out_clip(
                    self@,
                    c,
                    clip_at(self@.clips, id@),
                ),
                None => !has_clip(self@.clips, id@),
            },
    {
        match self.clip_index(id) {
            Some(i) => {
                proof {
                    lemma_clip_at(self@.music, self@.clips, i as int);
                }
                Some(self.hand_out_clip(&self.clips[i]))
            },
            None => None,
        }
    }

    /// All music without their covers, in the order in which they were created. Where the
    /// duration of one is no number, none can be read.
    pub fn list_music(&self) -> (r: Result<Vec<Music>, LibraryError>)
        requires
            self@.wf(),
        ensures
            match r {
                Ok(v) => all_readable(self@.music) && lists_all_music(self@, v@),
                Err(e) => !all_readable(self@.music) && e@ == Failure::<Seq<char>>::NoDuration(
                    Reading::AllMusic,
                ),
            },
    {
        let mut k: usize = 0;
        while k < self.music.len()
            invariant
                k <= self.music@.len(),
                forall|j: int| 0 <= j < k ==> (#[trigger] self@.music[j]).duration.numeric(),
            decreases self.music@.len() - k,
        {
            if !self.music[k].duration.is_number() {
                proof {
                    assert(!self@.music[k as int].duration.numeric());
                }
                return Err(Failure::NoDuration(Reading::AllMusic));
            }
            k = k + 1;
        }
        proof {
            assert(all_readable(self@.music));
        }
        let sorted = sort(self.copy_music());
        let ghost s = models(sorted@);
        let mut r: Vec<Music> = Vec::new();
        let mut i: usize = 0;
        while i < sorted.len()
            invariant
                i <= sorted@.len(),
                r@.len() == i,
                s == models(sorted@),
                self@.wf(),
                forall|j: int|
                    0 <= j < i ==> hands_out_music(self@, #[trigger] r@[j], music_entry(s[j])),
            decreases sorted@.len() - i,
        {
            let mut m = self.hand_out_music(&sorted[i]);
            m.cover_art = String::new();
            proof {
                assert(m.music() == music_entry(s[i as int]));
            }
            r.push(m);
            i = i + 1;
        }
        proof {
            assert(lists_music(self@, s, r@));
            assert(lists_all_music(self@, r@));
        }
        Ok(r)
    }

    /// All clips, in the order in which they were created.
    pub fn list_clips(&self) -> (r: Vec<Clip>)
        requires
            self@.wf(),
        ensures
            exists|s: Seq<ClipModel>|
                in_order::<ClipRow>(s) && s.to_multiset() == self@.clips.to_multiset()
                    && #[trigger] lists_clips(self@, s, r@),
    {
        let sorted = sort(self.copy_clips());
        let ghost s = models(sorted@);
        let mut r: Vec<Clip> = Vec::new();
        let mut i: usize = 0;
        while i < sorted.len()
            invariant
                i <= sorted@.len(),
                r@.len() == i,
                s == models(sorted@),
                self@.wf(),
                forall|j: int| 0 <= j < i ==> hands_out_clip(self@, #[trigger] r@[j], s[j]),
            decreases sorted@.len() - i,
        {
            r.push(self.hand_out_clip(&sorted[i]));
            i = i + 1;
        }
        proof {
            assert(lists_clips(self@, s, r@));
        }
        r
    }

    /// The clips of the music `music_id`, in the order in which they start.
    pub fn list_clips_for_music(&self, music_id: &str) -> (r: Vec<Clip>)
        requires
            self@.wf(),
        ensures
            exists|s: Seq<ClipModel>|
                in_order::<ClipByStart>(s) && s.to_multiset() == self@.clips.filter(
                    clip_of(music_id@),
                ).to_multiset() && #[trigger] lists_clips(self@, s, r@),
    {
        let mut rows = self.copy_clips();
        let keep = |c: &ClipRow| -> (b: bool)
            ensures
                b == (c@.music_id == music_id@),
            { same_text(c.music_id.as_str(), music_id) };
        retain(&mut rows, Ghost(clip_of(music_id@)), keep);
        let ghost chosen = models(rows@);
        let mut by_start: Vec<ClipByStart> = Vec::new();
        let mut k: usize = 0;
        while k < rows.len()
            invariant
                k <= rows@.len(),
                by_start@.len() == k,
                chosen == models(rows@),
                forall|j: int| 0 <= j < k ==> (#[trigger] by_start@[j])@ == chosen[j],
            decreases rows@.len() - k,
        {
            by_start.push(ClipByStart { row: rows[k].clone() });
            k = k + 1;
        }
        proof {
            assert(models(by_start@) =~= chosen);
        }
        let sorted = sort(by_start);
        let ghost s = models(sorted@);
        let mut r: Vec<Clip> = Vec::new();
        let mut i: usize = 0;
        while i < sorted.len()
            invariant
                i <= sorted@.len(),
                r@.len() == i,
                s == models(sorted@),
                self@.wf(),
                forall|j: int| 0 <= j < i ==> hands_out_clip(self@, #[trigger] r@[j], s[j]),
            decreases sorted@.len() - i,
        {
            r.push(self.hand_out_clip(&sorted[i].row));
            i = i + 1;
        }
        proof {
            assert(lists_clips(self@, s, r@));
        }
        r
    }

    /// A copy of the music.
    pub fn copy_music(&self) -> (r: Vec<MusicRow>)
        ensures
            models(r@) == self@.music,
    {
        let r = self.music.clone();
        proof {
            assert forall|i: int| 0 <= i < r@.len() implies (#[trigger] r@[i])@ == self.music@[i]@ by {
                assert(cloned::<MusicRow>(self.music@[i], r@[i]));
            }
            assert(models(r@) =~= self@.music);
        }
        r
    }

    /// A copy of the clips.
    pub fn copy_clips(&self) -> (r: Vec<ClipRow>)
        ensures
            models(r@) == self@.clips,
    {
        let r = self.clips.clone();
        proof {
            assert forall|i: int| 0 <= i < r@.len() implies (#[trigger] r@[i])@ == self.clips@[i]@ by {
                assert(cloned::<ClipRow>(self.clips@[i], r@[i]));
            }
            assert(models(r@) =~= self@.clips);
        }
        r
    }
}

} // verus!

//! Tags by their names: which tag a name stands for, and the tag made for a name that
//! stands for none.
use vstd::prelude::*;

use crate::catalog::aligned;
use crate::catalog::category;
use crate::catalog::category_named;
use crate::catalog::has_category;
use crate::catalog::has_tag;
use crate::catalog::is_rank;
use crate::catalog::lemma_category_at;
use crate::catalog::lemma_tag_at;
use crate::catalog::lemma_tag_index;
use crate::catalog::rank_of;
use crate::catalog::same_place;
use crate::catalog::siblings_unique;
use crate::catalog::tag;
use crate::catalog::tag_ids_unique;
use crate::catalog::Catalog;
use crate::catalog::CatalogModel;
use crate::catalog::TagModel;
use crate::catalog::TagRow;
use crate::failure::outcome;
use crate::failure::Constraint;
use crate::failure::ErrorModel;
use crate::failure::Failure;
use crate::failure::LibraryError;
use crate::failure::Step;
use crate::text::nocase;
use crate::text::same_nocase;
use crate::tree::lemma_with_category;
use crate::tree::uncategorized;
use crate::tree::with_category;

verus! {

/// Whether a tag has the name `name`, ASCII case aside.
pub open spec fn has_tag_named(tags: Seq<TagModel>, name: Seq<char>) -> bool {
    exists|i: int| 0 <= i < tags.len() && nocase(#[trigger] tags[i].name) == nocase(name)
}

/// Whether a tag stands among the uncategorized.
pub open spec fn is_stray(c: CatalogModel, t: TagModel) -> bool {
    nocase(category(c.categories, t.category_id).name) == nocase(uncategorized())
}

/// Whether of two tags of one name `a` is meant rather than `b`, or is `b`: first the
/// tag that stands in a category of its own, then the tag at a root, then the older.
pub open spec fn preferred(c: CatalogModel, a: TagModel, b: TagModel) -> bool {
    if is_stray(c, a) != is_stray(c, b) {
        !is_stray(c, a)
    } else if a.parent_id is Some != b.parent_id is Some {
        a.parent_id is None
    } else {
        a.id <= b.id
    }
}

/// Whether the tag at `i` is the one that `name` stands for.
pub open spec fn is_choice(c: CatalogModel, name: Seq<char>, i: int) -> bool {
    &&& 0 <= i < c.tags.len()
    &&& nocase(c.tags[i].name) == nocase(name)
    &&& forall|j: int|
        0 <= j < c.tags.len() && nocase((#[trigger] c.tags[j]).name) == nocase(name) ==> preferred(
            c,
            c.tags[i],
            c.tags[j],
        )
}

/// The tag that `name` stands for, if there is one.
pub open spec fn choice(c: CatalogModel, name: Seq<char>) -> Option<i64> {
    if has_tag_named(c.tags, name) {
        Some(c.tags[choose|i: int| is_choice(c, name, i)].id)
    } else {
        None
    }
}

/// The catalog with one more tag.
pub open spec fn with_new_tag(
    c: CatalogModel,
    name: Seq<char>,
    category_id: i64,
    parent_id: Option<i64>,
    now: i64,
) -> CatalogModel {
    let id = (c.tag_seq + 1) as i64;
    CatalogModel {
        tags: c.tags.push(TagModel { id, name, category_id, parent_id, created_at: now }),
        tag_seq: id,
        ..c
    }
}

/// The steps at which the identifiers can run out when a name gets a tag.
#[derive(Clone, Copy)]
pub struct NamingSteps {
    pub category: Step,
    pub tag: Step,
}

/// The catalog in which `name` stands for a tag, and that tag: one that has the name
/// already, or else a new one at the root of the category `home`.
pub open spec fn with_tag_named(
    c: CatalogModel,
    name: Seq<char>,
    home: Seq<char>,
    now: i64,
    steps: NamingSteps,
) -> (CatalogModel, Result<i64, ErrorModel>) {
    match choice(c, name) {
        Some(id) => (c, Ok(id)),
        None => match with_category(c, home, now) {
            None => (c, Err(Failure::Write(steps.category, Constraint::Full))),
            Some(d) => if d.tag_seq == i64::MAX {
                (d, Err(Failure::Write(steps.tag, Constraint::Full)))
            } else {
                (
                    with_new_tag(d, name, category_named(d.categories, home).id, None, now),
                    Ok((d.tag_seq + 1) as i64),
                )
            },
        },
    }
}

pub proof fn lemma_choice_unique(c: CatalogModel, name: Seq<char>, i: int)
    requires
        tag_ids_unique(c.tags),
        is_choice(c, name, i),
    ensures
        choice(c, name) == Some(c.tags[i].id),
{
    assert(nocase(c.tags[i].name) == nocase(name));
    let k = choose|k: int| is_choice(c, name, k);
    assert(is_choice(c, name, k));
    assert(preferred(c, c.tags[i], c.tags[k]));
    assert(preferred(c, c.tags[k], c.tags[i]));
    assert(c.tags[i].id == c.tags[k].id);
}

/// A name stands for a tag wherever a tag has the name, and the tag has that name.
pub proof fn lemma_choice_exists(c: CatalogModel, name: Seq<char>) -> (i: int)
    requires
        tag_ids_unique(c.tags),
        has_tag_named(c.tags, name),
    ensures
        is_choice(c, name, i),
        choice(c, name) == Some(c.tags[i].id),
{
    let i = lemma_choice_among(c, name, c.tags.len() as int);
    assert(is_choice(c, name, i));
    lemma_choice_unique(c, name, i);
    i
}

proof fn lemma_choice_among(c: CatalogModel, name: Seq<char>, n: int) -> (i: int)
    requires
        0 <= n <= c.tags.len(),
        exists|i: int| 0 <= i < n && nocase(#[trigger] c.tags[i].name) == nocase(name),
    ensures
        0 <= i < n,
        nocase(c.tags[i].name) == nocase(name),
        forall|j: int|
            0 <= j < n && nocase((#[trigger] c.tags[j]).name) == nocase(name) ==> preferred(
                c,
                c.tags[i],
                c.tags[j],
            ),
    decreases n,
{
    let last = n - 1;
    if exists|i: int| 0 <= i < last && nocase(#[trigger] c.tags[i].name) == nocase(name) {
        let i = lemma_choice_among(c, name, last);
        if nocase(c.tags[last].name) == nocase(name) && preferred(
            c,
            c.tags[last],
            c.tags[i],
        ) {
            last
        } else {
            i
        }
    } else {
        last
    }
}

pub proof fn lemma_with_new_tag(
    c: CatalogModel,
    name: Seq<char>,
    category_id: i64,
    parent_id: Option<i64>,
    now: i64,
)
    requires
        c.wf(),
        c.tag_seq < i64::MAX,
        has_category(c.categories, category_id),
        parent_id matches Some(p) ==> has_tag(c.tags, p),
        forall|i: int|
            0 <= i < c.tags.len() ==> !((#[trigger] c.tags[i]).category_id == category_id
                && c.tags[i].parent_id == parent_id && nocase(c.tags[i].name) == nocase(name)),
    ensures
        with_new_tag(c, name, category_id, parent_id, now).wf(),
        forall|x: i64|
            has_tag(with_new_tag(c, name, category_id, parent_id, now).tags, x) <==> (has_tag(
                c.tags,
                x,
            ) || x == c.tag_seq + 1),
        forall|x: i64| #[trigger]
            has_tag(c.tags, x) ==> tag(
                with_new_tag(c, name, category_id, parent_id, now).tags,
                x,
            ) == tag(c.tags, x),
        aligned(c.tags) && (parent_id matches Some(p) ==> tag(c.tags, p).category_id
            == category_id) ==> aligned(with_new_tag(c, name, category_id, parent_id, now).tags),
{
    let d = with_new_tag(c, name, category_id, parent_id, now);
    let n = c.tags.len() as int;
    let rank = rank_of(c.tags);
    assert(is_rank(c.tags, rank));
    let new_id = d.tags[n].id;
    assert forall|x: i64| has_tag(d.tags, x) <==> (has_tag(c.tags, x) || x == c.tag_seq + 1) by {
        if has_tag(d.tags, x) {
            let i = lemma_tag_index(d.tags, x);
            if i < n {
                assert(c.tags[i].id == x);
            }
        }
        if has_tag(c.tags, x) {
            let i = lemma_tag_index(c.tags, x);
            assert(d.tags[i].id == x);
        }
        if x == c.tag_seq + 1 {
            assert(d.tags[n].id == x);
        }
    }
    assert forall|i: int, j: int| 0 <= i < j < d.tags.len() implies (#[trigger] d.tags[i]).id != (
    #[trigger] d.tags[j]).id && !same_place(d.tags[i], d.tags[j]) by {
        if j == n {
            assert(c.tags[i].id <= c.tag_seq);
        } else {
            assert(c.tags[i].id != c.tags[j].id);
            assert(!same_place(c.tags[i], c.tags[j]));
        }
    }
    assert(tag_ids_unique(d.tags));
    assert(siblings_unique(d.tags));
    assert forall|x: i64| #[trigger] has_tag(c.tags, x) implies tag(d.tags, x) == tag(
        c.tags,
        x,
    ) by {
        let i = lemma_tag_index(c.tags, x);
        lemma_tag_at(c.tags, i);
        assert(d.tags[i] == c.tags[i]);
        lemma_tag_at(d.tags, i);
    }
    let rerank = |x: i64|
        if x == new_id {
            match parent_id {
                Some(p) => rank(p) + 1,
                None => 0,
            }
        } else {
            rank(x)
        };
    assert forall|i: int| 0 <= i < d.tags.len() && (#[trigger] d.tags[i]).parent_id is Some implies
        rerank(d.tags[i].parent_id->0) < rerank(d.tags[i].id) && has_tag(
        d.tags,
        d.tags[i].parent_id->0,
    ) by {
        let p = d.tags[i].parent_id->0;
        if i < n {
            assert(has_tag(c.tags, c.tags[i].parent_id->0));
            assert(c.tags[i].id <= c.tag_seq);
            assert(rank(p) < rank(c.tags[i].id));
        }
        assert(has_tag(c.tags, p));
        let k = lemma_tag_index(c.tags, p);
        assert(c.tags[k].id <= c.tag_seq);
    }
    assert(is_rank(d.tags, rerank));
    assert forall|i: int| 0 <= i < d.tags.len() implies 1 <= (#[trigger] d.tags[i]).id <= d.tag_seq
        && has_category(d.categories, d.tags[i].category_id) by {
        if i < n {
            assert(1 <= c.tags[i].id <= c.tag_seq);
            assert(has_category(c.categories, c.tags[i].category_id));
        }
    }
    if aligned(c.tags) && (parent_id matches Some(p) ==> tag(c.tags, p).category_id
        == category_id) {
        assert forall|i: int| 0 <= i < d.tags.len() && (#[trigger] d.tags[i]).parent_id is Some
            implies d.tags[i].category_id == tag(d.tags, d.tags[i].parent_id->0).category_id by {
            let p = d.tags[i].parent_id->0;
            if i < n {
                assert(has_tag(c.tags, c.tags[i].parent_id->0));
                assert(c.tags[i].category_id == tag(c.tags, p).category_id);
            }
            assert(has_tag(c.tags, p));
        }
    }
}

/// What is kept when a name gets a tag: the tables stay in order, every tag stays as it
/// is, and where the tag is new no earlier tag has the name.
pub proof fn lemma_with_tag_named(
    c: CatalogModel,
    name: Seq<char>,
    home: Seq<char>,
    now: i64,
    steps: NamingSteps,
)
    requires
        c.wf(),
    ensures
        ({
            let (d, r) = with_tag_named(c, name, home, now, steps);
            &&& d.wf()
            &&& c.tags.len() <= d.tags.len() <= c.tags.len() + 1
            &&& d.tags.take(c.tags.len() as int) == c.tags
            &&& d.tags.len() > c.tags.len() ==> !has_tag_named(c.tags, name)
                && d.tags.last().name == name && d.tags.last().parent_id is None && d.tags.last().id
                == c.tag_seq + 1 && nocase(
                category(d.categories, d.tags.last().category_id).name,
            ) == nocase(home)
            &&& c.tag_seq <= d.tag_seq
            &&& forall|x: i64| #[trigger] has_tag(c.tags, x) ==> has_tag(d.tags, x)
            &&& forall|x: i64| #[trigger]
                has_category(c.categories, x) ==> has_category(d.categories, x) && category(
                    d.categories,
                    x,
                ) == category(c.categories, x)
            &&& aligned(c.tags) ==> aligned(d.tags)
            &&& r matches Ok(id) ==> has_tag(d.tags, id) && has_tag_named(d.tags, name)
                && choice(d, name) == Some(id)
        }),
{
    let (d, r) = with_tag_named(c, name, home, now, steps);
    assert(c.tags.take(c.tags.len() as int) =~= c.tags);
    match choice(c, name) {
        Some(id) => {
            let i = lemma_choice_exists(c, name);
            lemma_tag_at(c.tags, i);
        },
        None => match with_category(c, home, now) {
            None => {},
            Some(e) => {
                lemma_with_category(c, home, now);
                assert forall|x: i64| #[trigger] has_category(c.categories, x) implies has_category(
                    e.categories,
                    x,
                ) && category(e.categories, x) == category(c.categories, x) by {
                    let i = choose|i: int|
                        0 <= i < c.categories.len() && #[trigger] c.categories[i].id == x;
                    assert(e.categories[i] == c.categories[i]);
                    lemma_category_at(e.categories, e.category_seq, i);
                    lemma_category_at(c.categories, c.category_seq, i);
                }
                if e.tag_seq < i64::MAX {
                    let k = category_named(e.categories, home).id;
                    assert forall|i: int| 0 <= i < e.tags.len() implies !((
                    #[trigger] e.tags[i]).category_id == k && e.tags[i].parent_id
                        == None::<i64> && nocase(e.tags[i].name) == nocase(name)) by {
                        assert(nocase(c.tags[i].name) != nocase(name));
                    }
                    lemma_with_new_tag(e, name, k, None, now);
                    assert(d.tags.take(c.tags.len() as int) =~= c.tags);
                    let n = c.tags.len() as int;
                    assert(nocase(d.tags[n].name) == nocase(name));
                    assert forall|j: int|
                        0 <= j < d.tags.len() && nocase((#[trigger] d.tags[j]).name) == nocase(
                            name,
                        ) implies preferred(d, d.tags[n], d.tags[j]) by {
                        if j < n {
                            assert(nocase(c.tags[j].name) != nocase(name));
                        }
                    }
                    assert(is_choice(d, name, n));
                    lemma_choice_unique(d, name, n);
                }
            },
        },
    }
}

impl Catalog {
    /// Whether the tag at `i` stands among the uncategorized.
    fn stray(&self, i: usize) -> (b: bool)
        requires
            self@.wf(),
            i < self@.tags.len(),
        ensures
            b == is_stray(self@, self@.tags[i as int]),
    {
        match self.category_index(self.tags[i].category_id) {
            Some(k) => {
                proof {
                    lemma_category_at(self@.categories, self@.category_seq, k as int);
                }
                same_nocase(self.categories[k].name.as_str(), "未分类")
            },
            None => {
                proof {
                    assert(has_category(self@.categories, self@.tags[i as int].category_id));
                }
                false
            },
        }
    }

    /// The tag that `name` stands for, if there is one.
    pub fn find_tag(&self, name: &str) -> (r: Option<i64>)
        requires
            self@.wf(),
        ensures
            r == choice(self@, name@),
    {
        let mut best: Option<usize> = None;
        let mut i: usize = 0;
        while i < self.tags.len()
            invariant
                i <= self.tags@.len(),
                self@.wf(),
                match best {
                    None => forall|j: int|
                        0 <= j < i ==> nocase((#[trigger] self@.tags[j]).name) != nocase(name@),
                    Some(b) => b < i && nocase(self@.tags[b as int].name) == nocase(name@) && forall|
                        j: int,
                    |
                        0 <= j < i && nocase((#[trigger] self@.tags[j]).name) == nocase(name@)
                            ==> preferred(self@, self@.tags[b as int], self@.tags[j]),
                },
            decreases self.tags@.len() - i,
        {
            if same_nocase(self.tags[i].name.as_str(), name) {
                best = match best {
                    None => Some(i),
                    Some(b) => {
                        let x = self.stray(i);
                        let y = self.stray(b);
                        let before: bool = if x != y {
                            !x
                        } else if self.tags[i].parent_id.is_some() != self.tags[b].parent_id.is_some() {
                            self.tags[i].parent_id.is_none()
                        } else {
                            self.tags[i].id <= self.tags[b].id
                        };
                        if before {
                            Some(i)
                        } else {
                            Some(b)
                        }
                    },
                };
            }
            i = i + 1;
        }
        match best {
            None => None,
            Some(b) => {
                proof {
                    assert(is_choice(self@, name@, b as int));
                    lemma_choice_unique(self@, name@, b as int);
                }
                Some(self.tags[b].id)
            },
        }
    }

    /// Adds a tag at the end of the table, under the next identifier.
    pub fn push_tag(&mut self, name: &str, category_id: i64, parent_id: Option<i64>, now: i64) -> (
        id: i64)
        requires
            old(self)@.tag_seq < i64::MAX,
        ensures
            final(self)@ == with_new_tag(old(self)@, name@, category_id, parent_id, now),
            id == old(self)@.tag_seq + 1,
    {
        let id: i64 = self.tag_seq + 1;
        let ghost before = self@;
        self.tags.push(
            TagRow { id, name: name.to_string(), category_id, parent_id, created_at: now },
        );
        self.tag_seq = id;
        proof {
            assert(self@.tags =~= with_new_tag(
                before,
                name@,
                category_id,
                parent_id,
                now,
            ).tags);
        }
        id
    }

    /// The tag that `name` stands for; where it stands for none, a new tag at the root
    /// of the category `home`.
    pub fn find_or_add_tag(&mut self, name: &str, home: &str, now: i64, steps: NamingSteps) -> (r:
        Result<i64, LibraryError>)
        requires
            old(self)@.wf(),
        ensures
            final(self)@.wf(),
            (final(self)@, outcome(r)) == with_tag_named(old(self)@, name@, home@, now, steps),
    {
        proof {
            lemma_with_tag_named(self@, name@, home@, now, steps);
        }
        match self.find_tag(name) {
            Some(id) => Ok(id),
            None => {
                let k: i64 = match self.find_or_add_category(home, now) {
                    Some(k) => k,
                    None => {
                        return Err(Failure::Write(steps.category, Constraint::Full));
                    },
                };
                if self.tag_seq == i64::MAX {
                    return Err(Failure::Write(steps.tag, Constraint::Full));
                }
                let id = self.push_tag(name, k, None, now);
                Ok(id)
            },
        }
    }
}

} // verus!

//! Bringing tables that were written under an earlier schema up to the present one.
use vstd::prelude::*;

use crate::catalog::aligned;
use crate::catalog::categories_wf;
use crate::catalog::has_tag;
use crate::catalog::models;
use crate::catalog::siblings_unique;
use crate::catalog::tags_linked;
use crate::catalog::Catalog;
use crate::catalog::CatalogModel;
use crate::failure::outcome;
use crate::failure::Constraint;
use crate::failure::ErrorModel;
use crate::failure::Failure;
use crate::failure::Key;
use crate::failure::LibraryError;
use crate::failure::Rule;
use crate::failure::Step;
use crate::legacy::legacy_catalog;
use crate::legacy::legacy_wf;
use crate::legacy::migrate_legacy_tag_tree;
use crate::legacy::LegacyCategory;
use crate::legacy::LegacyCategoryModel;
use crate::legacy::LegacyTag;
use crate::legacy::LegacyTagModel;
use crate::library::clip_owners;
use crate::library::has_clip;
use crate::library::has_music;
use crate::library::lemma_library_wf;
use crate::library::music_owners;
use crate::library::paths_distinct;
use crate::library::ClipModel;
use crate::library::Library;
use crate::library::LibraryModel;
use crate::library::MusicModel;
use crate::library_tags::with_catalog;
use crate::links::add_link;
use crate::links::lemma_linked;
use crate::links::linked;
use crate::links::links_wf;
use crate::links::targets_exist;
use crate::links::LinkModel;
use crate::links::LinkRow;
use crate::links::SyncModel;
use crate::locations::source_now;
use crate::naming::lemma_with_tag_named;
use crate::naming::with_tag_named;
use crate::naming::NamingSteps;
use crate::schema::check_schema;
use crate::schema::schema_result;
use crate::standard::law_seeding_is_done_once;
use crate::standard::lemma_seeded;
use crate::standard::seeded;
use crate::standard::standard_home;
use crate::standard::tag_category;
use crate::text::is_blank;
use crate::text::same_text;
use crate::text::trim;
use crate::text::trimmed;
use crate::tree::places_distinct;
use crate::tree::uncategorized;

verus! {

/// Why a text is not the JSON that was expected.
#[verifier::external_type_specification]
#[verifier::external_body]
pub struct ExJsonError(serde_json::Error);

/// The texts of a JSON list of strings; `None` for a text that is no such list.
pub uninterp spec fn json_strings(text: Seq<char>) -> Option<Seq<Seq<char>>>;

/// `serde_json::from_str` reads a JSON list of strings. Claimed of it: whether it
/// succeeds, and with which strings, depends on the text alone.
#[verifier::external_body]
fn read_strings(text: &str) -> (r: Result<Vec<String>, serde_json::Error>)
    ensures
        match r {
            Ok(v) => json_strings(text@) == Some(models(v@)),
            Err(_) => json_strings(text@) is None,
        },
{
    serde_json::from_str(text)
}

/// The tags of one owner as an earlier schema kept them: a JSON list of names.
pub struct RawTags {
    pub owner: String,
    pub text: String,
}

/// The tags of one owner as an earlier schema kept them, mathematically.
pub struct RawTagsModel {
    pub owner: Seq<char>,
    pub text: Seq<char>,
}

impl View for RawTags {
    type V = RawTagsModel;

    open spec fn view(&self) -> RawTagsModel {
        RawTagsModel { owner: self.owner@, text: self.text@ }
    }
}

/// The names in a text: none, where it is no JSON list of strings.
pub open spec fn names_in(text: Seq<char>) -> Seq<Seq<char>> {
    match json_strings(text) {
        Some(names) => names,
        None => Seq::empty(),
    }
}

/// The names in a text: none, where it is no JSON list of strings.
pub fn read_names(text: &str) -> (r: Vec<String>)
    ensures
        models(r@) == names_in(text@),
{
    match read_strings(text) {
        Ok(v) => v,
        Err(_) => {
            let v: Vec<String> = Vec::new();
            proof {
                assert(models(v@) =~= Seq::empty());
            }
            v
        },
    }
}

/// The category for a new tag: its own, where it is a standard tag.
pub open spec fn migration_home(name: Seq<char>) -> Seq<char> {
    if standard_home(name).len() == 0 {
        uncategorized()
    } else {
        standard_home(name)
    }
}

/// The steps at which the identifiers can run out when tags are migrated.
pub open spec fn migration_steps() -> NamingSteps {
    NamingSteps { category: Step::CreateDimension, tag: Step::MigrateTag }
}

/// The tables once `owner` carries the tags that `names` stand for as well, one after
/// the other. Names are trimmed and blank ones passed over; one that stands for no tag
/// gets a new one.
pub open spec fn names_migrated(
    c: CatalogModel,
    links: Seq<LinkModel>,
    owner: Seq<char>,
    names: Seq<Seq<char>>,
    now: i64,
) -> SyncModel
    decreases names.len(),
{
    if names.len() == 0 {
        SyncModel { catalog: c, links, error: None }
    } else if is_blank(names[0]) {
        names_migrated(c, links, owner, names.drop_first(), now)
    } else {
        let n = trimmed(names[0]);
        match with_tag_named(c, n, migration_home(n), now, migration_steps()) {
            (d, Err(e)) => SyncModel { catalog: d, links, error: Some(e) },
            (d, Ok(id)) => names_migrated(
                d,
                linked(links, owner, id),
                owner,
                names.drop_first(),
                now,
            ),
        }
    }
}

/// The tables once every owner carries the tags that their text names as well.
pub open spec fn texts_migrated(
    c: CatalogModel,
    links: Seq<LinkModel>,
    rows: Seq<RawTagsModel>,
    now: i64,
) -> SyncModel
    decreases rows.len(),
{
    if rows.len() == 0 {
        SyncModel { catalog: c, links, error: None }
    } else {
        let s = names_migrated(c, links, rows[0].owner, names_in(rows[0].text), now);
        match s.error {
            Some(_) => s,
            None => texts_migrated(s.catalog, s.links, rows.drop_first(), now),
        }
    }
}

/// Whether `owner` is one of those whose tags are in `rows`.
pub open spec fn is_owner(rows: Seq<RawTagsModel>, owner: Seq<char>) -> bool {
    exists|i: int| 0 <= i < rows.len() && (#[trigger] rows[i]).owner == owner
}

/// What is kept when names are migrated: the tables are in order, every tag exists
/// still, and nobody carries less than before.
pub proof fn lemma_names_migrated(
    c: CatalogModel,
    links: Seq<LinkModel>,
    owner: Seq<char>,
    names: Seq<Seq<char>>,
    now: i64,
)
    requires
        c.wf(),
        links_wf(c.tags, links),
    ensures
        ({
            let s = names_migrated(c, links, owner, names, now);
            &&& s.catalog.wf()
            &&& links_wf(s.catalog.tags, s.links)
            &&& forall|x: i64| #[trigger] has_tag(c.tags, x) ==> has_tag(s.catalog.tags, x)
            &&& aligned(c.tags) ==> aligned(s.catalog.tags)
            &&& forall|l: LinkModel| #[trigger] links.contains(l) ==> s.links.contains(l)
            &&& forall|i: int|
                0 <= i < s.links.len() ==> (#[trigger] s.links[i]).owner == owner
                    || links.contains(s.links[i])
        }),
    decreases names.len(),
{
    let s = names_migrated(c, links, owner, names, now);
    if names.len() == 0 {
        assert forall|i: int| 0 <= i < s.links.len() implies (#[trigger] s.links[i]).owner == owner
            || links.contains(s.links[i]) by {
            assert(links[i] == s.links[i]);
        }
    } else if is_blank(names[0]) {
        lemma_names_migrated(c, links, owner, names.drop_first(), now);
    } else {
        let n = trimmed(names[0]);
        let (d, r) = with_tag_named(c, n, migration_home(n), now, migration_steps());
        lemma_with_tag_named(c, n, migration_home(n), now, migration_steps());
        assert(links_wf(d.tags, links));
        match r {
            Err(_) => {
                assert forall|i: int| 0 <= i < s.links.len() implies (#[trigger] s.links[i]).owner
                    == owner || links.contains(s.links[i]) by {
                    assert(links[i] == s.links[i]);
                }
            },
            Ok(id) => {
                let more = linked(links, owner, id);
                lemma_linked(d.tags, links, owner, id);
                lemma_names_migrated(d, more, owner, names.drop_first(), now);
                assert forall|x: i64| #[trigger] has_tag(c.tags, x) implies has_tag(
                    s.catalog.tags,
                    x,
                ) by {
                    assert(has_tag(d.tags, x));
                }
                assert forall|l: LinkModel| #[trigger] links.contains(l) implies s.links.contains(
                    l,
                ) by {
                    assert(more.contains(l));
                }
                assert forall|i: int| 0 <= i < s.links.len() implies (#[trigger] s.links[i]).owner
                    == owner || links.contains(s.links[i]) by {
                    if more.contains(s.links[i]) {
                        assert(links.contains(s.links[i]) || s.links[i] == (LinkModel {
                            owner,
                            tag_id: id,
                        }));
                    }
                }
            },
        }
    }
}

/// What is kept when texts are migrated.
pub proof fn lemma_texts_migrated(
    c: CatalogModel,
    links: Seq<LinkModel>,
    rows: Seq<RawTagsModel>,
    now: i64,
)
    requires
        c.wf(),
        links_wf(c.tags, links),
    ensures
        ({
            let s = texts_migrated(c, links, rows, now);
            &&& s.catalog.wf()
            &&& links_wf(s.catalog.tags, s.links)
            &&& forall|x: i64| #[trigger] has_tag(c.tags, x) ==> has_tag(s.catalog.tags, x)
            &&& aligned(c.tags) ==> aligned(s.catalog.tags)
            &&& forall|l: LinkModel| #[trigger] links.contains(l) ==> s.links.contains(l)
            &&& forall|i: int|
                0 <= i < s.links.len() ==> is_owner(rows, (#[trigger] s.links[i]).owner)
                    || links.contains(s.links[i])
        }),
    decreases rows.len(),
{
    let s = texts_migrated(c, links, rows, now);
    if rows.len() == 0 {
        assert forall|i: int| 0 <= i < s.links.len() implies is_owner(
            rows,
            (#[trigger] s.links[i]).owner,
        ) || links.contains(s.links[i]) by {
            assert(links[i] == s.links[i]);
        }
    } else {
        let names = names_in(rows[0].text);
        let one = names_migrated(c, links, rows[0].owner, names, now);
        lemma_names_migrated(c, links, rows[0].owner, names, now);
        assert forall|l: LinkModel| one.links.contains(l) implies l.owner == rows[0].owner
            || links.contains(l) by {
            let i = choose|i: int| 0 <= i < one.links.len() && one.links[i] == l;
            assert(one.links[i].owner == rows[0].owner || links.contains(one.links[i]));
        }
        if one.error is None {
            let rest = rows.drop_first();
            lemma_texts_migrated(one.catalog, one.links, rest, now);
            assert forall|x: i64| #[trigger] has_tag(c.tags, x) implies has_tag(
                s.catalog.tags,
                x,
            ) by {
                assert(has_tag(one.catalog.tags, x));
            }
            assert forall|l: LinkModel| #[trigger] links.contains(l) implies s.links.contains(l) by {
                assert(one.links.contains(l));
            }
            assert forall|i: int| 0 <= i < s.links.len() implies is_owner(
                rows,
                (#[trigger] s.links[i]).owner,
            ) || links.contains(s.links[i]) by {
                let l = s.links[i];
                if is_owner(rest, l.owner) {
                    let k = choose|k: int| 0 <= k < rest.len() && (#[trigger] rest[k]).owner
                        == l.owner;
                    assert(rows[k + 1].owner == l.owner);
                } else if one.links.contains(l) && l.owner == rows[0].owner {
                    assert(rows[0].owner == l.owner);
                }
            }
        } else {
            assert forall|i: int| 0 <= i < s.links.len() implies is_owner(
                rows,
                (#[trigger] s.links[i]).owner,
            ) || links.contains(s.links[i]) by {
                assert(one.links.contains(s.links[i]));
                if s.links[i].owner == rows[0].owner {
                    assert(rows[0].owner == s.links[i].owner);
                }
            }
        }
    }
}

impl Catalog {
    /// The tag that `name` stands for; where it stands for none, a new tag in its
    /// standard category, or among the uncategorized.
    pub fn ensure_tag(&mut self, name: &str, created_at: i64) -> (r: Result<i64, LibraryError>)
        requires
            old(self)@.wf(),
        ensures
            final(self)@.wf(),
            (final(self)@, outcome(r)) == with_tag_named(
                old(self)@,
                name@,
                migration_home(name@),
                created_at,
                migration_steps(),
            ),
    {
        let standard = tag_category(name);
        let home = if standard.is_empty() {
            "未分类"
        } else {
            standard
        };
        let steps = NamingSteps { category: Step::CreateDimension, tag: Step::MigrateTag };
        self.find_or_add_tag(name, home, created_at, steps)
    }
}

/// Lets `owner` carry the tags that `names` stand for as well.
pub fn migrate_names(
    catalog: &mut Catalog,
    links: &mut Vec<LinkRow>,
    owner: &str,
    names: &Vec<String>,
    now: i64,
) -> (r: Result<(), LibraryError>)
    requires
        old(catalog)@.wf(),
        links_wf(old(catalog)@.tags, models(old(links)@)),
    ensures
        final(catalog)@.wf(),
        ({
            let s = names_migrated(
                old(catalog)@,
                models(old(links)@),
                owner@,
                models(names@),
                now,
            );
            &&& final(catalog)@ == s.catalog
            &&& models(final(links)@) == s.links
            &&& outcome(r) == match s.error {
                None => Ok::<(), ErrorModel>(()),
                Some(e) => Err(e),
            }
        }),
{
    let ghost m = models(names@);
    let ghost all = names_migrated(catalog@, models(links@), owner@, m, now);
    let mut i: usize = 0;
    proof {
        assert(m.skip(0) =~= m);
    }
    while i < names.len()
        invariant
            i <= names@.len(),
            m == models(names@),
            catalog@.wf(),
            links_wf(catalog@.tags, models(links@)),
            all == names_migrated(old(catalog)@, models(old(links)@), owner@, m, now),
            all == names_migrated(catalog@, models(links@), owner@, m.skip(i as int), now),
        decreases names@.len() - i,
    {
        proof {
            assert(m.skip(i as int).drop_first() =~= m.skip(i + 1));
            assert(m.skip(i as int)[0] == m[i as int]);
        }
        let name = trim(names[i].as_str());
        if !name.as_str().is_empty() {
            let ghost before = catalog@;
            proof {
                lemma_with_tag_named(
                    before,
                    name@,
                    migration_home(name@),
                    now,
                    migration_steps(),
                );
            }
            match catalog.ensure_tag(name.as_str(), now) {
                Err(e) => {
                    return Err(e);
                },
                Ok(id) => {
                    proof {
                        assert(links_wf(catalog@.tags, models(links@)));
                        lemma_linked(catalog@.tags, models(links@), owner@, id);
                    }
                    add_link(links, owner, id);
                },
            }
        }
        i = i + 1;
    }
    Ok(())
}

/// Lets every owner carry the tags that their text names as well.
pub fn migrate_json_tags(
    catalog: &mut Catalog,
    links: &mut Vec<LinkRow>,
    rows: &Vec<RawTags>,
    now: i64,
) -> (r: Result<(), LibraryError>)
    requires
        old(catalog)@.wf(),
        links_wf(old(catalog)@.tags, models(old(links)@)),
    ensures
        final(catalog)@.wf(),
        ({
            let s = texts_migrated(old(catalog)@, models(old(links)@), models(rows@), now);
            &&& final(catalog)@ == s.catalog
            &&& models(final(links)@) == s.links
            &&& outcome(r) == match s.error {
                None => Ok::<(), ErrorModel>(()),
                Some(e) => Err(e),
            }
        }),
{
    let ghost m = models(rows@);
    let ghost all = texts_migrated(catalog@, models(links@), m, now);
    let mut i: usize = 0;
    proof {
        assert(m.skip(0) =~= m);
    }
    while i < rows.len()
        invariant
            i <= rows@.len(),
            m == models(rows@),
            catalog@.wf(),
            links_wf(catalog@.tags, models(links@)),
            all == texts_migrated(old(catalog)@, models(old(links)@), m, now),
            all == texts_migrated(catalog@, models(links@), m.skip(i as int), now),
        decreases rows@.len() - i,
    {
        proof {
            assert(m.skip(i as int).drop_first() =~= m.skip(i + 1));
            assert(m.skip(i as int)[0] == m[i as int]);
        }
        let names = read_names(rows[i].text.as_str());
        proof {
            lemma_names_migrated(
                catalog@,
                models(links@),
                m[i as int].owner,
                models(names@),
                now,
            );
        }
        match migrate_names(catalog, links, rows[i].owner.as_str(), &names, now) {
            Err(e) => {
                return Err(e);
            },
            Ok(_) => {},
        }
        i = i + 1;
    }
    Ok(())
}

/// What an earlier schema held of tags.
pub struct LegacyTables {
    pub categories: Vec<LegacyCategory>,
    pub tags: Vec<LegacyTag>,
}

/// What an earlier schema held of tags, mathematically.
pub struct LegacyTablesModel {
    pub categories: Seq<LegacyCategoryModel>,
    pub tags: Seq<LegacyTagModel>,
}

impl View for LegacyTables {
    type V = LegacyTablesModel;

    open spec fn view(&self) -> LegacyTablesModel {
        LegacyTablesModel { categories: models(self.categories@), tags: models(self.tags@) }
    }
}

/// The tables of a database as they are found: under the present schema, or with what an
/// earlier one kept elsewhere.
pub struct Tables {
    pub schema: Option<String>,
    pub legacy: Option<LegacyTables>,
    pub music_texts: Option<Vec<RawTags>>,
    pub clip_texts: Option<Vec<RawTags>>,
    pub library: Library,
}

/// The tables of a database as they are found, mathematically.
#[verifier::ext_equal]
pub struct TablesModel {
    pub schema: Option<Seq<char>>,
    pub legacy: Option<LegacyTablesModel>,
    pub music_texts: Option<Seq<RawTagsModel>>,
    pub clip_texts: Option<Seq<RawTagsModel>>,
    pub library: LibraryModel,
}

impl View for Tables {
    type V = TablesModel;

    open spec fn view(&self) -> TablesModel {
        TablesModel {
            schema: match self.schema {
                Some(s) => Some(s@),
                None => None,
            },
            legacy: match self.legacy {
                Some(t) => Some(t@),
                None => None,
            },
            music_texts: match self.music_texts {
                Some(v) => Some(models(v@)),
                None => None,
            },
            clip_texts: match self.clip_texts {
                Some(v) => Some(models(v@)),
                None => None,
            },
            library: self.library@,
        }
    }
}

/// Every text is of a music that exists.
pub open spec fn texts_of_music(music: Seq<MusicModel>, rows: Seq<RawTagsModel>) -> bool {
    forall|i: int| 0 <= i < rows.len() ==> has_music(music, (#[trigger] rows[i]).owner)
}

/// Every text is of a clip that exists.
pub open spec fn texts_of_clips(clips: Seq<ClipModel>, rows: Seq<RawTagsModel>) -> bool {
    forall|i: int| 0 <= i < rows.len() ==> has_clip(clips, (#[trigger] rows[i]).owner)
}

impl TablesModel {
    /// What the tables of a database satisfy as they are found.
    pub open spec fn wf(self) -> bool {
        &&& self.library.rows_wf()
        &&& self.music_texts matches Some(rows) ==> texts_of_music(self.library.music, rows)
        &&& self.clip_texts matches Some(rows) ==> texts_of_clips(self.library.clips, rows)
        &&& match self.legacy {
            Some(t) => legacy_wf(t.tags),
            None => {
                &&& categories_wf(
                    self.library.catalog.categories,
                    self.library.catalog.category_seq,
                )
                &&& tags_linked(
                    self.library.catalog.categories,
                    self.library.catalog.tags,
                    self.library.catalog.tag_seq,
                )
                &&& self.library.references_hold()
            },
        }
    }

    /// What holds once the tags form trees.
    pub open spec fn planted(self) -> bool {
        &&& self.legacy is None
        &&& self.wf()
        &&& self.library.catalog.wf()
    }
}

/// The tables once the tags form trees, or why they do not.
pub open spec fn legacy_stage(t: TablesModel) -> Result<TablesModel, ErrorModel> {
    match t.legacy {
        None => Ok(t),
        Some(old_tags) => match legacy_catalog(old_tags.categories, old_tags.tags) {
            Err(e) => Err(e),
            Ok(c) => {
                let l = with_catalog(t.library, c);
                if l.references_hold() {
                    Ok(TablesModel { legacy: None, library: l, ..t })
                } else {
                    Err(Failure::Rule(Rule::DanglingReference))
                }
            },
        },
    }
}

/// The tables once the music carry the tags that their texts name, or why they do not.
pub open spec fn music_stage(t: TablesModel, now: i64) -> Result<TablesModel, ErrorModel> {
    match t.music_texts {
        None => Ok(t),
        Some(rows) => {
            let s = texts_migrated(t.library.catalog, t.library.music_tags, rows, now);
            match s.error {
                Some(e) => Err(e),
                None => Ok(
                    TablesModel {
                        music_texts: None,
                        library: LibraryModel {
                            catalog: s.catalog,
                            music_tags: s.links,
                            ..t.library
                        },
                        ..t
                    },
                ),
            }
        },
    }
}

/// The tables once the clips carry the tags that their texts name, or why they do not.
pub open spec fn clip_stage(t: TablesModel, now: i64) -> Result<TablesModel, ErrorModel> {
    match t.clip_texts {
        None => Ok(t),
        Some(rows) => {
            let s = texts_migrated(t.library.catalog, t.library.clip_tags, rows, now);
            match s.error {
                Some(e) => Err(e),
                None => Ok(
                    TablesModel {
                        clip_texts: None,
                        library: LibraryModel {
                            catalog: s.catalog,
                            clip_tags: s.links,
                            ..t.library
                        },
                        ..t
                    },
                ),
            }
        },
    }
}

/// The music with the sources of their albums settled.
pub open spec fn sources_settled(music: Seq<MusicModel>) -> Seq<MusicModel> {
    music.map_values(|m: MusicModel| MusicModel { album_source: source_now(m), ..m })
}

/// The tables with the sources of albums settled.
pub open spec fn source_stage(t: TablesModel) -> TablesModel {
    TablesModel {
        library: LibraryModel { music: sources_settled(t.library.music), ..t.library },
        ..t
    }
}

/// The tables with the standard tags, and under the present schema where all are there.
pub open spec fn seed_stage(t: TablesModel, now: i64) -> (TablesModel, Option<ErrorModel>) {
    let (c, error) = seeded(t.library.catalog, now);
    let schema = match error {
        None => Some("3"@),
        Some(_) => t.schema,
    };
    (TablesModel { schema, library: with_catalog(t.library, c), ..t }, error)
}

/// The tables brought up to the present schema, stage by stage; where one is refused,
/// those before it stay done.
pub open spec fn migrated(t: TablesModel, now: i64) -> (TablesModel, Option<ErrorModel>) {
    match schema_result(t.schema) {
        Err(e) => (t, Some(e)),
        Ok(_) => match legacy_stage(t) {
            Err(e) => (t, Some(e)),
            Ok(a) => if !siblings_unique(a.library.catalog.tags) {
                (a, Some(Failure::Write(Step::IndexTags, Constraint::Unique(Key::TagPlace))))
            } else {
                match music_stage(a, now) {
                    Err(e) => (a, Some(e)),
                    Ok(b) => match clip_stage(b, now) {
                        Err(e) => (b, Some(e)),
                        Ok(c) => {
                            let d = source_stage(c);
                            if !paths_distinct(d.library.music) {
                                (
                                    d,
                                    Some(
                                        Failure::Write(
                                            Step::IndexPaths,
                                            Constraint::Unique(Key::MusicPath),
                                        ),
                                    ),
                                )
                            } else {
                                seed_stage(d, now)
                            }
                        },
                    },
                }
            },
        },
    }
}

pub proof fn lemma_music_stage(t: TablesModel, now: i64)
    requires
        t.planted(),
        music_stage(t, now) is Ok,
    ensures
        (music_stage(t, now)->Ok_0).planted(),
{
    if let Some(rows) = t.music_texts {
        let r = music_stage(t, now)->Ok_0;
        let c = t.library.catalog;
        let s = texts_migrated(c, t.library.music_tags, rows, now);
        lemma_texts_migrated(c, t.library.music_tags, rows, now);
        assert forall|i: int| 0 <= i < s.links.len() implies has_music(
            t.library.music,
            (#[trigger] s.links[i]).owner,
        ) by {
            let k = s.links[i];
            if is_owner(rows, k.owner) {
                let x = choose|x: int| 0 <= x < rows.len() && (#[trigger] rows[x]).owner == k.owner;
                assert(has_music(t.library.music, rows[x].owner));
            } else {
                let x = choose|x: int|
                    0 <= x < t.library.music_tags.len() && t.library.music_tags[x] == k;
                assert(has_music(t.library.music, t.library.music_tags[x].owner));
            }
        }
        assert(music_owners(r.library.music, r.library.music_tags));
        assert(targets_exist(r.library.catalog.tags, r.library.clip_tags));
        assert(targets_exist(r.library.catalog.tags, r.library.album_tags));
    }
}

pub proof fn lemma_clip_stage(t: TablesModel, now: i64)
    requires
        t.planted(),
        clip_stage(t, now) is Ok,
    ensures
        (clip_stage(t, now)->Ok_0).planted(),
{
    if let Some(rows) = t.clip_texts {
        let r = clip_stage(t, now)->Ok_0;
        let c = t.library.catalog;
        let s = texts_migrated(c, t.library.clip_tags, rows, now);
        lemma_texts_migrated(c, t.library.clip_tags, rows, now);
        assert forall|i: int| 0 <= i < s.links.len() implies has_clip(
            t.library.clips,
            (#[trigger] s.links[i]).owner,
        ) by {
            let k = s.links[i];
            if is_owner(rows, k.owner) {
                let x = choose|x: int| 0 <= x < rows.len() && (#[trigger] rows[x]).owner == k.owner;
                assert(has_clip(t.library.clips, rows[x].owner));
            } else {
                let x = choose|x: int|
                    0 <= x < t.library.clip_tags.len() && t.library.clip_tags[x] == k;
                assert(has_clip(t.library.clips, t.library.clip_tags[x].owner));
            }
        }
        assert(clip_owners(r.library.clips, r.library.clip_tags));
        assert(targets_exist(r.library.catalog.tags, r.library.music_tags));
        assert(targets_exist(r.library.catalog.tags, r.library.album_tags));
    }
}

pub proof fn lemma_source_stage(t: TablesModel)
    requires
        t.planted(),
    ensures
        source_stage(t).planted(),
{
    let r = source_stage(t);
    let (a, b) = (t.library.music, r.library.music);
    assert forall|id: Seq<char>| #[trigger] has_music(a, id) implies has_music(b, id) by {
        let i = choose|i: int| 0 <= i < a.len() && #[trigger] a[i].id == id;
        assert(b[i].id == id);
    }
    assert forall|i: int, j: int| 0 <= i < j < b.len() implies (#[trigger] b[i]).id != (
    #[trigger] b[j]).id by {
        assert(a[i].id != a[j].id);
    }
    assert forall|i: int| 0 <= i < b.len() implies (#[trigger] b[i]).file_size <= i64::MAX by {
        assert(a[i].file_size <= i64::MAX);
    }
    assert forall|i: int| 0 <= i < t.library.clips.len() implies has_music(
        b,
        (#[trigger] r.library.clips[i]).music_id,
    ) by {
        assert(has_music(a, t.library.clips[i].music_id));
    }
    assert forall|i: int| 0 <= i < r.library.music_tags.len() implies has_music(
        b,
        (#[trigger] r.library.music_tags[i]).owner,
    ) by {
        assert(has_music(a, t.library.music_tags[i].owner));
    }
    if let Some(rows) = t.music_texts {
        assert forall|i: int| 0 <= i < rows.len() implies has_music(
            b,
            (#[trigger] rows[i]).owner,
        ) by {
            assert(has_music(a, rows[i].owner));
        }
    }
}

/// What the stages lead to: tables in order.
pub proof fn lemma_migrated(t: TablesModel, now: i64)
    requires
        t.wf(),
    ensures
        migrated(t, now).1 is None ==> migrated(t, now).0.library.wf(),
        legacy_stage(t) is Ok && siblings_unique((legacy_stage(t)->Ok_0).library.catalog.tags) ==> (
        legacy_stage(t)->Ok_0).planted(),
{
    if let Ok(a) = legacy_stage(t) {
        if let Some(old_tags) = t.legacy {
            crate::legacy::law_legacy_tags_keep_their_identity(
                old_tags.categories,
                old_tags.tags,
            );
        }
        if siblings_unique(a.library.catalog.tags) {
            assert(a.planted());
            if let Ok(b) = music_stage(a, now) {
                lemma_music_stage(a, now);
                if let Ok(c) = clip_stage(b, now) {
                    lemma_clip_stage(b, now);
                    lemma_source_stage(c);
                    let d = source_stage(c);
                    let (cat, e) = seeded(d.library.catalog, now);
                    lemma_seeded(d.library.catalog, now);
                    let l = with_catalog(d.library, cat);
                    assert(targets_exist(cat.tags, l.music_tags));
                    assert(targets_exist(cat.tags, l.clip_tags));
                    assert(targets_exist(cat.tags, l.album_tags));
                    lemma_library_wf(l);
                }
            }
        }
    }
}

/// Once the tables are under the present schema, to migrate them again changes nothing.
pub proof fn law_migration_is_done_once(t: TablesModel, now: i64, later: i64)
    requires
        t.wf(),
        migrated(t, now).1 is None,
    ensures
        migrated(t, now).0.wf(),
        migrated(migrated(t, now).0, later) == (migrated(t, now).0, None::<ErrorModel>),
{
    let r = migrated(t, now).0;
    lemma_migrated(t, now);
    lemma_library_wf(r.library);
    let a = legacy_stage(t)->Ok_0;
    let b = music_stage(a, now)->Ok_0;
    let c = clip_stage(b, now)->Ok_0;
    let d = source_stage(c);
    lemma_music_stage(a, now);
    lemma_clip_stage(b, now);
    lemma_source_stage(c);
    law_seeding_is_done_once(d.library.catalog, now, later);
    reveal_strlit("folder");
    reveal_strlit("legacy");
    assert("folder"@[0] != "legacy"@[0]);
    assert(sources_settled(r.library.music) =~= r.library.music) by {
        assert forall|i: int| 0 <= i < r.library.music.len() implies sources_settled(
            r.library.music,
        )[i] == r.library.music[i] by {
            let m = c.library.music[i];
            assert(r.library.music[i] == (MusicModel { album_source: source_now(m), ..m }));
        }
    }
    reveal_strlit("3");
    assert(schema_result(Some("3"@)) is Ok) by {
        let s = "3"@;
        assert(s.len() == 1 && s[0] == '3');
        assert(s.drop_last() =~= Seq::empty());
        assert(crate::schema::digits_value(s.drop_last()) == Some(0int));
        assert(crate::schema::digits_value(s) == Some(3int));
        assert(crate::schema::unsigned(s) == s);
    }
    assert(r.library == source_stage(r).library);
}

/// A database that was written with a later schema is left as it is.
pub proof fn law_newer_schema_is_refused(t: TablesModel, now: i64)
    requires
        crate::schema::recorded_schema(t.schema) > crate::schema::SCHEMA_VERSION,
    ensures
        migrated(t, now) == (
            t,
            Some::<ErrorModel>(Failure::NewerSchema(crate::schema::recorded_schema(t.schema))),
        ),
{
}

/// Where no text is left to migrate and the tags form trees already, every tag, with its
/// name and its place, and all that carry it, are as they were.
pub proof fn law_present_tags_are_left_alone(t: TablesModel, now: i64)
    requires
        t.planted(),
        t.music_texts is None,
        t.clip_texts is None,
        t.library.catalog.tags.len() > 0,
        migrated(t, now).1 is None,
    ensures
        migrated(t, now).0.library.catalog == t.library.catalog,
        migrated(t, now).0.library.music_tags == t.library.music_tags,
        migrated(t, now).0.library.clip_tags == t.library.clip_tags,
        migrated(t, now).0.library.album_tags == t.library.album_tags,
{
}

/// Settles the sources of albums.
fn settle_sources(library: &mut Library)
    ensures
        final(library)@ == (LibraryModel {
            music: sources_settled(old(library)@.music),
            ..old(library)@
        }),
{
    let ghost after = sources_settled(library@.music);
    let ghost before = library@;
    let mut i: usize = 0;
    while i < library.music.len()
        invariant
            i <= library.music@.len(),
            before == old(library)@,
            after == sources_settled(before.music),
            library@ == (LibraryModel { music: library@.music, ..before }),
            library@.music.len() == before.music.len(),
            forall|j: int| 0 <= j < i ==> #[trigger] library@.music[j] == after[j],
            forall|j: int|
                i <= j < before.music.len() ==> #[trigger] library@.music[j] == before.music[j],
        decreases library.music@.len() - i,
    {
        proof {
            assert(library@.music[i as int] == before.music[i as int]);
        }
        if same_text(library.music[i].album_source.as_str(), "legacy")
            || library.music[i].album_source.as_str().is_empty() {
            let mut row = library.music[i].clone();
            row.album_source = "folder".to_string();
            let ghost m = library@.music;
            library.music.set(i, row);
            proof {
                assert(library@.music =~= m.update(i as int, row@));
                assert(row@ == after[i as int]);
            }
        }
        i = i + 1;
    }
    proof {
        assert(library@.music =~= after);
    }
}

impl Tables {
    /// Makes trees of the tags that an earlier schema kept.
    fn plant(&mut self) -> (r: Result<(), LibraryError>)
        requires
            old(self)@.wf(),
        ensures
            match legacy_stage(old(self)@) {
                Ok(t) => r is Ok && final(self)@ == t,
                Err(e) => outcome(r) == Err::<(), ErrorModel>(e) && final(self)@ == old(self)@,
            },
    {
        let catalog = match &self.legacy {
            None => {
                return Ok(());
            },
            Some(t) => match migrate_legacy_tag_tree(&t.categories, &t.tags) {
                Err(e) => {
                    return Err(e);
                },
                Ok(c) => c,
            },
        };
        let ghost before = self@;
        let mut old_catalog = catalog;
        std::mem::swap(&mut old_catalog, &mut self.library.catalog);
        if !self.library.references_are_there() {
            std::mem::swap(&mut old_catalog, &mut self.library.catalog);
            return Err(Failure::Rule(Rule::DanglingReference));
        }
        self.legacy = None;
        Ok(())
    }

    /// Brings the tables up to the present schema. Where a stage is refused, those
    /// before it stay done.
    pub fn migrate(&mut self, now: i64) -> (r: Result<(), LibraryError>)
        requires
            old(self)@.wf(),
        ensures
            final(self)@ == migrated(old(self)@, now).0,
            outcome(r) == match migrated(old(self)@, now).1 {
                None => Ok::<(), ErrorModel>(()),
                Some(e) => Err(e),
            },
            r is Ok ==> final(self)@.library.wf(),
    {
        let ghost start = self@;
        proof {
            lemma_migrated(start, now);
        }
        let recorded = match &self.schema {
            Some(s) => Some(s.as_str()),
            None => None,
        };
        match check_schema(recorded) {
            Err(e) => {
                return Err(e);
            },
            Ok(_) => {},
        }
        match self.plant() {
            Err(e) => {
                return Err(e);
            },
            Ok(_) => {},
        }
        let ghost a = self@;
        if !places_distinct(&self.library.catalog.tags) {
            return Err(Failure::Write(Step::IndexTags, Constraint::Unique(Key::TagPlace)));
        }
        match &self.music_texts {
            None => {},
            Some(rows) => {
                let mut catalog = self.library.catalog.clone();
                let mut links = crate::library::copy_links(&self.library.music_tags);
                match migrate_json_tags(&mut catalog, &mut links, rows, now) {
                    Err(e) => {
                        return Err(e);
                    },
                    Ok(_) => {},
                }
                self.library.catalog = catalog;
                self.library.music_tags = links;
                self.music_texts = None;
            },
        }
        let ghost b = self@;
        proof {
            assert(music_stage(a, now) == Ok::<TablesModel, ErrorModel>(b));
            lemma_music_stage(a, now);
        }
        match &self.clip_texts {
            None => {},
            Some(rows) => {
                let mut catalog = self.library.catalog.clone();
                let mut links = crate::library::copy_links(&self.library.clip_tags);
                match migrate_json_tags(&mut catalog, &mut links, rows, now) {
                    Err(e) => {
                        return Err(e);
                    },
                    Ok(_) => {},
                }
                self.library.catalog = catalog;
                self.library.clip_tags = links;
                self.clip_texts = None;
            },
        }
        let ghost c = self@;
        proof {
            assert(clip_stage(b, now) == Ok::<TablesModel, ErrorModel>(c));
            lemma_clip_stage(b, now);
            lemma_source_stage(c);
        }
        settle_sources(&mut self.library);
        proof {
            assert(self@ == source_stage(c));
        }
        if !self.library.paths_are_distinct() {
            return Err(Failure::Write(Step::IndexPaths, Constraint::Unique(Key::MusicPath)));
        }
        match self.library.catalog.seed_standard_tags(now) {
            Err(e) => {
                return Err(e);
            },
            Ok(_) => {},
        }
        self.schema = Some("3".to_string());
        Ok(())
    }
}

} // verus!

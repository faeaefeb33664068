//! Read-only store of the projection authority.
//!
//! Every artifact becomes a result of its own, so that an invalid TOML never
//! hides the independent snapshots beside it. Snapshots and recipes are kept
//! in the order of their identifiers; failures are kept in the order of their
//! paths. Reading the directories is the caller's part: the store receives,
//! for each entry, what reading it gave.
use crate::nav_projection_recipe::{
    lib_view, lemma_insert_increasing, recipe_spec, recipe_text, recipe_view, slot, RecipeView, Recipe,
    RECIPES_DIR,
};
use crate::nav_projection_snapshot::message::{failure_text, lemma_failure_text};
use crate::nav_projection_snapshot::parser::parse_spec;
use crate::nav_projection_snapshot::render::render_text;
use crate::nav_projection_snapshot::report::{one_line, one_line_exec};
use crate::nav_projection_snapshot::{
    failure_view, snapshot_view, HarnessFailure, ProjectionSnapshot, SnapshotView, SNAPSHOTS_DIR,
};
use crate::text::{chars_of, push_str_chars, rows, seq_lt, string_from};
use vstd::prelude::*;
use vstd::utf8::encode_utf8;

verus! {

/// What an artifact of the authority is.
#[derive(Debug, Clone, Copy, PartialEq, Eq, Structural)]
pub enum ArtifactKind {
    Snapshot,
    Recipe,
    Unknown,
}

pub open spec fn kind_name(k: ArtifactKind) -> Seq<char> {
    match k {
        ArtifactKind::Snapshot => "snapshot"@,
        ArtifactKind::Recipe => "recipe"@,
        ArtifactKind::Unknown => "unknown"@,
    }
}

impl ArtifactKind {
    pub fn as_str(self) -> (s: &'static str)
        ensures
            s@ == kind_name(self),
    {
        match self {
            ArtifactKind::Snapshot => "snapshot",
            ArtifactKind::Recipe => "recipe",
            ArtifactKind::Unknown => "unknown",
        }
    }
}

/// A structural failure of one artifact, isolated from the others.
#[derive(Debug, Clone, PartialEq, Eq)]
pub struct ArtifactError {
    pub path: String,
    pub kind: ArtifactKind,
    pub message: String,
}

#[derive(Debug, Clone, PartialEq, Eq)]
pub struct StoredSnapshot {
    pub path: String,
    pub snapshot: ProjectionSnapshot,
    pub bytes: Vec<u8>,
    pub canonical: bool,
}

#[derive(Debug, Clone, PartialEq, Eq)]
pub struct StoredRecipe {
    pub path: String,
    pub recipe: Recipe,
    pub bytes: Vec<u8>,
    pub canonical: bool,
}

/// The authority itself could not be read.
#[derive(Debug, Clone, PartialEq, Eq)]
pub enum StoreFailure {
    AuthorityIo { path: String, msg: String },
}

impl StoreFailure {
    /// The diagnostic text of the failure.
    pub fn message(&self) -> (s: String)
        ensures
            match self {
                StoreFailure::AuthorityIo { path, msg } => s@ == "autoridade de projeções ilegível em '"@
                    + path@ + "': "@ + msg@,
            },
    {
        let mut out: Vec<char> = Vec::new();
        match self {
            StoreFailure::AuthorityIo { path, msg } => {
                push_str_chars(&mut out, "autoridade de projeções ilegível em '");
                push_str_chars(&mut out, path.as_str());
                push_str_chars(&mut out, "': ");
                push_str_chars(&mut out, msg.as_str());
            },
        }
        string_from(&out)
    }
}

/// What reading one entry of an authority directory gave.
#[derive(Debug, Clone, PartialEq, Eq)]
pub enum ArtifactSource {
    /// The recipes directory, met while listing the snapshots.
    RecipesDir,
    /// Not a `.toml` file.
    NotToml,
    /// The file name is not UTF-8.
    NameNotUtf8,
    /// Reading failed, with the system's message.
    ReadFailed(String),
    /// The content is not UTF-8, with the decoder's message.
    ContentNotUtf8(String),
    /// A `.toml` file read in full: the stem of its name, its bytes, its text.
    Text { stem: String, bytes: Vec<u8>, text: String },
}

pub struct ArtifactErrorView {
    pub path: Seq<char>,
    pub kind: ArtifactKind,
    pub message: Seq<char>,
}

pub open spec fn artifact_error_view(e: ArtifactError) -> ArtifactErrorView {
    ArtifactErrorView { path: e.path@, kind: e.kind, message: e.message@ }
}

pub open spec fn errors_view(es: Seq<ArtifactError>) -> Seq<ArtifactErrorView> {
    es.map_values(|e: ArtifactError| artifact_error_view(e))
}

pub struct StoredSnapshotView {
    pub path: Seq<char>,
    pub snapshot: SnapshotView,
    pub bytes: Seq<u8>,
    pub canonical: bool,
}

pub struct StoredRecipeView {
    pub path: Seq<char>,
    pub recipe: RecipeView,
    pub bytes: Seq<u8>,
    pub canonical: bool,
}

pub open spec fn stored_snapshot_view(s: StoredSnapshot) -> StoredSnapshotView {
    StoredSnapshotView { path: s.path@, snapshot: snapshot_view(s.snapshot), bytes: s.bytes@, canonical: s.canonical }
}

pub open spec fn stored_recipe_view(s: StoredRecipe) -> StoredRecipeView {
    StoredRecipeView { path: s.path@, recipe: recipe_view(s.recipe), bytes: s.bytes@, canonical: s.canonical }
}

/// What one entry yields.
pub enum Loaded<T> {
    Skip,
    Error(ArtifactErrorView),
    Stored(T),
}

pub open spec fn id_mismatch(id: Seq<char>, stem: Seq<char>) -> Seq<char> {
    "id interno '"@ + id + "' não corresponde ao nome do arquivo '"@ + stem + "'"@
}

pub open spec fn snapshot_loaded(path: Seq<char>, src: ArtifactSource) -> Loaded<StoredSnapshotView> {
    let kind = ArtifactKind::Snapshot;
    match src {
        ArtifactSource::RecipesDir => Loaded::Skip,
        ArtifactSource::NotToml => Loaded::Error(
            ArtifactErrorView {
                path,
                kind: ArtifactKind::Unknown,
                message: "entrada não reconhecida; esperado arquivo .toml de snapshot"@,
            },
        ),
        ArtifactSource::NameNotUtf8 => Loaded::Error(
            ArtifactErrorView { path, kind, message: "nome de arquivo não é UTF-8"@ },
        ),
        ArtifactSource::ReadFailed(m) => Loaded::Error(ArtifactErrorView { path, kind, message: m@ }),
        ArtifactSource::ContentNotUtf8(m) => Loaded::Error(
            ArtifactErrorView { path, kind, message: "conteúdo não é UTF-8: "@ + m@ },
        ),
        ArtifactSource::Text { stem, bytes, text } => match parse_spec(text@) {
            Err(f) => Loaded::Error(ArtifactErrorView { path, kind, message: one_line(failure_text(f)) }),
            Ok(v) => if v.id != stem@ {
                Loaded::Error(ArtifactErrorView { path, kind, message: id_mismatch(v.id, stem@) })
            } else {
                Loaded::Stored(
                    StoredSnapshotView {
                        path,
                        snapshot: v,
                        bytes: bytes@,
                        canonical: encode_utf8(render_text(v)) == bytes@,
                    },
                )
            },
        },
    }
}

pub open spec fn recipe_loaded(path: Seq<char>, src: ArtifactSource) -> Loaded<StoredRecipeView> {
    let kind = ArtifactKind::Recipe;
    match src {
        ArtifactSource::RecipesDir | ArtifactSource::NotToml => Loaded::Error(
            ArtifactErrorView {
                path,
                kind: ArtifactKind::Unknown,
                message: "entrada não reconhecida; esperado arquivo .toml de recipe"@,
            },
        ),
        ArtifactSource::NameNotUtf8 => Loaded::Error(
            ArtifactErrorView { path, kind, message: "nome de arquivo não é UTF-8"@ },
        ),
        ArtifactSource::ReadFailed(m) => Loaded::Error(ArtifactErrorView { path, kind, message: m@ }),
        ArtifactSource::ContentNotUtf8(m) => Loaded::Error(
            ArtifactErrorView { path, kind, message: "conteúdo não é UTF-8: "@ + m@ },
        ),
        ArtifactSource::Text { stem, bytes, text } => match recipe_spec(text@) {
            Err(f) => Loaded::Error(ArtifactErrorView { path, kind, message: one_line(failure_text(f)) }),
            Ok(v) => if v.id != stem@ {
                Loaded::Error(ArtifactErrorView { path, kind, message: id_mismatch(v.id, stem@) })
            } else {
                Loaded::Stored(
                    StoredRecipeView {
                        path,
                        recipe: v,
                        bytes: bytes@,
                        canonical: encode_utf8(recipe_text(v)) == bytes@,
                    },
                )
            },
        },
    }
}

enum Entry<T> {
    Skip,
    Error(ArtifactError),
    Stored(T),
}

fn owned(v: &str) -> (s: String)
    ensures
        s@ == v@,
{
    string_from(chars_of(v).as_slice())
}

fn bytes_eq(a: &[u8], b: &[u8]) -> (r: bool)
    ensures
        r == (a@ == b@),
{
    if a.len() != b.len() {
        return false;
    }
    let mut i: usize = 0;
    while i < a.len()
        invariant
            i <= a@.len(),
            a@.len() == b@.len(),
            forall|k: int| 0 <= k < i ==> a@[k] == b@[k],
        decreases a.len() - i,
    {
        if a[i] != b[i] {
            return false;
        }
        i = i + 1;
    }
    assert(a@ =~= b@);
    true
}

fn mismatch_text(id: &str, stem: &str) -> (s: String)
    ensures
        s@ == id_mismatch(id@, stem@),
{
    let mut out: Vec<char> = Vec::new();
    push_str_chars(&mut out, "id interno '");
    push_str_chars(&mut out, id);
    push_str_chars(&mut out, "' não corresponde ao nome do arquivo '");
    push_str_chars(&mut out, stem);
    push_str_chars(&mut out, "'");
    string_from(&out)
}

fn not_utf8_text(m: &str) -> (s: String)
    ensures
        s@ == "conteúdo não é UTF-8: "@ + m@,
{
    let mut out: Vec<char> = Vec::new();
    push_str_chars(&mut out, "conteúdo não é UTF-8: ");
    push_str_chars(&mut out, m);
    string_from(&out)
}

fn failure_line(f: &HarnessFailure) -> (s: String)
    ensures
        s@ == one_line(failure_text(failure_view(*f))),
{
    proof {
        lemma_failure_text(*f);
    }
    one_line_exec(&f.message())
}

fn load_snapshot(path: String, src: ArtifactSource) -> (r: Entry<StoredSnapshot>)
    ensures
        match snapshot_loaded(path@, src) {
            Loaded::Skip => r is Skip,
            Loaded::Error(e) => r matches Entry::Error(x) && artifact_error_view(x) == e,
            Loaded::Stored(v) => r matches Entry::Stored(x) && stored_snapshot_view(x) == v,
        },
{
    let kind = ArtifactKind::Snapshot;
    match src {
        ArtifactSource::RecipesDir => Entry::Skip,
        ArtifactSource::NotToml => Entry::Error(
            ArtifactError {
                path,
                kind: ArtifactKind::Unknown,
                message: owned("entrada não reconhecida; esperado arquivo .toml de snapshot"),
            },
        ),
        ArtifactSource::NameNotUtf8 => Entry::Error(
            ArtifactError { path, kind, message: owned("nome de arquivo não é UTF-8") },
        ),
        ArtifactSource::ReadFailed(m) => Entry::Error(ArtifactError { path, kind, message: m }),
        ArtifactSource::ContentNotUtf8(m) => Entry::Error(
            ArtifactError { path, kind, message: not_utf8_text(m.as_str()) },
        ),
        ArtifactSource::Text { stem, bytes, text } => match crate::nav_projection_snapshot::parse(text.as_str()) {
            Err(f) => Entry::Error(ArtifactError { path, kind, message: failure_line(&f) }),
            Ok(snapshot) => {
                if !crate::text::str_eq(snapshot.id.as_str(), stem.as_str()) {
                    let message = mismatch_text(snapshot.id.as_str(), stem.as_str());
                    Entry::Error(ArtifactError { path, kind, message })
                } else {
                    let rendered = crate::nav_projection_snapshot::render(&snapshot);
                    let canonical = bytes_eq(rendered.as_str().as_bytes(), bytes.as_slice());
                    Entry::Stored(StoredSnapshot { path, snapshot, bytes, canonical })
                }
            },
        },
    }
}

fn load_recipe(path: String, src: ArtifactSource) -> (r: Entry<StoredRecipe>)
    ensures
        match recipe_loaded(path@, src) {
            Loaded::Skip => r is Skip,
            Loaded::Error(e) => r matches Entry::Error(x) && artifact_error_view(x) == e,
            Loaded::Stored(v) => r matches Entry::Stored(x) && stored_recipe_view(x) == v,
        },
{
    let kind = ArtifactKind::Recipe;
    match src {
        ArtifactSource::RecipesDir => Entry::Error(
            ArtifactError {
                path,
                kind: ArtifactKind::Unknown,
                message: owned("entrada não reconhecida; esperado arquivo .toml de recipe"),
            },
        ),
        ArtifactSource::NotToml => Entry::Error(
            ArtifactError {
                path,
                kind: ArtifactKind::Unknown,
                message: owned("entrada não reconhecida; esperado arquivo .toml de recipe"),
            },
        ),
        ArtifactSource::NameNotUtf8 => Entry::Error(
            ArtifactError { path, kind, message: owned("nome de arquivo não é UTF-8") },
        ),
        ArtifactSource::ReadFailed(m) => Entry::Error(ArtifactError { path, kind, message: m }),
        ArtifactSource::ContentNotUtf8(m) => Entry::Error(
            ArtifactError { path, kind, message: not_utf8_text(m.as_str()) },
        ),
        ArtifactSource::Text { stem, bytes, text } => match crate::nav_projection_recipe::parse_recipe(
            text.as_str(),
        ) {
            Err(f) => Entry::Error(ArtifactError { path, kind, message: failure_line(&f) }),
            Ok(recipe) => {
                if !crate::text::str_eq(recipe.id.as_str(), stem.as_str()) {
                    let message = mismatch_text(recipe.id.as_str(), stem.as_str());
                    Entry::Error(ArtifactError { path, kind, message })
                } else {
                    let rendered = crate::nav_projection_recipe::render_recipe(&recipe);
                    let canonical = bytes_eq(rendered.as_str().as_bytes(), bytes.as_slice());
                    Entry::Stored(StoredRecipe { path, recipe, bytes, canonical })
                }
            },
        },
    }
}

/// The first position, from `i` on, whose identifier is not below `x`.
pub open spec fn first_not_below(ids: Seq<Seq<char>>, x: Seq<char>, i: int) -> int
    decreases ids.len() - i,
{
    if i < 0 || i >= ids.len() {
        ids.len() as int
    } else if !seq_lt(ids[i], x) {
        i
    } else {
        first_not_below(ids, x, i + 1)
    }
}

/// `x` put in a sequence kept in the order of its identifiers: it replaces
/// the element with its identifier, or goes where the order puts it.
pub open spec fn put<T>(s: Seq<T>, id: spec_fn(T) -> Seq<char>, x: T) -> Seq<T> {
    let k = first_not_below(s.map_values(id), id(x), 0);
    if k < s.len() && id(s[k]) == id(x) {
        s.update(k, x)
    } else {
        s.insert(k, x)
    }
}

pub open spec fn snapshot_id_of() -> spec_fn(StoredSnapshotView) -> Seq<char> {
    |v: StoredSnapshotView| v.snapshot.id
}

pub open spec fn recipe_id_of() -> spec_fn(StoredRecipeView) -> Seq<char> {
    |v: StoredRecipeView| v.recipe.id
}

/// The first position, from `i` on, whose path is above `x`.
pub open spec fn first_above(s: Seq<ArtifactErrorView>, x: Seq<char>, i: int) -> int
    decreases s.len() - i,
{
    if i < 0 || i >= s.len() {
        s.len() as int
    } else if seq_lt(x, s[i].path) {
        i
    } else {
        first_above(s, x, i + 1)
    }
}

/// The failures in the order of their paths; failures with the same path
/// keep their order.
pub open spec fn errors_by_path(s: Seq<ArtifactErrorView>) -> Seq<ArtifactErrorView>
    decreases s.len(),
{
    if s.len() == 0 {
        s
    } else {
        let sorted = errors_by_path(s.drop_last());
        sorted.insert(first_above(sorted, s.last().path, 0), s.last())
    }
}

/// The library that the valid artifacts of a store make: the same sequences,
/// in the order of their identifiers.
pub open spec fn store_library(st: StoreView) -> crate::nav_projection_recipe::LibView {
    crate::nav_projection_recipe::LibView {
        snapshots: st.snapshots.map_values(|v: StoredSnapshotView| v.snapshot),
        recipes: st.recipes.map_values(|v: StoredRecipeView| v.recipe),
    }
}

pub struct StoreView {
    pub snapshots: Seq<StoredSnapshotView>,
    pub recipes: Seq<StoredRecipeView>,
    pub errors: Seq<ArtifactErrorView>,
}

#[verifier::opaque]
pub open spec fn recipe_step(prev: StoreView, e: (String, ArtifactSource)) -> StoreView {
    match recipe_loaded(e.0@, e.1) {
        Loaded::Skip => prev,
        Loaded::Error(x) => StoreView { errors: prev.errors.push(x), ..prev },
        Loaded::Stored(v) => StoreView { recipes: put(prev.recipes, recipe_id_of(), v), ..prev },
    }
}

#[verifier::opaque]
pub open spec fn snapshot_step(prev: StoreView, e: (String, ArtifactSource)) -> StoreView {
    match snapshot_loaded(e.0@, e.1) {
        Loaded::Skip => prev,
        Loaded::Error(x) => StoreView { errors: prev.errors.push(x), ..prev },
        Loaded::Stored(v) => StoreView { snapshots: put(prev.snapshots, snapshot_id_of(), v), ..prev },
    }
}

pub open spec fn after_recipes(st: StoreView, es: Seq<(String, ArtifactSource)>) -> StoreView
    decreases es.len(),
{
    if es.len() == 0 {
        st
    } else {
        recipe_step(after_recipes(st, es.drop_last()), es.last())
    }
}

pub open spec fn after_snapshots(st: StoreView, es: Seq<(String, ArtifactSource)>) -> StoreView
    decreases es.len(),
{
    if es.len() == 0 {
        st
    } else {
        snapshot_step(after_snapshots(st, es.drop_last()), es.last())
    }
}

/// The store the entries of the two directories give: the recipes first,
/// then the snapshots, then the failures in the order of their paths.
pub open spec fn store_of(snapshot_entries: Seq<(String, ArtifactSource)>, recipe_entries: Seq<(String, ArtifactSource)>) -> StoreView {
    let empty = StoreView { snapshots: Seq::empty(), recipes: Seq::empty(), errors: Seq::empty() };
    let st = after_snapshots(after_recipes(empty, recipe_entries), snapshot_entries);
    StoreView { errors: errors_by_path(st.errors), ..st }
}

/// The read-only store of the projection authority.
#[derive(Debug, Clone)]
pub struct ProjectionStore {
    snapshots: Vec<StoredSnapshot>,
    recipes: Vec<StoredRecipe>,
    errors: Vec<ArtifactError>,
}

pub open spec fn stored_snapshots_view(v: Seq<StoredSnapshot>) -> Seq<StoredSnapshotView> {
    v.map_values(|s: StoredSnapshot| stored_snapshot_view(s))
}

pub open spec fn stored_recipes_view(v: Seq<StoredRecipe>) -> Seq<StoredRecipeView> {
    v.map_values(|s: StoredRecipe| stored_recipe_view(s))
}

impl ProjectionStore {
    pub closed spec fn view_of(self) -> StoreView {
        StoreView {
            snapshots: stored_snapshots_view(self.snapshots@),
            recipes: stored_recipes_view(self.recipes@),
            errors: errors_view(self.errors@),
        }
    }
}

pub(crate) proof fn lemma_first_not_below(ids: Seq<Seq<char>>, x: Seq<char>, k: int, i: int)
    requires
        0 <= i <= k <= ids.len(),
        forall|j: int| 0 <= j < k ==> seq_lt(#[trigger] ids[j], x),
        k < ids.len() ==> !seq_lt(ids[k], x),
    ensures
        first_not_below(ids, x, i) == k,
    decreases k - i,
{
    if i < k {
        lemma_first_not_below(ids, x, k, i + 1);
    }
}

proof fn lemma_first_not_below_props(ids: Seq<Seq<char>>, x: Seq<char>, i: int)
    requires
        0 <= i <= ids.len(),
    ensures
        i <= first_not_below(ids, x, i) <= ids.len(),
        forall|j: int| i <= j < first_not_below(ids, x, i) ==> seq_lt(#[trigger] ids[j], x),
        first_not_below(ids, x, i) < ids.len() ==> !seq_lt(ids[first_not_below(ids, x, i)], x),
    decreases ids.len() - i,
{
    if i < ids.len() && seq_lt(ids[i], x) {
        lemma_first_not_below_props(ids, x, i + 1);
    }
}

/// Putting an element keeps identifiers strictly increasing, and the
/// element's identifier is then present.
pub(crate) proof fn lemma_put_increasing<T>(s: Seq<T>, id: spec_fn(T) -> Seq<char>, x: T)
    requires
        crate::nav_projection_recipe::ids_increasing(s.map_values(id)),
    ensures
        crate::nav_projection_recipe::ids_increasing(put(s, id, x).map_values(id)),
        put(s, id, x).len() >= 1,
{
    let ids = s.map_values(id);
    lemma_first_not_below_props(ids, id(x), 0);
    let k = first_not_below(ids, id(x), 0);
    if k < s.len() && id(s[k]) == id(x) {
        assert(put(s, id, x).map_values(id) =~= ids);
    } else {
        if k < ids.len() {
            crate::text::lemma_seq_lt_total(ids[k], id(x));
        }
        crate::nav_projection_recipe::lemma_insert_increasing(ids, k, id(x));
        assert(put(s, id, x).map_values(id) =~= ids.insert(k, id(x)));
    }
}

fn put_snapshot(v: &mut Vec<StoredSnapshot>, x: StoredSnapshot)
    requires
        crate::nav_projection_recipe::ids_increasing(stored_snapshots_view(old(v)@).map_values(snapshot_id_of())),
    ensures
        crate::nav_projection_recipe::ids_increasing(stored_snapshots_view(final(v)@).map_values(snapshot_id_of())),
        stored_snapshots_view(final(v)@) == put(stored_snapshots_view(old(v)@), snapshot_id_of(), stored_snapshot_view(x)),
{
    let ghost sv = stored_snapshots_view(v@);
    let ghost ids = sv.map_values(snapshot_id_of());
    let mut rs: Vec<Vec<char>> = Vec::new();
    let mut i: usize = 0;
    while i < v.len()
        invariant
            i <= v@.len(),
            sv == stored_snapshots_view(v@),
            ids == sv.map_values(snapshot_id_of()),
            rs@.len() == i,
            forall|j: int| 0 <= j < i ==> #[trigger] rs@[j]@ == ids[j],
        decreases v.len() - i,
    {
        rs.push(chars_of(v[i].snapshot.id.as_str()));
        i = i + 1;
    }
    assert(rows(rs@) =~= ids);
    let xid = chars_of(x.snapshot.id.as_str());
    let k = slot(&rs, &xid);
    proof {
        lemma_first_not_below(ids, xid@, k as int, 0);
    }
    if k < v.len() && crate::text::vec_eq(&rs[k], &xid) {
        v.set(k, x);
        assert(stored_snapshots_view(v@) =~= sv.update(k as int, stored_snapshot_view(x)));
        assert(stored_snapshots_view(v@).map_values(snapshot_id_of()) =~= ids);
    } else {
        proof {
            if k < ids.len() {
                crate::text::lemma_seq_lt_total(ids[k as int], xid@);
            }
            lemma_insert_increasing(ids, k as int, xid@);
        }
        v.insert(k, x);
        assert(stored_snapshots_view(v@) =~= sv.insert(k as int, stored_snapshot_view(x)));
        assert(stored_snapshots_view(v@).map_values(snapshot_id_of()) =~= ids.insert(k as int, xid@));
    }
}

fn put_recipe(v: &mut Vec<StoredRecipe>, x: StoredRecipe)
    requires
        crate::nav_projection_recipe::ids_increasing(stored_recipes_view(old(v)@).map_values(recipe_id_of())),
    ensures
        crate::nav_projection_recipe::ids_increasing(stored_recipes_view(final(v)@).map_values(recipe_id_of())),
        stored_recipes_view(final(v)@) == put(stored_recipes_view(old(v)@), recipe_id_of(), stored_recipe_view(x)),
{
    let ghost sv = stored_recipes_view(v@);
    let ghost ids = sv.map_values(recipe_id_of());
    let mut rs: Vec<Vec<char>> = Vec::new();
    let mut i: usize = 0;
    while i < v.len()
        invariant
            i <= v@.len(),
            sv == stored_recipes_view(v@),
            ids == sv.map_values(recipe_id_of()),
            rs@.len() == i,
            forall|j: int| 0 <= j < i ==> #[trigger] rs@[j]@ == ids[j],
        decreases v.len() - i,
    {
        rs.push(chars_of(v[i].recipe.id.as_str()));
        i = i + 1;
    }
    assert(rows(rs@) =~= ids);
    let xid = chars_of(x.recipe.id.as_str());
    let k = slot(&rs, &xid);
    proof {
        lemma_first_not_below(ids, xid@, k as int, 0);
    }
    if k < v.len() && crate::text::vec_eq(&rs[k], &xid) {
        v.set(k, x);
        assert(stored_recipes_view(v@) =~= sv.update(k as int, stored_recipe_view(x)));
        assert(stored_recipes_view(v@).map_values(recipe_id_of()) =~= ids);
    } else {
        proof {
            if k < ids.len() {
                crate::text::lemma_seq_lt_total(ids[k as int], xid@);
            }
            lemma_insert_increasing(ids, k as int, xid@);
        }
        v.insert(k, x);
        assert(stored_recipes_view(v@) =~= sv.insert(k as int, stored_recipe_view(x)));
        assert(stored_recipes_view(v@).map_values(recipe_id_of()) =~= ids.insert(k as int, xid@));
    }
}

fn sort_errors(v: Vec<ArtifactError>) -> (r: Vec<ArtifactError>)
    ensures
        errors_view(r@) == errors_by_path(errors_view(v@)),
{
    let ghost all = errors_view(v@);
    let mut sorted: Vec<ArtifactError> = Vec::new();
    let mut rest = v;
    let ghost mut i: int = 0;
    assert(all.take(0) =~= Seq::<ArtifactErrorView>::empty());
    assert(errors_view(sorted@) =~= errors_by_path(all.take(0)));
    assert(errors_view(rest@) =~= all.skip(0));
    while rest.len() > 0
        invariant
            0 <= i <= all.len(),
            errors_view(rest@) == all.skip(i),
            errors_view(sorted@) == errors_by_path(all.take(i)),
        decreases rest.len(),
    {
        let ghost before_rest = rest@;
        let x = rest.remove(0);
        let ghost s0 = errors_view(sorted@);
        proof {
            assert(errors_view(before_rest).len() == before_rest.len());
            assert(all.skip(i).len() == before_rest.len());
            assert(i < all.len());
            assert(errors_view(before_rest)[0] == artifact_error_view(before_rest[0]));
            assert(all.skip(i)[0] == all[i]);
            assert(artifact_error_view(x) == all[i]);
            assert(errors_view(rest@) =~= all.skip(i + 1)) by {
                assert forall|j: int| 0 <= j < errors_view(rest@).len() implies errors_view(rest@)[j]
                    == all.skip(i + 1)[j] by {
                    assert(before_rest.remove(0)[j] == before_rest[j + 1]);
                    assert(errors_view(before_rest)[j + 1] == artifact_error_view(before_rest[j + 1]));
                    assert(all.skip(i)[j + 1] == all[i + j + 1]);
                }
            }
            assert(all.take(i + 1).drop_last() =~= all.take(i));
            assert(all.take(i + 1).last() == all[i]);
        }
        let xp = chars_of(x.path.as_str());
        let mut k: usize = 0;
        while k < sorted.len() && !crate::text::vec_lt(&xp, &chars_of(sorted[k].path.as_str()))
            invariant
                k <= sorted@.len(),
                s0 == errors_view(sorted@),
                first_above(s0, xp@, 0) == first_above(s0, xp@, k as int),
            decreases sorted.len() - k,
        {
            assert(s0[k as int].path == sorted@[k as int].path@);
            k = k + 1;
        }
        proof {
            if k < sorted@.len() {
                assert(s0[k as int].path == sorted@[k as int].path@);
            }
        }
        let ghost xv = artifact_error_view(x);
        sorted.insert(k, x);
        assert(errors_view(sorted@) =~= s0.insert(k as int, xv));
        proof {
            i = i + 1;
        }
    }
    assert(all.take(i) =~= all);
    sorted
}

spec fn parts_view(ss: Seq<StoredSnapshot>, rs: Seq<StoredRecipe>, es: Seq<ArtifactError>) -> StoreView {
    StoreView { snapshots: stored_snapshots_view(ss), recipes: stored_recipes_view(rs), errors: errors_view(es) }
}

fn recipe_entry(
    snapshots: &Vec<StoredSnapshot>,
    recipes: &mut Vec<StoredRecipe>,
    errors: &mut Vec<ArtifactError>,
    path: String,
    src: ArtifactSource,
)
    requires
        crate::nav_projection_recipe::ids_increasing(stored_recipes_view(old(recipes)@).map_values(recipe_id_of())),
    ensures
        crate::nav_projection_recipe::ids_increasing(stored_recipes_view(final(recipes)@).map_values(recipe_id_of())),
        parts_view(snapshots@, final(recipes)@, final(errors)@) == recipe_step(
            parts_view(snapshots@, old(recipes)@, old(errors)@),
            (path, src),
        ),
{
    let ghost ev = errors_view(errors@);
    reveal(recipe_step);
    match load_recipe(path, src) {
        Entry::Skip => {},
        Entry::Error(e) => {
            errors.push(e);
            assert(errors_view(errors@) =~= ev.push(artifact_error_view(e)));
        },
        Entry::Stored(x) => {
            put_recipe(recipes, x);
        },
    }
}

fn snapshot_entry(
    snapshots: &mut Vec<StoredSnapshot>,
    recipes: &Vec<StoredRecipe>,
    errors: &mut Vec<ArtifactError>,
    path: String,
    src: ArtifactSource,
)
    requires
        crate::nav_projection_recipe::ids_increasing(
            stored_snapshots_view(old(snapshots)@).map_values(snapshot_id_of()),
        ),
    ensures
        crate::nav_projection_recipe::ids_increasing(
            stored_snapshots_view(final(snapshots)@).map_values(snapshot_id_of()),
        ),
        parts_view(final(snapshots)@, recipes@, final(errors)@) == snapshot_step(
            parts_view(old(snapshots)@, recipes@, old(errors)@),
            (path, src),
        ),
{
    let ghost ev = errors_view(errors@);
    reveal(snapshot_step);
    match load_snapshot(path, src) {
        Entry::Skip => {},
        Entry::Error(e) => {
            errors.push(e);
            assert(errors_view(errors@) =~= ev.push(artifact_error_view(e)));
        },
        Entry::Stored(x) => {
            put_snapshot(snapshots, x);
        },
    }
}

impl ProjectionStore {
    /// Each namespace in increasing order of identifiers, none twice.
    pub open spec fn wf(self) -> bool {
        &&& crate::nav_projection_recipe::ids_increasing(self.view_of().snapshots.map_values(snapshot_id_of()))
        &&& crate::nav_projection_recipe::ids_increasing(self.view_of().recipes.map_values(recipe_id_of()))
    }

    /// The store of what reading the entries of the snapshot directory and of
    /// the recipe directory gave, each list in the order of its paths.
    pub fn from_sources(
        snapshot_entries: Vec<(String, ArtifactSource)>,
        recipe_entries: Vec<(String, ArtifactSource)>,
    ) -> (r: ProjectionStore)
        ensures
            r.wf(),
            r.view_of() == store_of(snapshot_entries@, recipe_entries@),
    {
        let ghost empty = StoreView { snapshots: Seq::empty(), recipes: Seq::empty(), errors: Seq::empty() };
        let ghost ses = snapshot_entries@;
        let ghost res = recipe_entries@;
        let mut snapshots: Vec<StoredSnapshot> = Vec::new();
        let mut recipes: Vec<StoredRecipe> = Vec::new();
        let mut errors: Vec<ArtifactError> = Vec::new();
        let mut rest = recipe_entries;
        let ghost mut i: int = 0;
        assert(res.take(0) =~= Seq::<(String, ArtifactSource)>::empty());
        assert(rest@ =~= res.skip(0));
        assert(stored_recipes_view(recipes@) =~= Seq::<StoredRecipeView>::empty());
        assert(stored_snapshots_view(snapshots@) =~= Seq::<StoredSnapshotView>::empty());
        assert(errors_view(errors@) =~= Seq::<ArtifactErrorView>::empty());
        while rest.len() > 0
            invariant
                0 <= i <= res.len(),
                rest@ == res.skip(i),
                stored_snapshots_view(snapshots@) == Seq::<StoredSnapshotView>::empty(),
                crate::nav_projection_recipe::ids_increasing(stored_recipes_view(recipes@).map_values(recipe_id_of())),
                parts_view(snapshots@, recipes@, errors@) == after_recipes(empty, res.take(i)),
            decreases rest.len(),
        {
            let (path, src) = rest.remove(0);
            proof {
                assert((path, src) == res[i]);
                assert(rest@ =~= res.skip(i + 1));
                assert(res.take(i + 1).drop_last() =~= res.take(i));
                assert(res.take(i + 1).last() == res[i]);
            }
            recipe_entry(&snapshots, &mut recipes, &mut errors, path, src);
            proof {
                i = i + 1;
            }
        }
        assert(res.take(i) =~= res);
        let ghost mid = after_recipes(empty, res);
        let mut rest = snapshot_entries;
        let ghost mut j: int = 0;
        assert(ses.take(0) =~= Seq::<(String, ArtifactSource)>::empty());
        assert(rest@ =~= ses.skip(0));
        while rest.len() > 0
            invariant
                0 <= j <= ses.len(),
                rest@ == ses.skip(j),
                crate::nav_projection_recipe::ids_increasing(stored_recipes_view(recipes@).map_values(recipe_id_of())),
                crate::nav_projection_recipe::ids_increasing(
                    stored_snapshots_view(snapshots@).map_values(snapshot_id_of()),
                ),
                parts_view(snapshots@, recipes@, errors@) == after_snapshots(mid, ses.take(j)),
            decreases rest.len(),
        {
            let (path, src) = rest.remove(0);
            proof {
                assert((path, src) == ses[j]);
                assert(rest@ =~= ses.skip(j + 1));
                assert(ses.take(j + 1).drop_last() =~= ses.take(j));
                assert(ses.take(j + 1).last() == ses[j]);
            }
            snapshot_entry(&mut snapshots, &recipes, &mut errors, path, src);
            proof {
                j = j + 1;
            }
        }
        assert(ses.take(j) =~= ses);
        let errors = sort_errors(errors);
        ProjectionStore { snapshots, recipes, errors }
    }
}

/// Index of the first element, from `i` on, whose identifier is `id`.
pub open spec fn find_id<T>(s: Seq<T>, id_of: spec_fn(T) -> Seq<char>, id: Seq<char>, i: int) -> Option<int>
    decreases s.len() - i,
{
    if i < 0 || i >= s.len() {
        None
    } else if id_of(s[i]) == id {
        Some(i)
    } else {
        find_id(s, id_of, id, i + 1)
    }
}

/// Index of the first failure, from `i` on, whose path is `path`.
pub open spec fn find_error(s: Seq<ArtifactErrorView>, path: Seq<char>, i: int) -> Option<int>
    decreases s.len() - i,
{
    if i < 0 || i >= s.len() {
        None
    } else if s[i].path == path {
        Some(i)
    } else {
        find_error(s, path, i + 1)
    }
}

fn path_text(dir: &str, id: &str) -> (s: String)
    ensures
        s@ == dir@ + id@ + ".toml"@,
{
    let mut out: Vec<char> = Vec::new();
    push_str_chars(&mut out, dir);
    push_str_chars(&mut out, id);
    push_str_chars(&mut out, ".toml");
    string_from(&out)
}

impl ProjectionStore {
    /// The valid snapshots, in the order of their identifiers.
    pub fn snapshots(&self) -> (r: Vec<&StoredSnapshot>)
        ensures
            r@.len() == self.view_of().snapshots.len(),
            forall|k: int| 0 <= k < r@.len() ==> stored_snapshot_view(*#[trigger] r@[k]) == self.view_of().snapshots[k],
    {
        let mut r: Vec<&StoredSnapshot> = Vec::new();
        let mut i: usize = 0;
        while i < self.snapshots.len()
            invariant
                i <= self.snapshots@.len(),
                r@.len() == i,
                forall|k: int| 0 <= k < i ==> *#[trigger] r@[k] == self.snapshots@[k],
            decreases self.snapshots.len() - i,
        {
            r.push(&self.snapshots[i]);
            i = i + 1;
        }
        r
    }

    /// The valid recipes, in the order of their identifiers.
    pub fn recipes(&self) -> (r: Vec<&StoredRecipe>)
        ensures
            r@.len() == self.view_of().recipes.len(),
            forall|k: int| 0 <= k < r@.len() ==> stored_recipe_view(*#[trigger] r@[k]) == self.view_of().recipes[k],
    {
        let mut r: Vec<&StoredRecipe> = Vec::new();
        let mut i: usize = 0;
        while i < self.recipes.len()
            invariant
                i <= self.recipes@.len(),
                r@.len() == i,
                forall|k: int| 0 <= k < i ==> *#[trigger] r@[k] == self.recipes@[k],
            decreases self.recipes.len() - i,
        {
            r.push(&self.recipes[i]);
            i = i + 1;
        }
        r
    }

    pub fn snapshot(&self, id: &str) -> (r: Option<&StoredSnapshot>)
        ensures
            match find_id(self.view_of().snapshots, snapshot_id_of(), id@, 0) {
                Some(k) => r matches Some(x) && stored_snapshot_view(*x) == self.view_of().snapshots[k],
                None => r is None,
            },
    {
        let ghost sv = self.view_of().snapshots;
        let mut i: usize = 0;
        while i < self.snapshots.len()
            invariant
                i <= self.snapshots@.len(),
                sv == self.view_of().snapshots,
                find_id(sv, snapshot_id_of(), id@, 0) == find_id(sv, snapshot_id_of(), id@, i as int),
            decreases self.snapshots.len() - i,
        {
            assert(sv[i as int] == stored_snapshot_view(self.snapshots@[i as int]));
            if crate::text::str_eq(self.snapshots[i].snapshot.id.as_str(), id) {
                return Some(&self.snapshots[i]);
            }
            i = i + 1;
        }
        None
    }

    pub fn recipe(&self, id: &str) -> (r: Option<&StoredRecipe>)
        ensures
            match find_id(self.view_of().recipes, recipe_id_of(), id@, 0) {
                Some(k) => r matches Some(x) && stored_recipe_view(*x) == self.view_of().recipes[k],
                None => r is None,
            },
    {
        let ghost rv = self.view_of().recipes;
        let mut i: usize = 0;
        while i < self.recipes.len()
            invariant
                i <= self.recipes@.len(),
                rv == self.view_of().recipes,
                find_id(rv, recipe_id_of(), id@, 0) == find_id(rv, recipe_id_of(), id@, i as int),
            decreases self.recipes.len() - i,
        {
            assert(rv[i as int] == stored_recipe_view(self.recipes@[i as int]));
            if crate::text::str_eq(self.recipes[i].recipe.id.as_str(), id) {
                return Some(&self.recipes[i]);
            }
            i = i + 1;
        }
        None
    }

    /// The structural failures, in the order of their paths.
    pub fn errors(&self) -> (r: &Vec<ArtifactError>)
        ensures
            errors_view(r@) == self.view_of().errors,
    {
        &self.errors
    }

    fn error_at(&self, path: &String) -> (r: Option<&ArtifactError>)
        ensures
            match find_error(self.view_of().errors, path@, 0) {
                Some(k) => r matches Some(x) && artifact_error_view(*x) == self.view_of().errors[k],
                None => r is None,
            },
    {
        let ghost ev = self.view_of().errors;
        let mut i: usize = 0;
        while i < self.errors.len()
            invariant
                i <= self.errors@.len(),
                ev == self.view_of().errors,
                find_error(ev, path@, 0) == find_error(ev, path@, i as int),
            decreases self.errors.len() - i,
        {
            assert(ev[i as int] == artifact_error_view(self.errors@[i as int]));
            if crate::text::str_eq(self.errors[i].path.as_str(), path.as_str()) {
                return Some(&self.errors[i]);
            }
            i = i + 1;
        }
        None
    }

    /// The failure of the snapshot file of `id`, if it has one.
    pub fn snapshot_error(&self, id: &str) -> (r: Option<&ArtifactError>)
        ensures
            match find_error(self.view_of().errors, SNAPSHOTS_DIR@ + id@ + ".toml"@, 0) {
                Some(k) => r matches Some(x) && artifact_error_view(*x) == self.view_of().errors[k],
                None => r is None,
            },
    {
        let path = path_text(SNAPSHOTS_DIR, id);
        self.error_at(&path)
    }

    /// The failure of the recipe file of `id`, if it has one.
    pub fn recipe_error(&self, id: &str) -> (r: Option<&ArtifactError>)
        ensures
            match find_error(self.view_of().errors, RECIPES_DIR@ + id@ + ".toml"@, 0) {
                Some(k) => r matches Some(x) && artifact_error_view(*x) == self.view_of().errors[k],
                None => r is None,
            },
    {
        let path = path_text(RECIPES_DIR, id);
        self.error_at(&path)
    }
}

fn clone_rules(v: &Vec<crate::nav_projection_snapshot::Rule>) -> (r: Vec<crate::nav_projection_snapshot::Rule>)
    ensures
        r@ == v@,
{
    let mut r: Vec<crate::nav_projection_snapshot::Rule> = Vec::new();
    let mut i: usize = 0;
    while i < v.len()
        invariant
            i <= v@.len(),
            r@ == v@.take(i as int),
        decreases v.len() - i,
    {
        r.push(crate::nav_projection_snapshot::clone_rule(&v[i]));
        assert(r@ =~= v@.take(i + 1));
        i = i + 1;
    }
    assert(v@.take(i as int) =~= v@);
    r
}

pub(crate) fn clone_snapshot(s: &ProjectionSnapshot) -> (c: ProjectionSnapshot)
    ensures
        snapshot_view(c) == snapshot_view(*s),
{
    ProjectionSnapshot {
        schema: s.schema,
        id: s.id.clone(),
        state: s.state,
        predecessor: crate::nav_projection_snapshot::clone_opt(&s.predecessor),
        justification: crate::nav_projection_snapshot::clone_opt(&s.justification),
        measures: s.measures,
        expected_overrides: s.expected_overrides,
        expected_exclusions: s.expected_exclusions,
        expected_materializations: s.expected_materializations,
        base_snapshot: crate::nav_projection_snapshot::clone_opt(&s.base_snapshot),
        recipes: crate::nav_projection_snapshot::parser::clone_strings(&s.recipes),
        rules: clone_rules(&s.rules),
    }
}

pub(crate) fn clone_recipe(r: &Recipe) -> (c: Recipe)
    ensures
        recipe_view(c) == recipe_view(*r),
{
    Recipe {
        schema: r.schema,
        id: r.id.clone(),
        steps: crate::nav_projection_snapshot::parser::clone_strings(&r.steps),
        expected_overrides: r.expected_overrides,
        expected_exclusions: r.expected_exclusions,
        rules: clone_rules(&r.rules),
    }
}

/// Two sequences kept in strictly increasing order of one key, with the
/// same elements, are the same sequence.
proof fn lemma_sorted_same<T>(a: Seq<T>, b: Seq<T>, key: spec_fn(T) -> Seq<char>)
    requires
        crate::nav_projection_recipe::ids_increasing(a.map_values(key)),
        crate::nav_projection_recipe::ids_increasing(b.map_values(key)),
        a.to_multiset() == b.to_multiset(),
    ensures
        a == b,
    decreases a.len(),
{
    broadcast use vstd::seq_lib::group_to_multiset_ensures;

    vstd::seq_lib::to_multiset_len(a);
    vstd::seq_lib::to_multiset_len(b);
    if a.len() == 0 {
        assert(b.len() == 0);
        assert(a =~= b);
    } else {
        assert(b.len() == a.len());
        let x = a[0];
        let y = b[0];
        assert(a.to_multiset().contains(x)) by {
            assert(a.contains(x));
        }
        assert(b.contains(x));
        let j = choose|j: int| 0 <= j < b.len() && b[j] == x;
        assert(b.to_multiset().contains(y)) by {
            assert(b.contains(y));
        }
        assert(a.contains(y));
        let i = choose|i: int| 0 <= i < a.len() && a[i] == y;
        let ka = a.map_values(key);
        let kb = b.map_values(key);
        if i > 0 && j > 0 {
            assert(seq_lt(ka[0], ka[i]));
            assert(seq_lt(kb[0], kb[j]));
            crate::text::lemma_seq_lt_trans(key(x), key(y), key(x));
            crate::text::lemma_seq_lt_irrefl_eq(key(x), key(x));
        } else if i > 0 {
            assert(seq_lt(ka[0], ka[i]));
            crate::text::lemma_seq_lt_irrefl_eq(key(x), key(y));
        } else if j > 0 {
            assert(seq_lt(kb[0], kb[j]));
            crate::text::lemma_seq_lt_irrefl_eq(key(y), key(x));
        }
        assert(x == y);
        let a1 = a.remove(0);
        let b1 = b.remove(0);
        assert(a1.to_multiset() == b1.to_multiset());
        assert(a1.map_values(key) =~= ka.remove(0));
        assert(b1.map_values(key) =~= kb.remove(0));
        assert forall|p: int, q: int| 0 <= p < q < a1.map_values(key).len() implies seq_lt(
            #[trigger] a1.map_values(key)[p],
            #[trigger] a1.map_values(key)[q],
        ) by {
            assert(seq_lt(ka[p + 1], ka[q + 1]));
        }
        assert forall|p: int, q: int| 0 <= p < q < b1.map_values(key).len() implies seq_lt(
            #[trigger] b1.map_values(key)[p],
            #[trigger] b1.map_values(key)[q],
        ) by {
            assert(seq_lt(kb[p + 1], kb[q + 1]));
        }
        lemma_sorted_same(a1, b1, key);
        assert(a =~= b) by {
            assert forall|k: int| 0 <= k < a.len() implies a[k] == b[k] by {
                if k > 0 {
                    assert(a1.len() == a.len() - 1);
                    assert(a[k] == a1[k - 1]);
                    assert(b[k] == b1[k - 1]);
                }
            }
        }
    }
}

impl ProjectionStore {
    /// The library of every valid artifact. The failures stay apart, in
    /// `errors`.
    pub fn library(&self) -> (r: Result<crate::nav_projection_recipe::Library, HarnessFailure>)
        requires
            self.wf(),
        ensures
            r matches Ok(l) && l.wf() && l.recipe_views().to_multiset() == self.view_of().recipes.map_values(
                |v: StoredRecipeView| v.recipe,
            ).to_multiset() && l.snapshot_views().to_multiset() == self.view_of().snapshots.map_values(
                |v: StoredSnapshotView| v.snapshot,
            ).to_multiset(),
            r matches Ok(l) && lib_view(l) == store_library(self.view_of()),
    {
        broadcast use vstd::seq_lib::group_to_multiset_ensures;

        let ghost rv = self.view_of().recipes.map_values(|v: StoredRecipeView| v.recipe);
        let ghost sv = self.view_of().snapshots.map_values(|v: StoredSnapshotView| v.snapshot);
        let mut lib = crate::nav_projection_recipe::Library::new();
        let mut i: usize = 0;
        assert(rv.take(0) =~= Seq::<RecipeView>::empty());
        while i < self.recipes.len()
            invariant
                i <= self.recipes@.len(),
                self.wf(),
                rv == self.view_of().recipes.map_values(|v: StoredRecipeView| v.recipe),
                lib.wf(),
                lib.snapshot_views() == Seq::<SnapshotView>::empty(),
                lib.recipe_views().to_multiset() == rv.take(i as int).to_multiset(),
            decreases self.recipes.len() - i,
        {
            let x = clone_recipe(&self.recipes[i].recipe);
            proof {
                assert(rv[i as int] == recipe_view(x));
                let ids = self.view_of().recipes.map_values(recipe_id_of());
                assert(ids[i as int] == x.id@);
                if lib.recipe_id_view().contains(x.id@) {
                    let j = choose|j: int| 0 <= j < lib.recipe_id_view().len() && lib.recipe_id_view()[j] == x.id@;
                    assert(lib.recipe_id_view().len() == lib.recipe_views().len());
                    assert(lib.recipe_id_view()[j] == lib.recipe_views()[j].id);
                    let w = lib.recipe_views()[j];
                    assert(lib.recipe_views().contains(w));
                    vstd::seq_lib::to_multiset_contains(lib.recipe_views(), w);
                    vstd::seq_lib::to_multiset_contains(rv.take(i as int), w);
                    assert(rv.take(i as int).contains(w));
                    let m = choose|m: int| 0 <= m < i && rv.take(i as int)[m] == w;
                    assert(ids[m] == w.id);
                    assert(seq_lt(ids[m], ids[i as int]));
                    crate::text::lemma_seq_lt_irrefl_eq(ids[m], ids[i as int]);
                }
                assert(rv.take(i + 1) =~= rv.take(i as int).push(recipe_view(x)));
                vstd::seq_lib::to_multiset_build(rv.take(i as int), recipe_view(x));
            }
            lib = match lib.insert_recipe(x) {
                Ok(l) => l,
                Err(e) => {
                    return Err(e);
                },
            };
            i = i + 1;
        }
        assert(rv.take(i as int) =~= rv);
        let mut j: usize = 0;
        assert(sv.take(0) =~= Seq::<SnapshotView>::empty());
        while j < self.snapshots.len()
            invariant
                j <= self.snapshots@.len(),
                self.wf(),
                sv == self.view_of().snapshots.map_values(|v: StoredSnapshotView| v.snapshot),
                lib.wf(),
                lib.recipe_views().to_multiset() == rv.to_multiset(),
                lib.snapshot_views().to_multiset() == sv.take(j as int).to_multiset(),
            decreases self.snapshots.len() - j,
        {
            let x = clone_snapshot(&self.snapshots[j].snapshot);
            proof {
                assert(sv[j as int] == snapshot_view(x));
                let ids = self.view_of().snapshots.map_values(snapshot_id_of());
                assert(ids[j as int] == x.id@);
                if lib.snapshot_id_view().contains(x.id@) {
                    let k = choose|k: int| 0 <= k < lib.snapshot_id_view().len() && lib.snapshot_id_view()[k] == x.id@;
                    assert(lib.snapshot_id_view().len() == lib.snapshot_views().len());
                    assert(lib.snapshot_id_view()[k] == lib.snapshot_views()[k].id);
                    let w = lib.snapshot_views()[k];
                    assert(lib.snapshot_views().contains(w));
                    vstd::seq_lib::to_multiset_contains(lib.snapshot_views(), w);
                    vstd::seq_lib::to_multiset_contains(sv.take(j as int), w);
                    assert(sv.take(j as int).contains(w));
                    let m = choose|m: int| 0 <= m < j && sv.take(j as int)[m] == w;
                    assert(ids[m] == w.id);
                    assert(seq_lt(ids[m], ids[j as int]));
                    crate::text::lemma_seq_lt_irrefl_eq(ids[m], ids[j as int]);
                }
                assert(sv.take(j + 1) =~= sv.take(j as int).push(snapshot_view(x)));
                vstd::seq_lib::to_multiset_build(sv.take(j as int), snapshot_view(x));
            }
            lib = match lib.insert_snapshot(x) {
                Ok(l) => l,
                Err(e) => {
                    return Err(e);
                },
            };
            j = j + 1;
        }
        assert(sv.take(j as int) =~= sv);
        proof {
            let key_s = |v: SnapshotView| v.id;
            let key_r = |v: RecipeView| v.id;
            assert(sv.map_values(key_s) =~= self.view_of().snapshots.map_values(snapshot_id_of()));
            assert(rv.map_values(key_r) =~= self.view_of().recipes.map_values(recipe_id_of()));
            lemma_sorted_same(lib.snapshot_views(), sv, key_s);
            lemma_sorted_same(lib.recipe_views(), rv, key_r);
        }
        Ok(lib)
    }
}

} // verus!

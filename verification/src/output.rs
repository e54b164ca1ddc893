//! Where a scene's frames go: `outputs/<scene>` beside the scene's source
//! file.
//!
//! `file!()` may be absolute, relative to the package or relative to the
//! workspace, depending on how Cargo was run, so the candidates are tried in
//! turn and the first that exists on disk is taken (the first one when none
//! does). Paths follow the platform's rules, so they are built with
//! `std::path`; each [`BuiltPath`] carries, as its view, the record of how it
//! was built from strings ([`PathTerm`]), and the contracts speak of that.

use std::path::PathBuf;
use vstd::prelude::*;

verus! {

#[verifier::external_type_specification]
#[verifier::external_body]
pub struct ExPathBuf(PathBuf);

/// How a path was built: `PathBuf::from` a string, `Path::join` of two
/// paths, or `Path::parent` of a path.
pub enum PathTerm {
    Text(Seq<char>),
    Join(Box<PathTerm>, Box<PathTerm>),
    Parent(Box<PathTerm>),
}

/// A path together with the record of how it was built.
pub struct BuiltPath {
    path: PathBuf,
    built: Ghost<PathTerm>,
}

impl View for BuiltPath {
    type V = PathTerm;

    closed spec fn view(&self) -> PathTerm {
        self.built@
    }
}

impl BuiltPath {
    /// The path itself.
    pub fn as_path_buf(&self) -> &PathBuf {
        &self.path
    }

    /// The path itself, by value.
    pub fn into_path_buf(self) -> PathBuf {
        self.path
    }
}

/// The path `base` joined with `part`.
pub open spec fn join_term(base: PathTerm, part: PathTerm) -> PathTerm {
    PathTerm::Join(Box::new(base), Box::new(part))
}

/// The parent of `p`.
pub open spec fn parent_term(p: PathTerm) -> PathTerm {
    PathTerm::Parent(Box::new(p))
}

/// A string that is a relative path on every platform: it holds no `:` (no
/// Windows drive or verbatim prefix) and starts with neither `/` nor `\`
/// (no root, no UNC prefix).
pub open spec fn plainly_relative(s: Seq<char>) -> bool {
    !s.contains(':') && (s.len() == 0 || (s[0] != '/' && s[0] != '\\'))
}

/// A string that names a file by a relative path on every platform: it is
/// [`plainly_relative`], not empty, and does not end in `/`, `\` or `.`;
/// so its last component is a plain name (neither a root, a prefix, `.`
/// nor `..`).
pub open spec fn names_a_file(s: Seq<char>) -> bool {
    &&& plainly_relative(s)
    &&& s.len() > 0
    &&& s.last() != '/'
    &&& s.last() != '\\'
    &&& s.last() != '.'
}

/// A path whose last component is known to be a plain name: a string that
/// [`names_a_file`], or any path joined with such a string.
pub open spec fn ends_in_name(p: PathTerm) -> bool {
    match p {
        PathTerm::Text(s) => names_a_file(s),
        PathTerm::Join(_, part) => match *part {
            PathTerm::Text(s) => names_a_file(s),
            _ => false,
        },
        PathTerm::Parent(_) => false,
    }
}

/// `PathBuf::from` a string.
#[verifier::external_body]
fn path_from(s: &str) -> (p: BuiltPath)
    ensures
        p@ == PathTerm::Text(s@),
{
    BuiltPath { path: PathBuf::from(s), built: Ghost(PathTerm::Text(s@)) }
}

/// `Path::to_path_buf`: an owned copy of a path.
#[verifier::external_body]
fn path_copy(p: &BuiltPath) -> (q: BuiltPath)
    ensures
        q@ == p@,
{
    BuiltPath { path: p.path.to_path_buf(), built: Ghost(p@) }
}

/// `Path::join`: `part` appended to `base` (or `part` itself when it is
/// absolute).
#[verifier::external_body]
fn path_join(base: &BuiltPath, part: &BuiltPath) -> (p: BuiltPath)
    ensures
        p@ == join_term(base@, part@),
{
    BuiltPath { path: base.path.join(&part.path), built: Ghost(join_term(base@, part@)) }
}

/// `Path::is_absolute`, by the platform's rules. Claimed, from its
/// documentation (on Unix a path is absolute when it starts with the root;
/// on Windows when it has a prefix and a root): a path made from a
/// [`plainly_relative`] string is not absolute. Of other paths nothing is
/// claimed.
#[verifier::external_body]
fn path_is_absolute(p: &BuiltPath) -> (r: bool)
    ensures
        (p@ matches PathTerm::Text(s) && plainly_relative(s)) ==> !r,
{
    p.path.is_absolute()
}

/// `Path::parent`: the path without its last component, if it has one.
/// Claimed, from its documentation (it is `None` only for a path that ends
/// in a root or a prefix, or is empty): a path that [`ends_in_name`] has a
/// parent. Which other paths have one the platform's rules decide.
#[verifier::external_body]
fn path_parent(p: &BuiltPath) -> (r: Option<BuiltPath>)
    ensures
        r matches Some(q) ==> q@ == parent_term(p@),
        ends_in_name(p@) ==> r is Some,
{
    match p.path.parent() {
        Some(q) => Some(BuiltPath { path: q.to_path_buf(), built: Ghost(parent_term(p@)) }),
        None => None,
    }
}

/// `Path::exists`: whether something is on disk at the path now. The answer
/// may change from one call to the next, so nothing is claimed of it.
#[verifier::external_body]
fn path_exists(p: &BuiltPath) -> bool {
    p.path.exists()
}

/// From index `k` on, the index of the first `true` of `s`; `0` when there
/// is none.
pub open spec fn first_true_from(s: Seq<bool>, k: nat) -> nat
    decreases s.len() - k,
{
    if k >= s.len() {
        0
    } else if s[k as int] {
        k
    } else {
        first_true_from(s, k + 1)
    }
}

/// Picks a candidate by whether each exists: the first that does, or the
/// first candidate when none does.
pub fn first_existing(exists: &Vec<bool>) -> (i: usize)
    requires
        exists@.len() > 0,
    ensures
        i < exists@.len(),
        i == first_true_from(exists@, 0),
        exists@[i as int] ==> forall|j: int| 0 <= j < i ==> !exists@[j],
        !exists@[i as int] ==> i == 0 && forall|j: int| 0 <= j < exists@.len() ==> !exists@[j],
{
    let mut i: usize = 0;
    while i < exists.len()
        invariant
            0 <= i <= exists@.len(),
            forall|j: int| 0 <= j < i ==> !exists@[j],
            first_true_from(exists@, 0) == first_true_from(exists@, i as nat),
        decreases exists@.len() - i,
    {
        if exists[i] {
            return i;
        }
        i += 1;
    }
    0
}

/// Where the scene's source file may be: the path as given (absolute, or
/// relative to the current directory), or the path taken relative to the
/// package or to the workspace (the package's parent).
#[derive(Copy, Clone, Debug, PartialEq, Eq, Structural)]
pub enum SourceCandidate {
    AsGiven,
    InPackage,
    InWorkspace,
}

/// The candidates in the order they are tried: an absolute source path
/// alone; otherwise the package, the workspace (when the package directory
/// has a parent) and the current directory.
pub open spec fn candidates_spec(is_absolute: bool, has_workspace: bool) -> Seq<SourceCandidate> {
    if is_absolute {
        seq![SourceCandidate::AsGiven]
    } else if has_workspace {
        seq![SourceCandidate::InPackage, SourceCandidate::InWorkspace, SourceCandidate::AsGiven]
    } else {
        seq![SourceCandidate::InPackage, SourceCandidate::AsGiven]
    }
}

/// The candidates for a source path, in the order they are tried.
pub fn source_candidates(is_absolute: bool, has_workspace: bool) -> (v: Vec<SourceCandidate>)
    ensures
        v@ == candidates_spec(is_absolute, has_workspace),
{
    let v = if is_absolute {
        vec![SourceCandidate::AsGiven]
    } else if has_workspace {
        vec![SourceCandidate::InPackage, SourceCandidate::InWorkspace, SourceCandidate::AsGiven]
    } else {
        vec![SourceCandidate::InPackage, SourceCandidate::AsGiven]
    };
    assert(v@ =~= candidates_spec(is_absolute, has_workspace));
    v
}

/// The candidate taken, given whether each candidate exists (in the order of
/// [`candidates_spec`]): the first that exists, else the first one.
pub fn pick_source(is_absolute: bool, has_workspace: bool, exists: &Vec<bool>) -> (c: SourceCandidate)
    requires
        exists@.len() == candidates_spec(is_absolute, has_workspace).len(),
    ensures
        c == candidates_spec(is_absolute, has_workspace)[first_true_from(exists@, 0) as int],
        c == SourceCandidate::InWorkspace ==> has_workspace,
{
    let candidates = source_candidates(is_absolute, has_workspace);
    let i = first_existing(exists);
    candidates[i]
}

/// The path of a candidate, from the source path `file` and the package
/// directory `manifest` (the workspace being the package's parent).
pub open spec fn candidate_term(c: SourceCandidate, manifest: PathTerm, file: PathTerm) -> PathTerm {
    match c {
        SourceCandidate::AsGiven => file,
        SourceCandidate::InPackage => join_term(manifest, file),
        SourceCandidate::InWorkspace => join_term(parent_term(manifest), file),
    }
}

/// `first_true_from(s, 0)` is the position of the first `true` of `s`, or
/// `0` when `s` holds none.
pub proof fn lemma_first_true_is_first(s: Seq<bool>)
    ensures
        first_true_from(s, 0) == 0 || first_true_from(s, 0) < s.len(),
        (exists|i: int| 0 <= i < s.len() && s[i]) ==> s[first_true_from(s, 0) as int] && forall|j: int|
            0 <= j < first_true_from(s, 0) ==> !s[j],
        (forall|i: int| 0 <= i < s.len() ==> !s[i]) ==> first_true_from(s, 0) == 0,
{
    lemma_first_true_from_shape(s, 0);
}

proof fn lemma_first_true_from_shape(s: Seq<bool>, k: nat)
    ensures
        first_true_from(s, k) == 0 || k <= first_true_from(s, k) < s.len(),
        (exists|i: int| k <= i < s.len() && s[i]) ==> first_true_from(s, k) >= k && s[first_true_from(s, k) as int]
            && forall|j: int| k <= j < first_true_from(s, k) ==> !s[j],
        (forall|i: int| k <= i < s.len() ==> !s[i]) ==> first_true_from(s, k) == 0,
    decreases s.len() - k,
{
    if k < s.len() && !s[k as int] {
        lemma_first_true_from_shape(s, k + 1);
    }
}

/// The order the candidates are tried in: an absolute source path alone;
/// otherwise the package, then the workspace (when the package directory
/// has a parent), then the path as given.
pub proof fn lemma_candidate_order(has_workspace: bool)
    ensures
        candidates_spec(true, has_workspace) =~= seq![SourceCandidate::AsGiven],
        candidates_spec(false, true) =~= seq![
            SourceCandidate::InPackage,
            SourceCandidate::InWorkspace,
            SourceCandidate::AsGiven,
        ],
        candidates_spec(false, false) =~= seq![SourceCandidate::InPackage, SourceCandidate::AsGiven],
{
}

/// Where each candidate is looked for: the source path as given, the
/// package directory joined with the source path, and the package
/// directory's parent (the workspace) joined with the source path.
pub proof fn lemma_candidate_paths(manifest: PathTerm, file: PathTerm)
    ensures
        candidate_term(SourceCandidate::AsGiven, manifest, file) == file,
        candidate_term(SourceCandidate::InPackage, manifest, file) == PathTerm::Join(
            Box::new(manifest),
            Box::new(file),
        ),
        candidate_term(SourceCandidate::InWorkspace, manifest, file) == PathTerm::Join(
            Box::new(PathTerm::Parent(Box::new(manifest))),
            Box::new(file),
        ),
{
}

/// The directory of the source file when the source path is (or is not)
/// absolute, the package directory has (or has not) a parent, and the
/// candidates exist on disk as `exists` says: the parent of the candidate
/// that [`pick_source`] takes.
pub open spec fn source_dir_term(
    manifest_dir: Seq<char>,
    source_file: Seq<char>,
    is_absolute: bool,
    has_workspace: bool,
    exists: Seq<bool>,
) -> PathTerm {
    parent_term(
        candidate_term(
            candidates_spec(is_absolute, has_workspace)[first_true_from(exists, 0) as int],
            PathTerm::Text(manifest_dir),
            PathTerm::Text(source_file),
        ),
    )
}

/// `d` is the source directory for some answers of the platform and the
/// disk: whether the source path is absolute (never, for a
/// [`plainly_relative`] one), whether the package directory has a parent,
/// and which candidates exist; or `.` when the chosen candidate has no
/// parent, which cannot happen when the source path [`names_a_file`]
/// (every candidate then ends in that name).
pub open spec fn is_source_dir(d: PathTerm, manifest_dir: Seq<char>, source_file: Seq<char>) -> bool {
    ||| d == PathTerm::Text("."@) && !names_a_file(source_file)
    ||| exists|is_absolute: bool, has_workspace: bool, exists: Seq<bool>|
        #![trigger source_dir_term(manifest_dir, source_file, is_absolute, has_workspace, exists)]
        {
            &&& exists.len() == candidates_spec(is_absolute, has_workspace).len()
            &&& plainly_relative(source_file) ==> !is_absolute
            &&& d == source_dir_term(manifest_dir, source_file, is_absolute, has_workspace, exists)
        }
}

/// The path of one candidate.
fn candidate_path(c: SourceCandidate, file: &BuiltPath, manifest: &BuiltPath, workspace: &Option<BuiltPath>) -> (p: BuiltPath)
    requires
        c == SourceCandidate::InWorkspace ==> workspace is Some,
        workspace matches Some(w) ==> w@ == parent_term(manifest@),
    ensures
        p@ == candidate_term(c, manifest@, file@),
{
    match c {
        SourceCandidate::AsGiven => path_copy(file),
        SourceCandidate::InPackage => path_join(manifest, file),
        SourceCandidate::InWorkspace => match workspace {
            Some(w) => path_join(w, file),
            None => path_copy(file),
        },
    }
}

/// The directory of the scene's source file, from `file!()` and
/// `CARGO_MANIFEST_DIR`: each candidate's path is checked on disk, and the
/// result is the parent of the one [`pick_source`] takes (`.` when it has
/// no parent).
fn resolve_source_dir(manifest_dir: &str, source_file: &str) -> (d: BuiltPath)
    ensures
        is_source_dir(d@, manifest_dir@, source_file@),
{
    let file = path_from(source_file);
    let manifest = path_from(manifest_dir);
    let workspace = path_parent(&manifest);
    let is_absolute = path_is_absolute(&file);
    let has_workspace = workspace.is_some();
    let candidates = source_candidates(is_absolute, has_workspace);
    let mut exists: Vec<bool> = Vec::new();
    let mut k: usize = 0;
    while k < candidates.len()
        invariant
            0 <= k <= candidates@.len(),
            exists@.len() == k,
            candidates@ == candidates_spec(is_absolute, has_workspace),
            has_workspace == workspace is Some,
            workspace matches Some(w) ==> w@ == parent_term(manifest@),
        decreases candidates@.len() - k,
    {
        let path = candidate_path(candidates[k], &file, &manifest, &workspace);
        exists.push(path_exists(&path));
        k += 1;
    }
    let chosen = pick_source(is_absolute, has_workspace, &exists);
    let resolved = candidate_path(chosen, &file, &manifest, &workspace);
    match path_parent(&resolved) {
        Some(dir) => {
            assert(dir@ == source_dir_term(manifest_dir@, source_file@, is_absolute, has_workspace, exists@));
            dir
        },
        None => path_from("."),
    }
}

/// The output directory `<dir>/outputs/<scene>`.
pub open spec fn scene_dir_term(dir: PathTerm, scene: Seq<char>) -> PathTerm {
    join_term(join_term(dir, PathTerm::Text("outputs"@)), PathTerm::Text(scene))
}

/// The output directory is the source directory joined with `outputs`,
/// then with the scene's name.
pub proof fn lemma_scene_dir_shape(dir: PathTerm, scene: Seq<char>)
    ensures
        scene_dir_term(dir, scene) == PathTerm::Join(
            Box::new(PathTerm::Join(Box::new(dir), Box::new(PathTerm::Text("outputs"@)))),
            Box::new(PathTerm::Text(scene)),
        ),
{
}

/// The default output directory of a scene: `<source-dir>/outputs/<scene>`,
/// with the source directory found as [`is_source_dir`] describes.
pub fn scene_output_dir(manifest_dir: &str, source_file: &str, scene: &str) -> (out: BuiltPath)
    ensures
        exists|dir: PathTerm|
            #[trigger] is_source_dir(dir, manifest_dir@, source_file@) && out@ == scene_dir_term(dir, scene@),
{
    let dir = resolve_source_dir(manifest_dir, source_file);
    let outputs = path_join(&dir, &path_from("outputs"));
    path_join(&outputs, &path_from(scene))
}

} // verus!

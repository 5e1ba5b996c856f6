//! Which build project a file belongs to.
//!
//! A project key is completion ranking evidence. It neither binds names nor
//! replaces a scope tier.

use vstd::prelude::*;
use vstd::slice::slice_subrange;

use crate::chars::{
    chars_lower, chars_of, is_word, lower_chars, same_chars, same_text, string_of, texts,
};
use crate::lines::to_vec;
use crate::order::{
    is_text_before, sort_stable, stable_sort, stable_sort_maps, text_before, Order, Ordered,
};

verus! {

#[derive(Debug, PartialEq, Eq, PartialOrd, Ord, Hash)]
pub struct ProjectKey {
    pub workspace_root_id: String,
    pub project_path: String,
}

impl Clone for ProjectKey {
    fn clone(&self) -> (r: Self)
        ensures
            r == *self,
    {
        ProjectKey {
            workspace_root_id: self.workspace_root_id.clone(),
            project_path: self.project_path.clone(),
        }
    }
}

/// A project key with its texts as sequences.
pub struct Key {
    pub root: Seq<char>,
    pub path: Seq<char>,
}

impl View for ProjectKey {
    type V = Key;

    open spec fn view(&self) -> Key {
        Key { root: self.workspace_root_id@, path: self.project_path@ }
    }
}

pub open spec fn opt_key(k: Option<ProjectKey>) -> Option<Key> {
    match k {
        Some(key) => Some(key@),
        None => None,
    }
}

pub fn same_project(a: &ProjectKey, b: &ProjectKey) -> (r: bool)
    ensures
        r == (a@ == b@),
{
    same_text(a.workspace_root_id.as_str(), b.workspace_root_id.as_str()) && same_text(
        a.project_path.as_str(),
        b.project_path.as_str(),
    )
}

#[derive(Debug, Clone, PartialEq, Eq)]
pub struct ProjectContext {
    pub key: ProjectKey,
    pub workspace_name: String,
    pub marker_files: Vec<String>,
}

/// A project with its texts as sequences.
pub struct Project {
    pub key: Key,
    pub workspace_name: Seq<char>,
    pub marker_files: Seq<Seq<char>>,
}

impl View for ProjectContext {
    type V = Project;

    open spec fn view(&self) -> Project {
        Project {
            key: self.key@,
            workspace_name: self.workspace_name@,
            marker_files: texts(self.marker_files@),
        }
    }
}

pub open spec fn project_views(s: Seq<ProjectContext>) -> Seq<Project> {
    s.map_values(|p: ProjectContext| p@)
}

#[derive(Debug, Clone, PartialEq, Eq, Default)]
pub enum ProjectContextSelection {
    #[default]
    Auto,
    Manual { key: ProjectKey },
    Unspecified,
}

#[derive(Debug, Clone, PartialEq, Eq)]
pub struct ProjectContextStatus {
    pub available: bool,
    pub projects: Vec<ProjectContext>,
    pub selection: ProjectContextSelection,
    pub automatic_project: Option<ProjectKey>,
    pub active_project: Option<ProjectKey>,
}

/// The projects of a workspace, by path.
#[derive(Debug, Clone, PartialEq, Eq, Default)]
pub struct ProjectContextIndex {
    pub workspace_root_id: String,
    pub workspace_name: String,
    pub projects: Vec<ProjectContext>,
}

/// Projects by path, ASCII case aside, then by spelling.
pub struct ProjectOrder;

impl Order<Project> for ProjectOrder {
    open spec fn before(a: Project, b: Project) -> bool {
        let (la, lb) = (chars_lower(a.key.path), chars_lower(b.key.path));
        if la != lb {
            text_before(la, lb)
        } else {
            text_before(a.key.path, b.key.path)
        }
    }
}

impl Order<ProjectContext> for ProjectOrder {
    open spec fn before(a: ProjectContext, b: ProjectContext) -> bool {
        <ProjectOrder as Order<Project>>::before(a@, b@)
    }
}

fn lowered(s: &str) -> (r: String)
    ensures
        r@ == chars_lower(s@),
{
    let chars = chars_of(s);
    string_of(&lower_chars(&chars))
}

impl Ordered<ProjectContext> for ProjectOrder {
    fn is_before(a: &ProjectContext, b: &ProjectContext) -> (r: bool) {
        let la = lowered(a.key.project_path.as_str());
        let lb = lowered(b.key.project_path.as_str());
        if !same_text(la.as_str(), lb.as_str()) {
            is_text_before(la.as_str(), lb.as_str())
        } else {
            is_text_before(a.key.project_path.as_str(), b.key.project_path.as_str())
        }
    }
}

// ---------------------------------------------------------------------------
// Paths

/// The same text, ASCII case aside.
pub open spec fn same_ignoring_case(a: Seq<char>, b: Seq<char>) -> bool {
    chars_lower(a) == chars_lower(b)
}

fn is_same_ignoring_case(a: &[char], b: &[char]) -> (r: bool)
    ensures
        r == same_ignoring_case(a@, b@),
{
    let la = lower_chars(a);
    let lb = lower_chars(b);
    same_chars(&la, &lb)
}

/// `path` is `ancestor` or lies under it, ASCII case aside.
pub open spec fn at_or_under(path: Seq<char>, ancestor: Seq<char>) -> bool {
    ancestor.len() == 0 || same_ignoring_case(path, ancestor) || (ancestor.len() < path.len()
        && same_ignoring_case(path.subrange(0, ancestor.len() as int), ancestor)
        && path[ancestor.len() as int] == '/')
}

fn path_is_at_or_under(path: &[char], ancestor: &[char]) -> (r: bool)
    ensures
        r == at_or_under(path@, ancestor@),
{
    let n: usize = ancestor.len();
    n == 0 || is_same_ignoring_case(path, ancestor) || (n < path.len() && is_same_ignoring_case(
        slice_subrange(path, 0, n),
        ancestor,
    ) && path[n] == '/')
}

/// Number of `/` among the first `n` characters.
pub open spec fn slashes_below(path: Seq<char>, n: int) -> nat
    decreases n,
{
    if n <= 0 {
        0
    } else {
        slashes_below(path, n - 1) + if path[n - 1] == '/' {
            1nat
        } else {
            0nat
        }
    }
}

/// Number of components of a path.
pub open spec fn depth(path: Seq<char>) -> nat {
    if path.len() == 0 {
        0
    } else {
        slashes_below(path, path.len() as int) + 1
    }
}

fn path_depth(path: &[char]) -> (r: u128)
    ensures
        r == depth(path@),
{
    if path.len() == 0 {
        return 0;
    }
    let len: usize = path.len();
    let mut count: usize = 0;
    let mut i: usize = 0;
    while i < len
        invariant
            i <= len,
            len == path@.len(),
            count <= i,
            count == slashes_below(path@, i as int),
        decreases len - i,
    {
        if path[i] == '/' {
            count = count + 1;
        }
        i = i + 1;
    }
    count as u128 + 1
}

/// Backslashes as slashes.
pub open spec fn with_slashes(path: Seq<char>) -> Seq<char> {
    Seq::new(
        path.len(),
        |i: int|
            if path[i] == '\\' {
                '/'
            } else {
                path[i]
            },
    )
}

pub open spec fn slash_run_end(s: Seq<char>, i: int) -> int
    decreases s.len() - i,
{
    if 0 <= i < s.len() && s[i] == '/' {
        slash_run_end(s, i + 1)
    } else {
        i
    }
}

pub open spec fn slash_run_start(s: Seq<char>, from: int, end: int) -> int
    decreases end - from,
{
    if from < end && s[end - 1] == '/' {
        slash_run_start(s, from, end - 1)
    } else {
        end
    }
}

/// A relative path with forward slashes and none at its ends.
pub open spec fn normalized(path: Seq<char>) -> Seq<char> {
    let s = with_slashes(path);
    let start = slash_run_end(s, 0);
    s.subrange(start, slash_run_start(s, start, s.len() as int))
}

fn normalize_rel_slash(path: &str) -> (r: Vec<char>)
    ensures
        r@ == normalized(path@),
{
    let chars = chars_of(path);
    let ghost want = with_slashes(path@);
    let mut s: Vec<char> = Vec::new();
    let mut i: usize = 0;
    while i < chars.len()
        invariant
            i <= chars@.len(),
            chars@ == path@,
            want == with_slashes(path@),
            s@ == want.subrange(0, i as int),
        decreases chars@.len() - i,
    {
        s.push(
            if chars[i] == '\\' {
                '/'
            } else {
                chars[i]
            },
        );
        i = i + 1;
        assert(s@ =~= want.subrange(0, i as int));
    }
    assert(s@ =~= want);
    let mut start: usize = 0;
    while start < s.len() && s[start] == '/'
        invariant
            start <= s@.len(),
            slash_run_end(s@, 0) == slash_run_end(s@, start as int),
        decreases s@.len() - start,
    {
        start = start + 1;
    }
    let mut end: usize = s.len();
    while end > start && s[end - 1] == '/'
        invariant
            start <= end <= s@.len(),
            slash_run_start(s@, start as int, s@.len() as int) == slash_run_start(
                s@,
                start as int,
                end as int,
            ),
        decreases end,
    {
        end = end - 1;
    }
    to_vec(slice_subrange(s.as_slice(), start, end))
}

// ---------------------------------------------------------------------------
// Lookup

/// The deepest of the first `n` projects that holds `path`, the last one among
/// equals.
pub open spec fn nearest_below(projects: Seq<Project>, path: Seq<char>, n: int) -> Option<Key>
    decreases n,
{
    if n <= 0 {
        None
    } else {
        let best = nearest_below(projects, path, n - 1);
        let p = projects[n - 1].key;
        if !at_or_under(path, p.path) {
            best
        } else {
            match best {
                Some(b) => if depth(p.path) >= depth(b.path) {
                    Some(p)
                } else {
                    best
                },
                None => Some(p),
            }
        }
    }
}

/// The first project from `i` on with this path, ASCII case aside.
pub open spec fn spelled_from(projects: Seq<Project>, path: Seq<char>, i: int) -> Option<Key>
    decreases projects.len() - i,
{
    if i < 0 || i >= projects.len() {
        None
    } else if same_ignoring_case(projects[i].key.path, path) {
        Some(projects[i].key)
    } else {
        spelled_from(projects, path, i + 1)
    }
}

impl ProjectContextIndex {
    /// The projects in order.
    pub open spec fn all(self) -> Seq<Project> {
        project_views(self.projects@)
    }

    /// The project that owns a file: the deepest one around it.
    pub open spec fn nearest(self, file: Seq<char>) -> Option<Key> {
        nearest_below(self.all(), normalized(file), self.all().len() as int)
    }

    pub fn new(
        workspace_root_id: String,
        workspace_name: String,
        projects: Vec<ProjectContext>,
    ) -> (r: Self)
        ensures
            r.workspace_root_id@ == workspace_root_id@,
            r.workspace_name@ == workspace_name@,
            r.all() == stable_sort::<Project, ProjectOrder>(project_views(projects@)),
    {
        proof {
            stable_sort_maps::<ProjectContext, Project, ProjectOrder, ProjectOrder>(
                projects@,
                |p: ProjectContext| p@,
            );
        }
        let mut projects = projects;
        sort_stable::<ProjectContext, ProjectOrder>(&mut projects);
        ProjectContextIndex { workspace_root_id, workspace_name, projects }
    }

    pub fn projects(&self) -> (r: &[ProjectContext])
        ensures
            r@ == self.projects@,
    {
        self.projects.as_slice()
    }

    /// The key of a project as it was discovered, for a key whose path may
    /// differ in case.
    pub fn canonical_key(&self, key: &ProjectKey) -> (r: Option<ProjectKey>)
        ensures
            opt_key(r) == (if key.workspace_root_id@ != self.workspace_root_id@ {
                None
            } else {
                spelled_from(self.all(), key.project_path@, 0)
            }),
    {
        if !same_text(key.workspace_root_id.as_str(), self.workspace_root_id.as_str()) {
            return None;
        }
        let wanted = chars_of(key.project_path.as_str());
        let ghost all = self.all();
        let mut i: usize = 0;
        while i < self.projects.len()
            invariant
                i <= self.projects@.len(),
                all == self.all(),
                wanted@ == key.project_path@,
                key.workspace_root_id@ == self.workspace_root_id@,
                spelled_from(all, wanted@, 0) == spelled_from(all, wanted@, i as int),
            decreases self.projects@.len() - i,
        {
            let path = chars_of(self.projects[i].key.project_path.as_str());
            assert(all[i as int] == self.projects@[i as int]@);
            if is_same_ignoring_case(&path, &wanted) {
                return Some(self.projects[i].key.clone());
            }
            i = i + 1;
        }
        None
    }

    pub fn nearest_for_file(&self, rel_file_path: &str) -> (r: Option<ProjectKey>)
        ensures
            opt_key(r) == self.nearest(rel_file_path@),
    {
        let path = normalize_rel_slash(rel_file_path);
        let ghost all = self.all();
        let mut best: Option<usize> = None;
        let mut best_depth: u128 = 0;
        let mut i: usize = 0;
        while i < self.projects.len()
            invariant
                i <= self.projects@.len(),
                all == self.all(),
                path@ == normalized(rel_file_path@),
                match best {
                    Some(k) => k < i && nearest_below(all, path@, i as int) == Some(all[k as int].key)
                        && best_depth == depth(all[k as int].key.path),
                    None => nearest_below(all, path@, i as int) is None,
                },
            decreases self.projects@.len() - i,
        {
            let ancestor = chars_of(self.projects[i].key.project_path.as_str());
            assert(all[i as int] == self.projects@[i as int]@);
            if path_is_at_or_under(&path, &ancestor) {
                let d: u128 = path_depth(&ancestor);
                if best.is_none() || d >= best_depth {
                    best = Some(i);
                    best_depth = d;
                }
            }
            i = i + 1;
        }
        match best {
            Some(k) => {
                assert(all[k as int] == self.projects@[k as int]@);
                Some(self.projects[k].key.clone())
            },
            None => None,
        }
    }
}

// ---------------------------------------------------------------------------
// Markers

pub open spec fn ends_with(s: Seq<char>, suffix: Seq<char>) -> bool {
    suffix.len() <= s.len() && s.subrange(s.len() - suffix.len(), s.len() as int) == suffix
}

fn has_suffix(s: &[char], suffix: &str) -> (r: bool)
    ensures
        r == ends_with(s@, suffix@),
{
    let w = chars_of(suffix);
    w.len() <= s.len() && same_chars(slice_subrange(s, s.len() - w.len(), s.len()), &w)
}

/// A file that makes its directory a project.
pub open spec fn marker_name(name: Seq<char>) -> bool {
    let l = chars_lower(name);
    l == "makefile"@ || l == "gnumakefile"@ || l == "cmakelists.txt"@ || l == "build.ninja"@ || l
        == "meson.build"@ || l == "build"@ || l == "build.bazel"@ || l == "workspace"@ || l
        == "workspace.bazel"@ || ends_with(l, ".pro"@) || ends_with(l, ".sln"@) || ends_with(
        l,
        ".vcxproj"@,
    ) || ends_with(l, ".vcproj"@)
}

pub fn is_supported_marker_file_name(file_name: &str) -> (r: bool)
    ensures
        r == marker_name(file_name@),
{
    let chars = chars_of(file_name);
    let l = lower_chars(&chars);
    is_word(&l, "makefile") || is_word(&l, "gnumakefile") || is_word(&l, "cmakelists.txt")
        || is_word(&l, "build.ninja") || is_word(&l, "meson.build") || is_word(&l, "build")
        || is_word(&l, "build.bazel") || is_word(&l, "workspace") || is_word(&l, "workspace.bazel")
        || has_suffix(&l, ".pro") || has_suffix(&l, ".sln") || has_suffix(&l, ".vcxproj")
        || has_suffix(&l, ".vcproj")
}

/// A file met while a workspace is walked.
#[derive(Debug, Clone, PartialEq, Eq)]
pub struct FoundFile {
    /// Directory of the file, relative to the workspace root.
    pub directory: String,
    pub file_name: String,
}

/// A directory with its marker files.
pub struct MarkedDir {
    pub path: Seq<char>,
    pub files: Seq<Seq<char>>,
}

pub struct MarkedDirectory {
    pub path: String,
    pub files: Vec<String>,
}

impl View for MarkedDirectory {
    type V = MarkedDir;

    open spec fn view(&self) -> MarkedDir {
        MarkedDir { path: self.path@, files: texts(self.files@) }
    }
}

pub open spec fn dir_views(s: Seq<MarkedDirectory>) -> Seq<MarkedDir> {
    s.map_values(|d: MarkedDirectory| d@)
}

/// First directory from `i` on with this path, ASCII case aside.
pub open spec fn dir_from(dirs: Seq<MarkedDir>, path: Seq<char>, i: int) -> Option<int>
    decreases dirs.len() - i,
{
    if i < 0 || i >= dirs.len() {
        None
    } else if same_ignoring_case(dirs[i].path, path) {
        Some(i)
    } else {
        dir_from(dirs, path, i + 1)
    }
}

/// Record a marker file. Directories that differ in case are one; the first
/// spelling stays.
pub open spec fn with_marker(dirs: Seq<MarkedDir>, path: Seq<char>, file: Seq<char>) -> Seq<
    MarkedDir,
> {
    match dir_from(dirs, path, 0) {
        Some(k) => dirs.update(k, MarkedDir { files: dirs[k].files.push(file), ..dirs[k] }),
        None => dirs.push(MarkedDir { path, files: seq![file] }),
    }
}

/// The marked directories among the first `n` files.
pub open spec fn marked_below(found: Seq<FoundFile>, n: int) -> Seq<MarkedDir>
    decreases n,
{
    if n <= 0 {
        Seq::empty()
    } else {
        let f = found[n - 1];
        if marker_name(f.file_name@) {
            with_marker(marked_below(found, n - 1), normalized(f.directory@), f.file_name@)
        } else {
            marked_below(found, n - 1)
        }
    }
}

/// File names, ASCII case aside.
pub struct NameOrder;

impl Order<Seq<char>> for NameOrder {
    open spec fn before(a: Seq<char>, b: Seq<char>) -> bool {
        text_before(chars_lower(a), chars_lower(b))
    }
}

impl Order<String> for NameOrder {
    open spec fn before(a: String, b: String) -> bool {
        <NameOrder as Order<Seq<char>>>::before(a@, b@)
    }
}

impl Ordered<String> for NameOrder {
    fn is_before(a: &String, b: &String) -> (r: bool) {
        let la = lowered(a.as_str());
        let lb = lowered(b.as_str());
        is_text_before(la.as_str(), lb.as_str())
    }
}

/// The names without one that repeats the name before it, ASCII case aside.
pub open spec fn without_repeats(s: Seq<Seq<char>>) -> Seq<Seq<char>>
    decreases s.len(),
{
    if s.len() == 0 {
        s
    } else {
        let head = without_repeats(s.drop_last());
        if head.len() > 0 && same_ignoring_case(s.last(), head.last()) {
            head
        } else {
            head.push(s.last())
        }
    }
}

/// The marker files of a directory: by name, none twice.
pub open spec fn marker_list(files: Seq<Seq<char>>) -> Seq<Seq<char>> {
    without_repeats(stable_sort::<Seq<char>, NameOrder>(files))
}

/// The projects that marked directories make.
pub open spec fn projects_of(dirs: Seq<MarkedDir>, root: Seq<char>, name: Seq<char>) -> Seq<
    Project,
> {
    Seq::new(
        dirs.len(),
        |i: int|
            Project {
                key: Key { root, path: dirs[i].path },
                workspace_name: name,
                marker_files: marker_list(dirs[i].files),
            },
    )
}

fn find_dir(dirs: &Vec<MarkedDirectory>, path: &[char]) -> (r: Option<usize>)
    ensures
        match r {
            Some(k) => dir_from(dir_views(dirs@), path@, 0) == Some(k as int) && k < dirs@.len(),
            None => dir_from(dir_views(dirs@), path@, 0) is None,
        },
{
    let ghost all = dir_views(dirs@);
    let mut i: usize = 0;
    while i < dirs.len()
        invariant
            i <= dirs@.len(),
            all == dir_views(dirs@),
            dir_from(all, path@, 0) == dir_from(all, path@, i as int),
        decreases dirs@.len() - i,
    {
        let other = chars_of(dirs[i].path.as_str());
        assert(all[i as int] == dirs@[i as int]@);
        if is_same_ignoring_case(&other, path) {
            return Some(i);
        }
        i = i + 1;
    }
    None
}

fn record_marker(dirs: &mut Vec<MarkedDirectory>, path: Vec<char>, file: String)
    ensures
        dir_views(final(dirs)@) == with_marker(dir_views(old(dirs)@), path@, file@),
{
    let ghost before = dir_views(dirs@);
    let ghost f = file@;
    match find_dir(dirs, &path) {
        Some(k) => {
            let ghost files = texts(dirs@[k as int].files@);
            let ghost spelled = dirs@[k as int].path@;
            dirs[k].files.push(file);
            proof {
                assert(texts(dirs@[k as int].files@) =~= files.push(f));
                assert(before[k as int].files == files);
                assert(dir_views(dirs@) =~= with_marker(before, path@, f));
            }
        },
        None => {
            let mut files: Vec<String> = Vec::new();
            files.push(file);
            assert(texts(files@) =~= seq![f]);
            dirs.push(MarkedDirectory { path: string_of(&path), files });
            assert(dir_views(dirs@) =~= with_marker(before, path@, f));
        },
    }
}

fn unrepeated(files: Vec<String>) -> (r: Vec<String>)
    ensures
        texts(r@) == without_repeats(texts(files@)),
{
    let ghost all = texts(files@);
    let mut out: Vec<String> = Vec::new();
    let mut i: usize = 0;
    assert(texts(out@) =~= without_repeats(all.subrange(0, 0)));
    while i < files.len()
        invariant
            i <= files@.len(),
            all == texts(files@),
            texts(out@) == without_repeats(all.subrange(0, i as int)),
        decreases files@.len() - i,
    {
        let ghost before = texts(out@);
        let n: usize = out.len();
        let name = chars_of(files[i].as_str());
        let repeats = n > 0 && {
            let last = chars_of(out[n - 1].as_str());
            is_same_ignoring_case(&name, &last)
        };
        proof {
            let next = all.subrange(0, i + 1);
            assert(next.last() == name@);
            assert(next.drop_last() =~= all.subrange(0, i as int));
            assert(n > 0 ==> before.last() == out@[n - 1]@);
        }
        if !repeats {
            out.push(files[i].clone());
            assert(texts(out@) =~= before.push(name@));
        }
        i = i + 1;
    }
    assert(all.subrange(0, i as int) =~= all);
    out
}

fn list_markers(files: Vec<String>) -> (r: Vec<String>)
    ensures
        texts(r@) == marker_list(texts(files@)),
{
    proof {
        stable_sort_maps::<String, Seq<char>, NameOrder, NameOrder>(files@, |s: String| s@);
        assert(files@.map_values(|s: String| s@) =~= texts(files@));
    }
    let mut files = files;
    sort_stable::<String, NameOrder>(&mut files);
    assert(files@.map_values(|s: String| s@) =~= texts(files@));
    unrepeated(files)
}

/// Build the project index of a workspace from the files met in it. Only
/// marker files count; markers of one directory make one project.
pub fn projects_from_files(
    workspace_root_id: String,
    workspace_name: String,
    found: &Vec<FoundFile>,
) -> (r: ProjectContextIndex)
    ensures
        r.workspace_root_id@ == workspace_root_id@,
        r.workspace_name@ == workspace_name@,
        r.all() == stable_sort::<Project, ProjectOrder>(
            projects_of(
                marked_below(found@, found@.len() as int),
                workspace_root_id@,
                workspace_name@,
            ),
        ),
{
    let mut dirs: Vec<MarkedDirectory> = Vec::new();
    let mut i: usize = 0;
    assert(dir_views(dirs@) =~= Seq::empty());
    while i < found.len()
        invariant
            i <= found@.len(),
            dir_views(dirs@) == marked_below(found@, i as int),
        decreases found@.len() - i,
    {
        if is_supported_marker_file_name(found[i].file_name.as_str()) {
            record_marker(
                &mut dirs,
                normalize_rel_slash(found[i].directory.as_str()),
                found[i].file_name.clone(),
            );
        }
        i = i + 1;
    }
    let ghost marked = dir_views(dirs@);
    let ghost want = projects_of(marked, workspace_root_id@, workspace_name@);
    let mut projects: Vec<ProjectContext> = Vec::new();
    let ghost total = dirs@.len();
    assert(project_views(projects@) =~= want.subrange(0, 0));
    let mut k: usize = 0;
    while k < dirs.len()
        invariant
            k <= dirs@.len(),
            marked == dir_views(dirs@),
            want == projects_of(marked, workspace_root_id@, workspace_name@),
            project_views(projects@) == want.subrange(0, k as int),
        decreases dirs@.len() - k,
    {
        let ghost before = project_views(projects@);
        let files = copy_names(&dirs[k].files);
        assert(marked[k as int] == dirs@[k as int]@);
        let project = ProjectContext {
            key: ProjectKey {
                workspace_root_id: workspace_root_id.clone(),
                project_path: dirs[k].path.clone(),
            },
            workspace_name: workspace_name.clone(),
            marker_files: list_markers(files),
        };
        assert(project@ == want[k as int]);
        projects.push(project);
        k = k + 1;
        assert(project_views(projects@) =~= before.push(want[k - 1]));
        assert(project_views(projects@) =~= want.subrange(0, k as int));
    }
    assert(project_views(projects@) =~= want);
    ProjectContextIndex::new(workspace_root_id, workspace_name, projects)
}

fn copy_names(names: &Vec<String>) -> (r: Vec<String>)
    ensures
        texts(r@) == texts(names@),
{
    let mut out: Vec<String> = Vec::new();
    let mut i: usize = 0;
    while i < names.len()
        invariant
            i <= names@.len(),
            texts(out@) == texts(names@).subrange(0, i as int),
        decreases names@.len() - i,
    {
        let ghost before = texts(out@);
        out.push(names[i].clone());
        i = i + 1;
        assert(texts(out@) =~= before.push(names@[i - 1]@));
        assert(texts(out@) =~= texts(names@).subrange(0, i as int));
    }
    assert(texts(out@) =~= texts(names@));
    out
}

// ---------------------------------------------------------------------------
// Laws

/// The project of a file owns a directory that the file is in, and no project
/// that does is deeper. A file has a project wherever one owns a directory of
/// it.
pub proof fn nearest_is_deepest_owner(projects: Seq<Project>, path: Seq<char>, n: int)
    requires
        0 <= n <= projects.len(),
    ensures
        match nearest_below(projects, path, n) {
            Some(key) => {
                &&& at_or_under(path, key.path)
                &&& exists|i: int| 0 <= i < n && (#[trigger] projects[i]).key == key
                &&& forall|i: int|
                    0 <= i < n && at_or_under(path, (#[trigger] projects[i]).key.path) ==> depth(
                        projects[i].key.path,
                    ) <= depth(key.path)
            },
            None => forall|i: int|
                0 <= i < n ==> !at_or_under(path, (#[trigger] projects[i]).key.path),
        },
    decreases n,
{
    if n > 0 {
        nearest_is_deepest_owner(projects, path, n - 1);
        let before = nearest_below(projects, path, n - 1);
        let now = nearest_below(projects, path, n);
        if now is Some {
            if now == Some(projects[n - 1].key) {
                assert(projects[n - 1].key == now->0);
            } else {
                let i = choose|i: int| 0 <= i < n - 1 && (#[trigger] projects[i]).key == before->0;
                assert(projects[i].key == now->0);
            }
        }
    }
}

} // verus!

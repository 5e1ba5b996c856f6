//! Which projects a workspace has, told by the files met in it.

use vstd::prelude::*;

use crate::chars::chars_lower;
use crate::order::{
    in_order, stable_sort, stable_sort_is_in_order, stable_sort_is_permutation,
    stable_sort_takes_from, strict_weak, text_before, text_before_is_total,
    text_before_is_transitive, Order,
};
use crate::project_context::{
    dir_from, marked_below, marker_list, marker_name, normalized, projects_of,
    same_ignoring_case, slash_run_end, slash_run_start, with_marker, with_slashes,
    without_repeats, FoundFile, MarkedDir, NameOrder, Project, ProjectOrder,
};

verus! {

// ---------------------------------------------------------------------------
// Spellings

/// The small letter of a capital.
pub open spec fn small(c: char) -> char {
    if 'A' <= c && c <= 'Z' {
        ((c as u8 + 32) as u8) as char
    } else {
        c
    }
}

/// Two texts that differ in capitals at most.
pub open spec fn alike(a: Seq<char>, b: Seq<char>) -> bool {
    a.len() == b.len() && forall|i: int|
        0 <= i < a.len() ==> small(#[trigger] a[i]) == small(b[i])
}

proof fn alike_is_same(a: Seq<char>, b: Seq<char>)
    ensures
        alike(a, b) == same_ignoring_case(a, b),
{
    let (x, y) = (chars_lower(a), chars_lower(b));
    if alike(a, b) {
        assert forall|i: int| 0 <= i < a.len() implies x[i] == y[i] by {
            assert(small(a[i]) == small(b[i]));
        }
        assert(x =~= y);
    }
    if same_ignoring_case(a, b) {
        assert(x.len() == y.len());
        assert forall|i: int| 0 <= i < a.len() implies small(#[trigger] a[i]) == small(b[i]) by {
            assert(x[i] == y[i]);
        }
    }
}

/// A directory is known by its path with forward slashes and none at its ends.
pub proof fn slashes_at_the_ends_are_dropped(lead: Seq<char>, path: Seq<char>, trail: Seq<char>)
    requires
        forall|i: int| 0 <= i < lead.len() ==> (#[trigger] lead[i] == '/' || lead[i] == '\\'),
        forall|i: int| 0 <= i < trail.len() ==> (#[trigger] trail[i] == '/' || trail[i] == '\\'),
        forall|i: int| 0 <= i < path.len() ==> #[trigger] path[i] != '\\',
        path.len() > 0,
        path[0] != '/',
        path.last() != '/',
    ensures
        normalized(lead + path + trail) == path,
{
    let whole = lead + path + trail;
    let s = with_slashes(whole);
    let a = lead.len() as int;
    let b = a + path.len();
    assert forall|i: int| 0 <= i < a implies s[i] == '/' by {
        assert(whole[i] == lead[i]);
    }
    assert forall|i: int| b <= i < s.len() implies s[i] == '/' by {
        assert(whole[i] == trail[i - b]);
    }
    assert forall|i: int| a <= i < b implies s[i] == path[i - a] by {
        assert(whole[i] == path[i - a]);
    }
    assert(s[a] == path[0]);
    assert(s[b - 1] == path.last());
    slashes_before(s, 0, a);
    slashes_behind(s, a, b, s.len() as int);
    assert(s.subrange(a, b) =~= path);
}

proof fn slashes_before(s: Seq<char>, i: int, end: int)
    requires
        0 <= i <= end < s.len(),
        forall|k: int| i <= k < end ==> s[k] == '/',
        s[end] != '/',
    ensures
        slash_run_end(s, i) == end,
    decreases end - i,
{
    if i < end {
        slashes_before(s, i + 1, end);
    }
}

proof fn slashes_behind(s: Seq<char>, from: int, start: int, end: int)
    requires
        0 <= from < start <= end <= s.len(),
        forall|k: int| start <= k < end ==> s[k] == '/',
        s[start - 1] != '/',
    ensures
        slash_run_start(s, from, end) == start,
    decreases end - start,
{
    if start < end {
        slashes_behind(s, from, start, end - 1);
    }
}

// ---------------------------------------------------------------------------
// Marked directories

/// File `i` marks the directory `path`.
pub open spec fn marks(found: Seq<FoundFile>, i: int, path: Seq<char>) -> bool {
    marker_name(found[i].file_name@) && alike(normalized(found[i].directory@), path)
}

spec fn are_marked(found: Seq<FoundFile>, n: int, dirs: Seq<MarkedDir>) -> bool {
    &&& forall|j: int, k: int|
        0 <= j < k < dirs.len() ==> !alike(#[trigger] dirs[j].path, #[trigger] dirs[k].path)
    &&& forall|k: int| 0 <= k < dirs.len() ==> (#[trigger] dirs[k]).files.len() > 0
    &&& forall|k: int, f: int|
        0 <= k < dirs.len() && 0 <= f < dirs[k].files.len() ==> comes_from(
            found,
            n,
            dirs[k].path,
            #[trigger] dirs[k].files[f],
        )
    &&& forall|i: int|
        0 <= i < n && marker_name((#[trigger] found[i]).file_name@) ==> is_recorded(
            dirs,
            normalized(found[i].directory@),
            found[i].file_name@,
        )
}

/// The name is that of a file among the first `n` that marks the directory.
pub open spec fn comes_from(
    found: Seq<FoundFile>,
    n: int,
    path: Seq<char>,
    name: Seq<char>,
) -> bool {
    exists|i: int| 0 <= i < n && #[trigger] marks(found, i, path) && found[i].file_name@ == name
}

spec fn is_recorded(dirs: Seq<MarkedDir>, path: Seq<char>, name: Seq<char>) -> bool {
    exists|k: int, f: int|
        0 <= k < dirs.len() && 0 <= f < dirs[k].files.len() && alike(dirs[k].path, path)
            && #[trigger] dirs[k].files[f] == name
}

proof fn dir_is_found(dirs: Seq<MarkedDir>, path: Seq<char>, i: int)
    requires
        0 <= i,
    ensures
        match dir_from(dirs, path, i) {
            Some(k) => i <= k < dirs.len() && alike(dirs[k].path, path),
            None => forall|k: int| i <= k < dirs.len() ==> !alike(#[trigger] dirs[k].path, path),
        },
    decreases dirs.len() - i,
{
    if i < dirs.len() {
        alike_is_same(dirs[i].path, path);
        if !same_ignoring_case(dirs[i].path, path) {
            dir_is_found(dirs, path, i + 1);
        }
    }
}

proof fn comes_from_more(found: Seq<FoundFile>, n: int, path: Seq<char>, name: Seq<char>)
    requires
        comes_from(found, n, path, name),
    ensures
        comes_from(found, n + 1, path, name),
{
    let i = choose|i: int|
        0 <= i < n && #[trigger] marks(found, i, path) && found[i].file_name@ == name;
    assert(marks(found, i, path));
}

proof fn recorded_more(
    dirs: Seq<MarkedDir>,
    next: Seq<MarkedDir>,
    path: Seq<char>,
    name: Seq<char>,
)
    requires
        is_recorded(dirs, path, name),
        dirs.len() <= next.len(),
        forall|k: int|
            0 <= k < dirs.len() ==> (#[trigger] next[k]).path == dirs[k].path && dirs[k].files.len()
                <= next[k].files.len(),
        forall|k: int, f: int|
            0 <= k < dirs.len() && 0 <= f < dirs[k].files.len() ==> #[trigger] next[k].files[f]
                == dirs[k].files[f],
    ensures
        is_recorded(next, path, name),
{
    let (k, f) = choose|k: int, f: int|
        0 <= k < dirs.len() && 0 <= f < dirs[k].files.len() && alike(dirs[k].path, path)
            && #[trigger] dirs[k].files[f] == name;
    assert(next[k].files[f] == dirs[k].files[f]);
    assert(next[k].path == dirs[k].path);
}

proof fn marker_added(found: Seq<FoundFile>, n: int, dirs: Seq<MarkedDir>)
    requires
        0 <= n < found.len(),
        are_marked(found, n, dirs),
        marker_name(found[n].file_name@),
    ensures
        are_marked(
            found,
            n + 1,
            with_marker(dirs, normalized(found[n].directory@), found[n].file_name@),
        ),
{
    let path = normalized(found[n].directory@);
    let name = found[n].file_name@;
    let next = with_marker(dirs, path, name);
    dir_is_found(dirs, path, 0);
    let at = match dir_from(dirs, path, 0) {
        Some(k) => k,
        None => dirs.len() as int,
    };
    let last = next[at].files.len() - 1;
    assert(next[at].files[last] == name);
    alike_is_same(path, next[at].path);
    alike_is_same(next[at].path, path);
    assert(alike(next[at].path, path));
    assert(marks(found, n, next[at].path));
    assert forall|k: int, f: int|
        0 <= k < dirs.len() && 0 <= f < dirs[k].files.len() implies #[trigger] next[k].files[f]
        == dirs[k].files[f] by {
        if k == at {
            assert(next[k].files == dirs[k].files.push(name));
        }
    }
    assert forall|k: int| 0 <= k < dirs.len() implies (#[trigger] next[k]).path == dirs[k].path
        && dirs[k].files.len() <= next[k].files.len() by {}
    assert forall|j: int, k: int| 0 <= j < k < next.len() implies !alike(
        #[trigger] next[j].path,
        #[trigger] next[k].path,
    ) by {
        if k < dirs.len() {
            assert(!alike(dirs[j].path, dirs[k].path));
        } else {
            assert(!alike(dirs[j].path, path));
        }
    }
    assert forall|k: int, f: int| 0 <= k < next.len() && 0 <= f < next[k].files.len() implies
        comes_from(found, n + 1, next[k].path, #[trigger] next[k].files[f]) by {
        if k < dirs.len() && f < dirs[k].files.len() {
            assert(next[k].files[f] == dirs[k].files[f]);
            comes_from_more(found, n, dirs[k].path, dirs[k].files[f]);
        } else {
            assert(k == at);
            assert(f == last);
        }
    }
    assert forall|i: int|
        0 <= i < n + 1 && marker_name((#[trigger] found[i]).file_name@) implies is_recorded(
        next,
        normalized(found[i].directory@),
        found[i].file_name@,
    ) by {
        if i < n {
            recorded_more(dirs, next, normalized(found[i].directory@), found[i].file_name@);
        }
    }
}

proof fn all_are_marked(found: Seq<FoundFile>, n: int)
    requires
        0 <= n <= found.len(),
    ensures
        are_marked(found, n, marked_below(found, n)),
    decreases n,
{
    if n > 0 {
        all_are_marked(found, n - 1);
        let dirs = marked_below(found, n - 1);
        if marker_name(found[n - 1].file_name@) {
            marker_added(found, n - 1, dirs);
        } else {
            assert forall|k: int, f: int|
                0 <= k < dirs.len() && 0 <= f < dirs[k].files.len() implies comes_from(
                found,
                n,
                dirs[k].path,
                #[trigger] dirs[k].files[f],
            ) by {
                comes_from_more(found, n - 1, dirs[k].path, dirs[k].files[f]);
            }
        }
    }
}

// ---------------------------------------------------------------------------
// Lists of markers

proof fn name_order_is_strict_weak()
    ensures
        strict_weak::<Seq<char>, NameOrder>(),
{
    assert forall|a: Seq<char>, b: Seq<char>|
        <NameOrder as Order<Seq<char>>>::before(a, b) implies !#[trigger] <NameOrder as Order<
        Seq<char>,
    >>::before(b, a) by {
        text_before_is_total(chars_lower(a), chars_lower(b));
    }
    assert forall|a: Seq<char>, b: Seq<char>, c: Seq<char>|
        !(#[trigger] <NameOrder as Order<Seq<char>>>::before(a, b)) && !(
        #[trigger] <NameOrder as Order<Seq<char>>>::before(b, c)) implies !<NameOrder as Order<
        Seq<char>,
    >>::before(a, c) by {
        let (x, y, z) = (chars_lower(a), chars_lower(b), chars_lower(c));
        text_before_is_total(x, y);
        text_before_is_total(y, z);
        text_before_is_total(x, z);
        if text_before(x, z) && text_before(y, x) {
            text_before_is_transitive(y, x, z);
        }
    }
}

proof fn last_is_kept(s: Seq<Seq<char>>)
    requires
        s.len() > 0,
    ensures
        without_repeats(s).len() > 0,
        alike(without_repeats(s).last(), s.last()),
{
    let head = without_repeats(s.drop_last());
    let x = s.last();
    alike_is_same(x, x);
    if head.len() > 0 {
        alike_is_same(head.last(), x);
    }
}

proof fn repeats_dropped(s: Seq<Seq<char>>)
    ensures
        forall|k: int|
            0 <= k < without_repeats(s).len() ==> s.contains(#[trigger] without_repeats(s)[k]),
        forall|i: int| 0 <= i < s.len() ==> has_alike(without_repeats(s), #[trigger] s[i]),
    decreases s.len(),
{
    if s.len() > 0 {
        let short = s.drop_last();
        let head = without_repeats(short);
        let r = without_repeats(s);
        repeats_dropped(short);
        last_is_kept(s);
        assert forall|k: int| 0 <= k < r.len() implies s.contains(#[trigger] r[k]) by {
            if k < head.len() {
                assert(r[k] == head[k]);
                let m = choose|m: int| 0 <= m < short.len() && short[m] == head[k];
                assert(s[m] == r[k]);
            } else {
                assert(s[s.len() - 1] == r[k]);
            }
        }
        assert forall|i: int| 0 <= i < s.len() implies has_alike(r, #[trigger] s[i]) by {
            if i < short.len() {
                assert(has_alike(head, short[i]));
                let k = choose|k: int| 0 <= k < head.len() && alike(#[trigger] head[k], short[i]);
                assert(r[k] == head[k]);
                assert(alike(r[k], s[i]));
            } else {
                assert(alike(r[r.len() - 1], s[i]));
            }
        }
    }
}

proof fn kept_in_order(s: Seq<Seq<char>>)
    requires
        in_order::<Seq<char>, NameOrder>(s),
    ensures
        forall|j: int, k: int|
            0 <= j < k < without_repeats(s).len() ==> text_before(
                chars_lower(#[trigger] without_repeats(s)[j]),
                chars_lower(#[trigger] without_repeats(s)[k]),
            ),
    decreases s.len(),
{
    if s.len() > 0 {
        let short = s.drop_last();
        let head = without_repeats(short);
        let r = without_repeats(s);
        assert forall|i: int, j: int| 0 <= i < j < short.len() implies !<NameOrder as Order<
            Seq<char>,
        >>::before(#[trigger] short[j], #[trigger] short[i]) by {
            assert(!<NameOrder as Order<Seq<char>>>::before(s[j], s[i]));
        }
        kept_in_order(short);
        if head.len() > 0 && r.len() > head.len() {
            let x = s.last();
            assert(short.len() > 0);
            last_is_kept(short);
            let h = head.last();
            alike_is_same(h, short.last());
            let (lh, lx) = (chars_lower(h), chars_lower(x));
            assert(!<NameOrder as Order<Seq<char>>>::before(s[s.len() - 1], s[short.len() - 1]));
            text_before_is_total(lh, lx);
            assert(text_before(lh, lx));
            assert forall|j: int, k: int| 0 <= j < k < r.len() implies text_before(
                chars_lower(#[trigger] r[j]),
                chars_lower(#[trigger] r[k]),
            ) by {
                assert(r[j] == head[j]);
                if k < head.len() {
                    assert(r[k] == head[k]);
                } else if j < head.len() - 1 {
                    assert(text_before(chars_lower(head[j]), chars_lower(head[head.len() - 1])));
                    text_before_is_transitive(chars_lower(head[j]), lh, lx);
                }
            }
        }
    }
}

/// One of the names is spelled so, capitals aside.
pub open spec fn has_alike(names: Seq<Seq<char>>, name: Seq<char>) -> bool {
    exists|k: int| 0 <= k < names.len() && alike(#[trigger] names[k], name)
}

proof fn markers_listed(files: Seq<Seq<char>>)
    ensures
        ({
            let r = marker_list(files);
            &&& forall|k: int| 0 <= k < r.len() ==> files.contains(#[trigger] r[k])
            &&& forall|i: int| 0 <= i < files.len() ==> has_alike(r, #[trigger] files[i])
            &&& forall|j: int, k: int|
                0 <= j < k < r.len() ==> text_before(
                    chars_lower(#[trigger] r[j]),
                    chars_lower(#[trigger] r[k]),
                )
        }),
{
    broadcast use vstd::seq_lib::group_to_multiset_ensures;

    let s = stable_sort::<Seq<char>, NameOrder>(files);
    name_order_is_strict_weak();
    stable_sort_is_in_order::<Seq<char>, NameOrder>(files);
    stable_sort_is_permutation::<Seq<char>, NameOrder>(files);
    repeats_dropped(s);
    kept_in_order(s);
    let r = marker_list(files);
    assert forall|k: int| 0 <= k < r.len() implies files.contains(#[trigger] r[k]) by {
        assert(s.contains(r[k]));
        let m = choose|m: int| 0 <= m < s.len() && s[m] == r[k];
        stable_sort_takes_from::<Seq<char>, NameOrder>(files, m);
    }
    assert forall|i: int| 0 <= i < files.len() implies has_alike(r, #[trigger] files[i]) by {
        assert(files.contains(files[i]));
        assert(files.to_multiset().count(files[i]) > 0);
        assert(s.contains(files[i]));
        let m = choose|m: int| 0 <= m < s.len() && s[m] == files[i];
        assert(has_alike(r, s[m]));
    }
}

// ---------------------------------------------------------------------------
// Projects

/// The projects of a workspace are its marked directories: each directory
/// with a marker file is one project and no more, each project has such a
/// directory, and lists exactly the directory's marker files, each once.
pub proof fn projects_are_the_marked_directories(
    found: Seq<FoundFile>,
    root: Seq<char>,
    name: Seq<char>,
)
    ensures
        ({
            let projects = stable_sort::<Project, ProjectOrder>(
                projects_of(marked_below(found, found.len() as int), root, name),
            );
            &&& forall|j: int, k: int|
                0 <= j < projects.len() && 0 <= k < projects.len() && j != k ==> !alike(
                    #[trigger] projects[j].key.path,
                    #[trigger] projects[k].key.path,
                )
            &&& forall|k: int| 0 <= k < projects.len() ==> is_marked(#[trigger] projects[k], found)
            &&& forall|i: int|
                0 <= i < found.len() && marker_name((#[trigger] found[i]).file_name@)
                    ==> has_project(projects, found[i])
        }),
{
    let n = found.len() as int;
    let dirs = marked_below(found, n);
    let made = projects_of(dirs, root, name);
    let projects = stable_sort::<Project, ProjectOrder>(made);
    all_are_marked(found, n);
    stable_sort_is_permutation::<Project, ProjectOrder>(made);
    every_project_is_marked(found, dirs, made, projects);
    every_marker_has_a_project(found, dirs, made, projects);
    paths_stay_apart(dirs, made, projects);
}

proof fn every_project_is_marked(
    found: Seq<FoundFile>,
    dirs: Seq<MarkedDir>,
    made: Seq<Project>,
    projects: Seq<Project>,
)
    requires
        are_marked(found, found.len() as int, dirs),
        made.len() == dirs.len(),
        forall|k: int|
            0 <= k < made.len() ==> (#[trigger] made[k]).key.path == dirs[k].path
                && made[k].marker_files == marker_list(dirs[k].files),
        projects.to_multiset() == made.to_multiset(),
    ensures
        forall|k: int| 0 <= k < projects.len() ==> is_marked(#[trigger] projects[k], found),
{
    broadcast use vstd::seq_lib::group_to_multiset_ensures;

    assert forall|k: int| 0 <= k < projects.len() implies is_marked(
        #[trigger] projects[k],
        found,
    ) by {
        let p = projects[k];
        assert(projects.contains(p));
        assert(made.to_multiset().count(p) > 0);
        assert(made.contains(p));
        let m = choose|m: int| 0 <= m < made.len() && made[m] == p;
        assert(made[m].key.path == dirs[m].path);
        project_is_marked(found, dirs, m, p);
    }
}

proof fn every_marker_has_a_project(
    found: Seq<FoundFile>,
    dirs: Seq<MarkedDir>,
    made: Seq<Project>,
    projects: Seq<Project>,
)
    requires
        are_marked(found, found.len() as int, dirs),
        made.len() == dirs.len(),
        forall|k: int|
            0 <= k < made.len() ==> (#[trigger] made[k]).key.path == dirs[k].path
                && made[k].marker_files == marker_list(dirs[k].files),
        projects.to_multiset() == made.to_multiset(),
    ensures
        forall|i: int|
            0 <= i < found.len() && marker_name((#[trigger] found[i]).file_name@) ==> has_project(
                projects,
                found[i],
            ),
{
    assert forall|i: int|
        0 <= i < found.len() && marker_name((#[trigger] found[i]).file_name@) implies has_project(
        projects,
        found[i],
    ) by {
        project_is_made(found, dirs, made, i);
        project_stays(made, projects, found[i]);
    }
}

/// A project that lists what marks its directory, by name and each once.
pub open spec fn is_marked(project: Project, found: Seq<FoundFile>) -> bool {
    let files = project.marker_files;
    &&& files.len() > 0
    &&& forall|k: int|
        0 <= k < files.len() ==> comes_from(
            found,
            found.len() as int,
            project.key.path,
            #[trigger] files[k],
        )
    &&& forall|j: int, k: int|
        0 <= j < k < files.len() ==> text_before(
            chars_lower(#[trigger] files[j]),
            chars_lower(#[trigger] files[k]),
        )
}

/// The directory of a marker file is a project that lists the file.
pub open spec fn has_project(projects: Seq<Project>, file: FoundFile) -> bool {
    exists|k: int|
        0 <= k < projects.len() && alike(
            (#[trigger] projects[k]).key.path,
            normalized(file.directory@),
        ) && has_alike(projects[k].marker_files, file.file_name@)
}

proof fn project_is_made(
    found: Seq<FoundFile>,
    dirs: Seq<MarkedDir>,
    made: Seq<Project>,
    i: int,
)
    requires
        0 <= i < found.len(),
        marker_name(found[i].file_name@),
        are_marked(found, found.len() as int, dirs),
        made.len() == dirs.len(),
        forall|k: int|
            0 <= k < made.len() ==> (#[trigger] made[k]).key.path == dirs[k].path
                && made[k].marker_files == marker_list(dirs[k].files),
    ensures
        has_project(made, found[i]),
{
    let path = normalized(found[i].directory@);
    assert(is_recorded(dirs, path, found[i].file_name@));
    let (m, f) = choose|m: int, f: int|
        0 <= m < dirs.len() && 0 <= f < dirs[m].files.len() && alike(dirs[m].path, path)
            && #[trigger] dirs[m].files[f] == found[i].file_name@;
    markers_listed(dirs[m].files);
    assert(made[m].key.path == dirs[m].path);
    assert(has_alike(made[m].marker_files, dirs[m].files[f]));
}

proof fn project_stays(made: Seq<Project>, projects: Seq<Project>, file: FoundFile)
    requires
        has_project(made, file),
        projects.to_multiset() == made.to_multiset(),
    ensures
        has_project(projects, file),
{
    broadcast use vstd::seq_lib::group_to_multiset_ensures;

    let m = choose|m: int|
        0 <= m < made.len() && alike((#[trigger] made[m]).key.path, normalized(file.directory@))
            && has_alike(made[m].marker_files, file.file_name@);
    assert(made.contains(made[m]));
    assert(made.to_multiset().count(made[m]) > 0);
    assert(projects.contains(made[m]));
    let k = choose|k: int| 0 <= k < projects.len() && projects[k] == made[m];
    assert(projects[k] == made[m]);
}

proof fn project_is_marked(found: Seq<FoundFile>, dirs: Seq<MarkedDir>, m: int, project: Project)
    requires
        are_marked(found, found.len() as int, dirs),
        0 <= m < dirs.len(),
        project.key.path == dirs[m].path,
        project.marker_files == marker_list(dirs[m].files),
    ensures
        is_marked(project, found),
{
    let files = project.marker_files;
    markers_listed(dirs[m].files);
    assert(dirs[m].files.len() > 0);
    assert(has_alike(files, dirs[m].files[0]));
    assert forall|k: int| 0 <= k < files.len() implies comes_from(
        found,
        found.len() as int,
        project.key.path,
        #[trigger] files[k],
    ) by {
        assert(dirs[m].files.contains(files[k]));
        let f = choose|f: int| 0 <= f < dirs[m].files.len() && dirs[m].files[f] == files[k];
        assert(comes_from(found, found.len() as int, dirs[m].path, dirs[m].files[f]));
    }
}

proof fn paths_stay_apart(dirs: Seq<MarkedDir>, made: Seq<Project>, projects: Seq<Project>)
    requires
        made.len() == dirs.len(),
        forall|k: int| 0 <= k < made.len() ==> (#[trigger] made[k]).key.path == dirs[k].path,
        forall|j: int, k: int|
            0 <= j < k < dirs.len() ==> !alike(#[trigger] dirs[j].path, #[trigger] dirs[k].path),
        projects.to_multiset() == made.to_multiset(),
    ensures
        forall|j: int, k: int|
            0 <= j < projects.len() && 0 <= k < projects.len() && j != k ==> !alike(
                #[trigger] projects[j].key.path,
                #[trigger] projects[k].key.path,
            ),
{
    broadcast use vstd::seq_lib::group_to_multiset_ensures;

    assert forall|p: Project| #[trigger] made.to_multiset().count(p) <= 1 by {
        once(made, p);
    }
    assert forall|j: int, k: int|
        0 <= j < projects.len() && 0 <= k < projects.len() && j != k implies !alike(
        #[trigger] projects[j].key.path,
        #[trigger] projects[k].key.path,
    ) by {
        let (p, q) = (projects[j], projects[k]);
        assert(projects.contains(p) && projects.contains(q));
        assert(made.to_multiset().count(p) > 0 && made.to_multiset().count(q) > 0);
        assert(made.contains(p) && made.contains(q));
        let a = choose|a: int| 0 <= a < made.len() && made[a] == p;
        let b = choose|b: int| 0 <= b < made.len() && made[b] == q;
        if a == b {
            twice(projects, j, k);
            assert(made.to_multiset().count(p) <= 1);
        } else {
            assert(made[a].key.path == dirs[a].path && made[b].key.path == dirs[b].path);
            alike_is_same(p.key.path, q.key.path);
            alike_is_same(q.key.path, p.key.path);
            if a < b {
                assert(!alike(dirs[a].path, dirs[b].path));
            } else {
                assert(!alike(dirs[b].path, dirs[a].path));
            }
        }
    }
}

proof fn once(made: Seq<Project>, p: Project)
    requires
        forall|j: int, k: int|
            0 <= j < k < made.len() ==> !alike(
                #[trigger] made[j].key.path,
                #[trigger] made[k].key.path,
            ),
    ensures
        made.to_multiset().count(p) <= 1,
{
    assert(made.no_duplicates()) by {
        assert forall|j: int, k: int| 0 <= j < k < made.len() implies made[j] != made[k] by {
            assert(!alike(made[j].key.path, made[k].key.path));
            alike_is_same(made[j].key.path, made[k].key.path);
        }
    }
    made.lemma_multiset_has_no_duplicates();
    if made.to_multiset().contains(p) {
        assert(made.to_multiset().count(p) == 1);
    }
}

proof fn twice(s: Seq<Project>, j: int, k: int)
    requires
        0 <= j < s.len(),
        0 <= k < s.len(),
        j != k,
        s[j] == s[k],
    ensures
        s.to_multiset().count(s[j]) >= 2,
{
    broadcast use vstd::seq_lib::group_to_multiset_ensures;

    let rest = s.remove(j);
    let i = if k < j {
        k
    } else {
        k - 1
    };
    assert(rest[i] == s[k]);
    assert(rest.contains(s[j]));
    assert(rest.to_multiset().count(s[j]) > 0);
    assert(rest.to_multiset() =~= s.to_multiset().remove(s[j]));
}

} // verus!

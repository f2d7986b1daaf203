use vstd::prelude::*;

use crate::constants::{
    contains_index, parse_semester_indices, find_semester_by_folder, get_semester_title_by_folder, lemma_find_by_folder_found,
    lemma_semester_table_distinct, parse_semester_folders, parsed_semesters, semester_entry,
    semester_table, SEMESTER_COUNT,
};
use crate::generator::{
    grading_entries, grading_view, hour_meta, lemma_grading_entries_view,
    build_frontmatter, frontmatter_shows, minimal_course, missing_notice, missing_repo_notice,
    mdx_title, readme_body, readme_body_content, sort_semester_cards, title_from_mdx,
    SemesterCourseCard,
};
use crate::loader::{details_view, copy_details, GradesSummary};
use crate::models::{Course, FileNode, Frontmatter, GradeDetail, Plan, SharedCategory, WorktreeData};
use crate::sorting::{is_permutation, sorted_by_le};
use crate::text::lex_le;
use crate::table::{lemma_lookup_is_entry, StrTable};
use crate::text::{
    join, join_chars, push_chars, push_str, str_eq, string_from_chars, to_chars,
};
use crate::tree::{
    build_file_tree, forest_shows, jsx_text, lemma_forest_depth_bounded, paths_within,
    timestamps_in_range, tree_to_jsx,
};

verus! {

broadcast use vstd::string::group_string_axioms;

/// The text of each string.
pub open spec fn strings_view(v: Seq<String>) -> Seq<Seq<char>> {
    v.map_values(|s: String| s@)
}

/// The pieces of each path.
pub open spec fn paths_view(v: Seq<Vec<String>>) -> Seq<Seq<Seq<char>>> {
    v.map_values(|p: Vec<String>| strings_view(p@))
}

/// What the files of a course repository in `repos/` hold: the text of its README
/// when `{repo_id}.mdx` exists, and then its worktree when `{repo_id}.json`
/// exists too.
#[derive(Debug)]
pub struct RepoSource {
    pub readme: Option<String>,
    pub worktree: Option<WorktreeData>,
}

/// The repository sources, by repository ID.
pub type RepoSources = StrTable<RepoSource>;

/// A worktree whose tree can be built and rendered: timestamps the calendar can
/// show, and paths of fewer pieces than half the largest allocation.
pub open spec fn worktree_fits(w: WorktreeData) -> bool {
    &&& timestamps_in_range(w.0.entry_list())
    &&& paths_within(w.0.entry_list(), isize::MAX / 2 - 1)
}

/// Every worktree among the sources fits.
pub open spec fn sources_fit(sources: RepoSources) -> bool {
    forall|i: int|
        #![trigger sources.entry_list()[i]]
        0 <= i < sources.entry_list().len() ==> (sources.entry_list()[i].1.worktree matches Some(w)
            ==> worktree_fits(w))
}

/// The README of repository `repo`, if its source has one.
pub open spec fn source_readme(sources: RepoSources, repo: Seq<char>) -> Option<Seq<char>> {
    match sources.lookup(repo) {
        Some(s) => match s.readme {
            Some(r) => Some(r@),
            None => None,
        },
        None => None,
    }
}

/// The worktree of repository `repo`, if its source has one.
pub open spec fn source_worktree(sources: RepoSources, repo: Seq<char>) -> Option<WorktreeData> {
    match sources.lookup(repo) {
        Some(s) => s.worktree,
        None => None,
    }
}

/// The download section of a course page around the JSX of its file tree.
pub open spec fn files_section(repo: Seq<char>, jsx: Seq<char>) -> Seq<char> {
    "\n\n## 资源下载\n\n<Files url=\"https://open.osa.moe/openauto/"@ + repo + "\">\n"@ + jsx
        + "\n</Files>"@
}

/// `filetree` is the download section of `repo`'s worktree (empty without one):
/// the JSX, from level 1, of a file tree of the worktree.
pub open spec fn tree_section_shows(
    filetree: Seq<char>,
    repo: Seq<char>,
    worktree: Option<WorktreeData>,
) -> bool {
    match worktree {
        None => filetree.len() == 0,
        Some(w) => exists|t: Seq<FileNode>|
            forest_shows(t, w.0.entry_list(), repo, Seq::empty()) && filetree == files_section(
                repo,
                jsx_text(t, 1),
            ),
    }
}

/// The download section of a course page.
fn tree_section(repo: &str, worktree: &Option<WorktreeData>) -> (r: String)
    requires
        *worktree matches Some(w) ==> worktree_fits(w),
    ensures
        tree_section_shows(r@, repo@, *worktree),
{
    match worktree {
        None => String::new(),
        Some(w) => {
            let tree = build_file_tree(w, repo);
            proof {
                lemma_forest_depth_bounded(tree@, w.0.entry_list(), repo@, Seq::empty(), isize::MAX / 2 - 1);
            }
            let jsx = tree_to_jsx(tree.as_slice(), 1);
            let mut r = String::new();
            push_str(&mut r, "\n\n## 资源下载\n\n<Files url=\"https://open.osa.moe/openauto/");
            push_str(&mut r, repo);
            push_str(&mut r, "\">\n");
            push_str(&mut r, jsx.as_str());
            push_str(&mut r, "\n</Files>");
            assert(forest_shows(tree@, w.0.entry_list(), repo@, Seq::empty()) && r@ == files_section(
                repo@,
                jsx_text(tree@, 1),
            ));
            r
        },
    }
}

/// The source of `repo`, and its facts.
fn find_source<'a>(sources: &'a RepoSources, repo: &str) -> (r: Option<&'a RepoSource>)
    requires
        sources_fit(*sources),
    ensures
        match r {
            Some(s) => sources.lookup(repo@) == Some(*s) && (s.worktree matches Some(w)
                ==> worktree_fits(w)),
            None => sources.lookup(repo@) is None,
        },
{
    let r = sources.get(repo);
    proof {
        lemma_lookup_is_entry(sources.entry_list(), repo@);
    }
    r
}

/// `content` and `filetree` are the body of `repo`'s course page: the README
/// without its title lines and the download section, or, without a README, the
/// notice that the repository is missing.
pub open spec fn body_shows(
    content: Seq<char>,
    filetree: Seq<char>,
    repo: Seq<char>,
    sources: RepoSources,
) -> bool {
    match source_readme(sources, repo) {
        None => content == missing_notice(repo) && filetree.len() == 0,
        Some(r) => content == readme_body(r) && tree_section_shows(
            filetree,
            repo,
            source_worktree(sources, repo),
        ),
    }
}

/// The body of `repo`'s course page.
pub fn course_body(repo: &str, sources: &RepoSources) -> (r: (String, String))
    requires
        sources_fit(*sources),
    ensures
        body_shows(r.0@, r.1@, repo@, *sources),
{
    match find_source(sources, repo) {
        Some(src) => match &src.readme {
            Some(readme) => {
                let content = readme_body_content(readme.as_str());
                let filetree = tree_section(repo, &src.worktree);
                (content, filetree)
            },
            None => (missing_repo_notice(repo), String::new()),
        },
        None => (missing_repo_notice(repo), String::new()),
    }
}

// ---------------------------------------------------------------------------
// Course pages of a plan
// ---------------------------------------------------------------------------

/// A page to write: its paths (relative to the docs directory), its front matter
/// (serialized by the writer), and the rest of its text.
#[derive(Debug)]
pub struct PageDraft {
    pub paths: Vec<Vec<String>>,
    pub frontmatter: Frontmatter,
    pub content: String,
    pub filetree: String,
    pub use_course_info: bool,
}

/// An index page: its path (relative to the docs directory) and text.
#[derive(Debug)]
pub struct IndexPage {
    pub path: Vec<String>,
    pub content: String,
}

/// Semesters (rows of the semester table) that course `c` is recommended for.
pub open spec fn course_semesters(c: Course) -> Seq<int> {
    match c.recommended_semester {
        Some(s) => parsed_semesters(s@),
        None => Seq::empty(),
    }
}

/// Where course `c` of `plan` is written: under each of its semesters, or under
/// the major when it has none.
pub open spec fn course_page_paths(plan: Plan, c: Course) -> Seq<Seq<Seq<char>>> {
    let file = c.repo_id@ + ".mdx"@;
    let sems = course_semesters(c);
    if sems.len() == 0 {
        seq![seq![plan.year@, plan.major_code@, file]]
    } else {
        Seq::new(
            sems.len(),
            |k: int| seq![plan.year@, plan.major_code@, semester_table()[sems[k]].1, file],
        )
    }
}

/// A course's page goes to `{year}/{code}/{repo_id}.mdx` when it names no known
/// semester, and otherwise to `{year}/{code}/{folder}/{repo_id}.mdx` for the folder
/// of each semester it names, in the order named.
pub proof fn law_course_page_paths(plan: Plan, c: Course)
    ensures
        course_semesters(c).len() == 0 ==> course_page_paths(plan, c) == seq![
            seq![plan.year@, plan.major_code@, c.repo_id@ + ".mdx"@],
        ],
        course_semesters(c).len() > 0 ==> course_page_paths(plan, c).len() == course_semesters(c).len(),
        forall|k: int|
            0 <= k < course_semesters(c).len() ==> #[trigger] course_page_paths(plan, c)[k] == seq![
                plan.year@,
                plan.major_code@,
                semester_table()[course_semesters(c)[k]].1,
                c.repo_id@ + ".mdx"@,
            ],
{
}

/// `d` is the page of course `i` of `plan`.
pub open spec fn course_draft_shows(d: PageDraft, plan: Plan, i: int, sources: RepoSources) -> bool {
    let c = plan.courses@[i];
    &&& paths_view(d.paths@) == course_page_paths(plan, c)
    &&& frontmatter_shows(d.frontmatter, c.name@, c)
    &&& body_shows(d.content@, d.filetree@, c.repo_id@, sources)
    &&& d.use_course_info
}

/// A vector of strings with the texts `a`, `b` and `c`.
fn path3(a: &str, b: &str, c: &str) -> (r: Vec<String>)
    ensures
        strings_view(r@) == seq![a@, b@, c@],
{
    let mut r: Vec<String> = Vec::new();
    let mut x = String::new();
    push_str(&mut x, a);
    r.push(x);
    let mut y = String::new();
    push_str(&mut y, b);
    r.push(y);
    let mut z = String::new();
    push_str(&mut z, c);
    r.push(z);
    assert(strings_view(r@) =~= seq![a@, b@, c@]);
    r
}

/// A vector of strings with the texts `a`, `b`, `c` and `d`.
fn path4(a: &str, b: &str, c: &str, d: &str) -> (r: Vec<String>)
    ensures
        strings_view(r@) == seq![a@, b@, c@, d@],
{
    let mut r: Vec<String> = Vec::new();
    let mut x = String::new();
    push_str(&mut x, a);
    r.push(x);
    let mut y = String::new();
    push_str(&mut y, b);
    r.push(y);
    let mut z = String::new();
    push_str(&mut z, c);
    r.push(z);
    let mut w = String::new();
    push_str(&mut w, d);
    r.push(w);
    assert(strings_view(r@) =~= seq![a@, b@, c@, d@]);
    r
}

/// A new string with the text of `s`.
fn string_of(s: &str) -> (r: String)
    ensures
        r@ == s@,
{
    let mut r = String::new();
    push_str(&mut r, s);
    r
}

/// `a` followed by `b`.
fn concat2(a: &str, b: &str) -> (r: String)
    ensures
        r@ == a@ + b@,
{
    let mut r = String::new();
    push_str(&mut r, a);
    push_str(&mut r, b);
    r
}

/// The page of course `i` of `plan`.
pub fn course_page_draft(plan: &Plan, i: usize, sources: &RepoSources) -> (r: PageDraft)
    requires
        i < plan.courses@.len(),
        sources_fit(*sources),
    ensures
        course_draft_shows(r, *plan, i as int, *sources),
{
    let c = &plan.courses[i];
    let file = concat2(c.repo_id.as_str(), ".mdx");
    let mut paths: Vec<Vec<String>> = Vec::new();
    let folders = match &c.recommended_semester {
        Some(s) => parse_semester_folders(s.as_str()),
        None => Vec::new(),
    };
    let ghost sems = course_semesters(*c);
    proof {
        if let Some(s) = &c.recommended_semester {
            crate::constants::lemma_semester_indices_valid(
                crate::text::split(s@, crate::constants::semester_separators()),
            );
        }
    }
    assert(folders@.len() == sems.len());
    if folders.len() == 0 {
        paths.push(path3(plan.year.as_str(), plan.major_code.as_str(), file.as_str()));
    } else {
        for k in 0..folders.len()
            invariant
                i < plan.courses@.len(),
                folders@.len() == sems.len(),
                sems == course_semesters(plan.courses@[i as int]),
                c == plan.courses@[i as int],
                file@ == c.repo_id@ + ".mdx"@,
                forall|m: int| 0 <= m < sems.len() ==> 0 <= #[trigger] sems[m] < SEMESTER_COUNT,
                forall|m: int|
                    0 <= m < folders@.len() ==> (#[trigger] folders@[m]).0@ == semester_table()[sems[m]].1,
                paths_view(paths@) == course_page_paths(*plan, *c).take(k as int),
        {
            let ghost before = paths@;
            let p = path4(plan.year.as_str(), plan.major_code.as_str(), folders[k].0, file.as_str());
            assert(folders@[k as int].0@ == semester_table()[sems[k as int]].1);
            paths.push(p);
            assert(paths_view(paths@) =~= paths_view(before).push(strings_view(p@)));
            assert(paths_view(paths@) =~= course_page_paths(*plan, *c).take(k + 1));
        }
        assert(course_page_paths(*plan, *c).take(folders@.len() as int) =~= course_page_paths(*plan, *c));
    }
    assert(paths_view(paths@) =~= course_page_paths(*plan, *c));
    let frontmatter = build_frontmatter(c.name.as_str(), c);
    let (content, filetree) = course_body(c.repo_id.as_str(), sources);
    PageDraft { paths, frontmatter, content, filetree, use_course_info: true }
}

// ---------------------------------------------------------------------------
// Index pages
// ---------------------------------------------------------------------------

/// One card of an index page.
pub open spec fn card_line(title: Seq<char>, href: Seq<char>) -> Seq<char> {
    "  <Card title=\""@ + title + "\" href=\""@ + href + "\" />"@
}

/// An index page titled `title` listing `lines` as cards.
pub open spec fn cards_page(title: Seq<char>, lines: Seq<Seq<char>>) -> Seq<char> {
    join(
        seq!["---"@, "title: "@ + title, "---"@, ""@, "<Cards>"@] + lines + seq!["</Cards>"@],
        "\n"@,
    )
}

/// The card text of an index page.
fn card_line_exec(title: &str, href: &Vec<char>) -> (r: Vec<char>)
    ensures
        r@ == card_line(title@, href@),
{
    let mut r = to_chars("  <Card title=\"");
    let mut t = to_chars(title);
    r.append(&mut t);
    let mut m = to_chars("\" href=\"");
    r.append(&mut m);
    let mut h = href.clone();
    r.append(&mut h);
    let mut e = to_chars("\" />");
    r.append(&mut e);
    r
}

/// The text of an index page titled `title` with the card texts `lines`.
fn cards_page_exec(title: &str, lines: Vec<Vec<char>>) -> (r: String)
    ensures
        r@ == cards_page(title@, lines@.map_values(|p: Vec<char>| p@)),
{
    let mut all: Vec<Vec<char>> = Vec::new();
    all.push(to_chars("---"));
    let mut t = to_chars("title: ");
    let mut tt = to_chars(title);
    t.append(&mut tt);
    all.push(t);
    all.push(to_chars("---"));
    all.push(to_chars(""));
    all.push(to_chars("<Cards>"));
    let ghost head = all@.map_values(|p: Vec<char>| p@);
    let mut lines = lines;
    let ghost ls = lines@.map_values(|p: Vec<char>| p@);
    all.append(&mut lines);
    all.push(to_chars("</Cards>"));
    assert(all@.map_values(|p: Vec<char>| p@) =~= seq![
        "---"@,
        "title: "@ + title@,
        "---"@,
        ""@,
        "<Cards>"@,
    ] + ls + seq!["</Cards>"@]);
    let nl = to_chars("\n");
    let text = join_chars(&all, &nl);
    string_from_chars(&text)
}

/// `/docs/` followed by `parts` separated by `/`.
pub open spec fn docs_href(parts: Seq<Seq<char>>) -> Seq<char> {
    "/docs/"@ + join(parts, "/"@)
}

fn docs_href_exec(parts: &Vec<&str>) -> (r: Vec<char>)
    ensures
        r@ == docs_href(parts@.map_values(|s: &str| s@)),
{
    let mut ps: Vec<Vec<char>> = Vec::new();
    for i in 0..parts.len()
        invariant
            ps@.len() == i,
            forall|k: int| 0 <= k < i ==> (#[trigger] ps@[k])@ == parts@[k]@,
    {
        ps.push(to_chars(parts[i]));
    }
    assert(ps@.map_values(|p: Vec<char>| p@) =~= parts@.map_values(|s: &str| s@));
    let slash = to_chars("/");
    let joined = join_chars(&ps, &slash);
    let mut r = to_chars("/docs/");
    let mut j = joined;
    r.append(&mut j);
    r
}

/// The card of course `i` (`c`) on a semester index page.
pub open spec fn card_of(c: Course, i: int) -> SemesterCourseCard {
    SemesterCourseCard {
        slug: c.repo_id,
        name: c.name,
        course_nature: c.course_nature,
        assessment_method: c.assessment_method,
        source_index: i as usize,
    }
}

/// Cards of the courses recommended for semester `f`, in plan order.
pub open spec fn semester_cards(courses: Seq<Course>, f: int) -> Seq<SemesterCourseCard>
    decreases courses.len(),
{
    if courses.len() == 0 {
        Seq::empty()
    } else {
        let prev = semester_cards(courses.drop_last(), f);
        if course_semesters(courses.last()).contains(f) {
            prev.push(card_of(courses.last(), courses.len() - 1))
        } else {
            prev
        }
    }
}

/// Card texts of a semester index page.
pub open spec fn semester_card_lines(
    cards: Seq<SemesterCourseCard>,
    year: Seq<char>,
    code: Seq<char>,
    folder: Seq<char>,
) -> Seq<Seq<char>> {
    Seq::new(
        cards.len(),
        |k: int| card_line(cards[k].name@, docs_href(seq![year, code, folder, cards[k].slug@])),
    )
}

/// `page` is the index page of semester `f` of `plan`: the cards of its courses
/// in card order.
pub open spec fn semester_index_shows(page: IndexPage, plan: Plan, f: int) -> bool {
    let folder = semester_table()[f].1;
    &&& strings_view(page.path@) == seq![plan.year@, plan.major_code@, folder, "index.mdx"@]
    &&& exists|cards: Seq<SemesterCourseCard>|
        sorted_by_le(cards) && is_permutation(cards, semester_cards(plan.courses@, f))
            && page.content@ == cards_page(
            semester_table()[f].2,
            semester_card_lines(cards, plan.year@, plan.major_code@, folder),
        )
}

fn copy_opt(o: &Option<String>) -> (r: Option<String>)
    ensures
        r == *o,
{
    match o {
        Some(s) => Some(s.clone()),
        None => None,
    }
}

/// Rows of the semesters that course `c` is recommended for.
pub fn course_semester_indices(c: &Course) -> (r: Vec<usize>)
    ensures
        r@.map_values(|i: usize| i as int) == course_semesters(*c),
        forall|k: int| 0 <= k < r@.len() ==> (#[trigger] r@[k]) < SEMESTER_COUNT,
{
    match &c.recommended_semester {
        Some(s) => parse_semester_indices(s.as_str()),
        None => {
            let r: Vec<usize> = Vec::new();
            assert(r@.map_values(|i: usize| i as int) =~= Seq::<int>::empty());
            r
        },
    }
}

/// The index page of semester `f` of `plan`.
pub fn semester_index_page(plan: &Plan, f: usize) -> (r: IndexPage)
    requires
        f < SEMESTER_COUNT,
    ensures
        semester_index_shows(r, *plan, f as int),
{
    let mut cards: Vec<SemesterCourseCard> = Vec::new();
    for i in 0..plan.courses.len()
        invariant
            cards@ == semester_cards(plan.courses@.take(i as int), f as int),
    {
        let c = &plan.courses[i];
        let sems = course_semester_indices(c);
        assert(plan.courses@.take(i + 1).drop_last() =~= plan.courses@.take(i as int));
        assert(plan.courses@.take(i + 1).last() == *c);
        let has = contains_index(&sems, f);
        if has {
            cards.push(SemesterCourseCard {
                slug: c.repo_id.clone(),
                name: c.name.clone(),
                course_nature: copy_opt(&c.course_nature),
                assessment_method: copy_opt(&c.assessment_method),
                source_index: i,
            });
        }
        assert(course_semesters(*c).contains(f as int) == has);
    }
    assert(plan.courses@.take(plan.courses@.len() as int) =~= plan.courses@);
    let ghost expected = cards@;
    sort_semester_cards(&mut cards);
    let entry = semester_entry(f);
    let mut lines: Vec<Vec<char>> = Vec::new();
    for k in 0..cards.len()
        invariant
            entry.1@ == semester_table()[f as int].1,
            lines@.len() == k,
            forall|m: int|
                0 <= m < k ==> (#[trigger] lines@[m])@ == semester_card_lines(
                    cards@,
                    plan.year@,
                    plan.major_code@,
                    entry.1@,
                )[m],
    {
        let parts = vec![plan.year.as_str(), plan.major_code.as_str(), entry.1, cards[k].slug.as_str()];
        let href = docs_href_exec(&parts);
        assert(parts@.map_values(|s: &str| s@) =~= seq![
            plan.year@,
            plan.major_code@,
            entry.1@,
            cards@[k as int].slug@,
        ]);
        lines.push(card_line_exec(cards[k].name.as_str(), &href));
    }
    assert(lines@.map_values(|p: Vec<char>| p@) =~= semester_card_lines(
        cards@,
        plan.year@,
        plan.major_code@,
        entry.1@,
    ));
    let content = cards_page_exec(entry.2, lines);
    let path = path4(plan.year.as_str(), plan.major_code.as_str(), entry.1, "index.mdx");
    IndexPage { path, content }
}

// ---------------------------------------------------------------------------
// Shared categories
// ---------------------------------------------------------------------------

/// Whether `v` holds the text `s`.
pub open spec fn has_text(v: Seq<String>, s: Seq<char>) -> bool {
    exists|i: int| 0 <= i < v.len() && (#[trigger] v[i])@ == s
}

/// Whether `v` holds the text `s`.
pub fn strings_contain(v: &Vec<String>, s: &str) -> (r: bool)
    ensures
        r == has_text(v@, s@),
{
    for i in 0..v.len()
        invariant
            forall|k: int| 0 <= k < i ==> (#[trigger] v@[k])@ != s@,
    {
        if str_eq(v[i].as_str(), s) {
            return true;
        }
    }
    false
}

/// A category lists repository `repo` when the repository set allows it (an empty
/// set allows every repository) and its README is there.
pub open spec fn shows_in_category(repo: Seq<char>, repos_set: Seq<String>, sources: RepoSources) -> bool {
    (repos_set.len() == 0 || has_text(repos_set, repo)) && source_readme(sources, repo) is Some
}

/// The repositories of `ids` that a category lists, in order.
pub open spec fn category_repos(ids: Seq<String>, repos_set: Seq<String>, sources: RepoSources) -> Seq<
    Seq<char>,
>
    decreases ids.len(),
{
    if ids.len() == 0 {
        Seq::empty()
    } else {
        let prev = category_repos(ids.drop_last(), repos_set, sources);
        if shows_in_category(ids.last()@, repos_set, sources) {
            prev.push(ids.last()@)
        } else {
            prev
        }
    }
}

/// `repo` is one of `ids` that a category lists: allowed by the repository set
/// (an empty set allows all) and with a README among the sources.
pub open spec fn is_listed_repo(
    repo: Seq<char>,
    ids: Seq<String>,
    repos_set: Seq<String>,
    sources: RepoSources,
) -> bool {
    exists|k: int|
        0 <= k < ids.len() && (#[trigger] ids[k])@ == repo && (repos_set.len() == 0 || exists|j: int|
            0 <= j < repos_set.len() && (#[trigger] repos_set[j])@ == repo) && (sources.lookup(repo) is Some && sources.lookup(repo)->0.readme is Some)
}

/// A category lists exactly its repositories that the repository set allows (all,
/// when the set is empty) and that have a README: each listed one is such a
/// repository, and each such repository is listed.
pub proof fn law_category_lists_allowed_readmes(
    ids: Seq<String>,
    repos_set: Seq<String>,
    sources: RepoSources,
)
    ensures
        forall|m: int|
            0 <= m < category_repos(ids, repos_set, sources).len() ==> is_listed_repo(
                #[trigger] category_repos(ids, repos_set, sources)[m],
                ids,
                repos_set,
                sources,
            ),
        forall|k: int|
            0 <= k < ids.len() && (repos_set.len() == 0 || exists|j: int|
                0 <= j < repos_set.len() && (#[trigger] repos_set[j])@ == (#[trigger] ids[k])@)
                && (sources.lookup(ids[k]@) is Some && sources.lookup(ids[k]@)->0.readme is Some) ==> category_repos(
                ids,
                repos_set,
                sources,
            ).contains(ids[k]@),
    decreases ids.len(),
{
    if ids.len() > 0 {
        let init = ids.drop_last();
        law_category_lists_allowed_readmes(init, repos_set, sources);
        let p = category_repos(init, repos_set, sources);
        let r = category_repos(ids, repos_set, sources);
        assert forall|m: int| 0 <= m < r.len() implies is_listed_repo(#[trigger] r[m], ids, repos_set, sources) by {
            if m < p.len() {
                assert(r[m] == p[m]);
                assert(is_listed_repo(p[m], init, repos_set, sources));
                let k = choose|k: int|
                    0 <= k < init.len() && (#[trigger] init[k])@ == p[m] && (repos_set.len() == 0
                        || exists|j: int| 0 <= j < repos_set.len() && (#[trigger] repos_set[j])@ == p[m])
                        && (sources.lookup(p[m]) is Some && sources.lookup(p[m])->0.readme is Some);
                assert(ids[k] == init[k]);
            } else {
                assert(ids[ids.len() - 1] == ids.last());
                assert(shows_in_category(ids.last()@, repos_set, sources));
            }
        }
        assert forall|k: int|
            0 <= k < ids.len() && (repos_set.len() == 0 || exists|j: int|
                0 <= j < repos_set.len() && (#[trigger] repos_set[j])@ == (#[trigger] ids[k])@)
                && (sources.lookup(ids[k]@) is Some && sources.lookup(ids[k]@)->0.readme is Some) implies r.contains(
            ids[k]@,
        ) by {
            if k < init.len() {
                assert(init[k] == ids[k]);
                let m = choose|m: int| 0 <= m < p.len() && p[m] == init[k]@;
                assert(r[m] == p[m]);
            } else {
                assert(ids[k] == ids.last());
                assert(shows_in_category(ids.last()@, repos_set, sources));
                assert(r[p.len() as int] == ids[k]@);
            }
        }
    }
}

/// The `default` grade details of repository `repo`, as stored.
pub open spec fn default_details(gs: GradesSummary, repo: Seq<char>) -> Option<Seq<GradeDetail>> {
    match gs.lookup(repo) {
        Some(e) => match e.lookup("default"@) {
            Some(v) => Some(v@),
            None => None,
        },
        None => None,
    }
}

/// `fm` is the front matter of a category page titled `title`: no course facts
/// but the grading scheme of `details`.
pub open spec fn minimal_frontmatter_shows(
    fm: Frontmatter,
    title: Seq<char>,
    details: Option<Seq<GradeDetail>>,
) -> bool {
    &&& fm.title@ == title
    &&& fm.description@ == Seq::<char>::empty()
    &&& fm.course.credit_bits == 0
    &&& fm.course.assessment_method@ == Seq::<char>::empty()
    &&& fm.course.course_nature@ == Seq::<char>::empty()
    &&& fm.course.hour_distribution == hour_meta(None)
    &&& fm.course.total_hours == 0
    &&& grading_view(fm.course.grading_scheme@) == match details {
        Some(d) => grading_entries(d),
        None => Seq::empty(),
    }
    &&& fm.course.introduction.zh@.len() == 0
    &&& fm.course.introduction.en@.len() == 0
}

/// `d` is the page of repository `repo` in category `cat` of `plan`: titled by its
/// README, with the `default` grading scheme, and the course info components
/// unless the repository is an index page.
pub open spec fn category_draft_shows(
    d: PageDraft,
    plan: Plan,
    cat: SharedCategory,
    repo: Seq<char>,
    gs: GradesSummary,
    no_course_info: Seq<String>,
    sources: RepoSources,
) -> bool {
    let readme = source_readme(sources, repo)->0;
    let title = mdx_title(readme, repo);
    &&& paths_view(d.paths@) == seq![seq![plan.year@, plan.major_code@, cat.id@, repo + ".mdx"@]]
    &&& minimal_frontmatter_shows(d.frontmatter, title, default_details(gs, repo))
    &&& d.content@ == readme_body(readme)
    &&& tree_section_shows(d.filetree@, repo, source_worktree(sources, repo))
    &&& d.use_course_info == !has_text(no_course_info, repo)
}

/// `page` is the index page of category `cat` of `plan` listing `repos`, each
/// titled by its README.
pub open spec fn category_index_shows(
    page: IndexPage,
    plan: Plan,
    cat: SharedCategory,
    repos: Seq<Seq<char>>,
    sources: RepoSources,
) -> bool {
    &&& strings_view(page.path@) == seq![plan.year@, plan.major_code@, cat.id@, "index.mdx"@]
    &&& page.content@ == cards_page(
        cat.title@,
        Seq::new(
            repos.len(),
            |k: int|
                card_line(
                    mdx_title(source_readme(sources, repos[k])->0, repos[k]),
                    docs_href(seq![plan.year@, plan.major_code@, cat.id@, repos[k]]),
                ),
        ),
    )
}

proof fn lemma_details_view_entries(a: Seq<GradeDetail>, b: Seq<GradeDetail>)
    requires
        details_view(a) == details_view(b),
    ensures
        grading_entries(a) == grading_entries(b),
{
    assert(a.len() == details_view(a).len());
    assert forall|i: int| 0 <= i < a.len() implies (#[trigger] a[i]).name@ == b[i].name@ && match (
        a[i].percent,
        b[i].percent,
    ) {
        (Some(x), Some(y)) => x@ == y@,
        (None, None) => true,
        _ => false,
    } by {
        assert(details_view(a)[i] == details_view(b)[i]);
    }
    lemma_grading_entries_view(a, b);
}

/// The page of repository `repo` in category `cat`, and its title.
fn category_draft(
    plan: &Plan,
    cat: &SharedCategory,
    repo: &str,
    grades_summary: &GradesSummary,
    no_course_info: &Vec<String>,
    sources: &RepoSources,
) -> (r: (PageDraft, String))
    requires
        sources_fit(*sources),
        source_readme(*sources, repo@) is Some,
    ensures
        category_draft_shows(r.0, *plan, *cat, repo@, *grades_summary, no_course_info@, *sources),
        r.1@ == mdx_title(source_readme(*sources, repo@)->0, repo@),
{
    let src = find_source(sources, repo).unwrap();
    let readme = src.readme.as_ref().unwrap();
    let title = title_from_mdx(readme.as_str(), repo);
    let content = readme_body_content(readme.as_str());
    let filetree = tree_section(repo, &src.worktree);
    let details = match grades_summary.get(repo) {
        Some(m) => match m.get("default") {
            Some(v) => Some(copy_details(v)),
            None => None,
        },
        None => None,
    };
    let ghost dd = default_details(*grades_summary, repo@);
    proof {
        if details is Some && dd is Some {
            lemma_details_view_entries(details->0@, dd->0);
        }
    }
    let course = minimal_course(repo, title.as_str(), details);
    let frontmatter = build_frontmatter(title.as_str(), &course);
    let file = concat2(repo, ".mdx");
    let mut paths: Vec<Vec<String>> = Vec::new();
    paths.push(path4(plan.year.as_str(), plan.major_code.as_str(), cat.id.as_str(), file.as_str()));
    assert(paths_view(paths@) =~= seq![seq![plan.year@, plan.major_code@, cat.id@, repo@ + ".mdx"@]]);
    let use_course_info = !strings_contain(no_course_info, repo);
    (PageDraft { paths, frontmatter, content, filetree, use_course_info }, title)
}

/// Category pages of `cat`: the page of each repository it lists, and its index
/// page when it lists any.
fn category_pages(
    plan: &Plan,
    cat: &SharedCategory,
    grades_summary: &GradesSummary,
    no_course_info: &Vec<String>,
    repos_set: &Vec<String>,
    sources: &RepoSources,
) -> (r: (Vec<PageDraft>, Option<IndexPage>))
    requires
        sources_fit(*sources),
    ensures
        r.0@.len() == category_repos(cat.repo_ids@, repos_set@, *sources).len(),
        forall|j: int|
            0 <= j < r.0@.len() ==> category_draft_shows(
                #[trigger] r.0@[j],
                *plan,
                *cat,
                category_repos(cat.repo_ids@, repos_set@, *sources)[j],
                *grades_summary,
                no_course_info@,
                *sources,
            ),
        match r.1 {
            Some(page) => category_repos(cat.repo_ids@, repos_set@, *sources).len() > 0
                && category_index_shows(
                page,
                *plan,
                *cat,
                category_repos(cat.repo_ids@, repos_set@, *sources),
                *sources,
            ),
            None => category_repos(cat.repo_ids@, repos_set@, *sources).len() == 0,
        },
{
    let ghost ids = cat.repo_ids@;
    let mut drafts: Vec<PageDraft> = Vec::new();
    let mut lines: Vec<Vec<char>> = Vec::new();
    let ghost mut listed: Seq<Seq<char>> = Seq::empty();
    for i in 0..cat.repo_ids.len()
        invariant
            sources_fit(*sources),
            ids == cat.repo_ids@,
            listed == category_repos(ids.take(i as int), repos_set@, *sources),
            drafts@.len() == listed.len(),
            lines@.len() == listed.len(),
            forall|j: int|
                0 <= j < drafts@.len() ==> category_draft_shows(
                    #[trigger] drafts@[j],
                    *plan,
                    *cat,
                    listed[j],
                    *grades_summary,
                    no_course_info@,
                    *sources,
                ),
            forall|j: int|
                0 <= j < lines@.len() ==> (#[trigger] lines@[j])@ == card_line(
                    mdx_title(source_readme(*sources, listed[j])->0, listed[j]),
                    docs_href(seq![plan.year@, plan.major_code@, cat.id@, listed[j]]),
                ),
    {
        assert(ids.take(i + 1).drop_last() =~= ids.take(i as int));
        assert(ids.take(i + 1).last() == ids[i as int]);
        let repo = cat.repo_ids[i].as_str();
        let allowed = repos_set.len() == 0 || strings_contain(repos_set, repo);
        let has_readme = match find_source(sources, repo) {
            Some(src) => src.readme.is_some(),
            None => false,
        };
        if allowed && has_readme {
            let (draft, title) = category_draft(
                plan,
                cat,
                repo,
                grades_summary,
                no_course_info,
                sources,
            );
            drafts.push(draft);
            let parts = vec![plan.year.as_str(), plan.major_code.as_str(), cat.id.as_str(), repo];
            let href = docs_href_exec(&parts);
            assert(parts@.map_values(|s: &str| s@) =~= seq![
                plan.year@,
                plan.major_code@,
                cat.id@,
                repo@,
            ]);
            lines.push(card_line_exec(title.as_str(), &href));
            proof {
                listed = listed.push(repo@);
            }
        }
    }
    assert(ids.take(ids.len() as int) =~= ids);
    if drafts.len() == 0 {
        return (drafts, None);
    }
    assert(lines@.map_values(|p: Vec<char>| p@) =~= Seq::new(
        listed.len(),
        |k: int|
            card_line(
                mdx_title(source_readme(*sources, listed[k])->0, listed[k]),
                docs_href(seq![plan.year@, plan.major_code@, cat.id@, listed[k]]),
            ),
    ));
    let content = cards_page_exec(cat.title.as_str(), lines);
    let path = path4(plan.year.as_str(), plan.major_code.as_str(), cat.id.as_str(), "index.mdx");
    (drafts, Some(IndexPage { path, content }))
}

// ---------------------------------------------------------------------------
// All pages of a plan
// ---------------------------------------------------------------------------

/// Whether some course is recommended for semester `f`.
pub open spec fn semester_has_courses(courses: Seq<Course>, f: int) -> bool {
    exists|i: int| 0 <= i < courses.len() && course_semesters(#[trigger] courses[i]).contains(f)
}

/// Semesters below `upto` that some course is recommended for, in table order.
pub open spec fn present_semesters(courses: Seq<Course>, upto: int) -> Seq<int>
    decreases upto,
{
    if upto <= 0 {
        Seq::empty()
    } else {
        let p = present_semesters(courses, upto - 1);
        if semester_has_courses(courses, upto - 1) {
            p.push(upto - 1)
        } else {
            p
        }
    }
}

/// The semesters of a plan that have courses, in table order.
pub open spec fn plan_semesters(plan: Plan) -> Seq<int> {
    present_semesters(plan.courses@, SEMESTER_COUNT as int)
}

/// (category, repository) of each category page, in order.
pub open spec fn category_items(
    cats: Seq<SharedCategory>,
    repos_set: Seq<String>,
    sources: RepoSources,
) -> Seq<(int, Seq<char>)>
    decreases cats.len(),
{
    if cats.len() == 0 {
        Seq::empty()
    } else {
        let k = cats.len() - 1;
        category_items(cats.drop_last(), repos_set, sources) + category_repos(
            cats.last().repo_ids@,
            repos_set,
            sources,
        ).map_values(|r: Seq<char>| (k, r))
    }
}

/// Categories that list at least one repository, in order.
pub open spec fn categories_with_pages(
    cats: Seq<SharedCategory>,
    repos_set: Seq<String>,
    sources: RepoSources,
) -> Seq<int>
    decreases cats.len(),
{
    if cats.len() == 0 {
        Seq::empty()
    } else {
        let p = categories_with_pages(cats.drop_last(), repos_set, sources);
        if category_repos(cats.last().repo_ids@, repos_set, sources).len() > 0 {
            p.push(cats.len() - 1)
        } else {
            p
        }
    }
}

/// Semester directories of `courses` in `plan`: those of each course, in order.
pub open spec fn course_dirs(plan: Plan, courses: Seq<Course>) -> Seq<Seq<Seq<char>>>
    decreases courses.len(),
{
    if courses.len() == 0 {
        Seq::empty()
    } else {
        let sems = course_semesters(courses.last());
        course_dirs(plan, courses.drop_last()) + Seq::new(
            sems.len(),
            |k: int| seq![plan.year@, plan.major_code@, semester_table()[sems[k]].1],
        )
    }
}

/// Cards of the categories whose ID is among `page_ids`, in order.
pub open spec fn category_card_lines(
    cats: Seq<SharedCategory>,
    page_ids: Seq<Seq<char>>,
    year: Seq<char>,
    code: Seq<char>,
) -> Seq<Seq<char>>
    decreases cats.len(),
{
    if cats.len() == 0 {
        Seq::empty()
    } else {
        let p = category_card_lines(cats.drop_last(), page_ids, year, code);
        let c = cats.last();
        if page_ids.contains(c.id@) {
            p.push(card_line(c.title@, docs_href(seq![year, code, c.id@])))
        } else {
            p
        }
    }
}

/// The link of a page three levels below the docs root.
pub open spec fn docs_link3(a: Seq<char>, b: Seq<char>, c: Seq<char>) -> Seq<char> {
    "/docs/"@ + a + "/"@ + b + "/"@ + c
}

/// `docs_href` of three pieces is `/docs/a/b/c`.
proof fn lemma_docs_href3(a: Seq<char>, b: Seq<char>, c: Seq<char>)
    ensures
        docs_href(seq![a, b, c]) == docs_link3(a, b, c),
{
    let s = seq![a, b, c];
    assert(s.drop_last() =~= seq![a, b]);
    assert(seq![a, b].drop_last() =~= seq![a]);
    assert(join(seq![a], "/"@) == a);
    assert(join(seq![a, b], "/"@) =~= a + "/"@ + b);
    assert(join(s, "/"@) =~= a + "/"@ + b + "/"@ + c);
    assert(docs_href(s) =~= docs_link3(a, b, c));
}

/// The card of category `c` on a major's index page: titled by the category's
/// title, linking to the category's folder of the major.
pub open spec fn category_card_text(c: SharedCategory, year: Seq<char>, code: Seq<char>) -> Seq<char> {
    "  <Card title=\""@ + c.title@ + "\" href=\""@ + docs_link3(year, code, c.id@) + "\" />"@
}

/// `docs_href` of four pieces is `/docs/a/b/c/d`.
proof fn lemma_docs_href4(a: Seq<char>, b: Seq<char>, c: Seq<char>, d: Seq<char>)
    ensures
        docs_href(seq![a, b, c, d]) == docs_link3(a, b, c) + "/"@ + d,
{
    let s = seq![a, b, c, d];
    assert(s.drop_last() =~= seq![a, b, c]);
    assert(seq![a, b, c].drop_last() =~= seq![a, b]);
    assert(seq![a, b].drop_last() =~= seq![a]);
    assert(join(seq![a], "/"@) == a);
    assert(join(seq![a, b], "/"@) =~= a + "/"@ + b);
    assert(join(seq![a, b, c], "/"@) =~= a + "/"@ + b + "/"@ + c);
    assert(join(s, "/"@) =~= a + "/"@ + b + "/"@ + c + "/"@ + d);
    assert(docs_href(s) =~= docs_link3(a, b, c) + "/"@ + d);
}

/// Each card of a semester index page is its course's card: titled by the course
/// name and linking to `/docs/{year}/{code}/{folder}/{slug}`, one per card in order.
pub proof fn law_semester_card_lines(
    cards: Seq<SemesterCourseCard>,
    year: Seq<char>,
    code: Seq<char>,
    folder: Seq<char>,
)
    ensures
        semester_card_lines(cards, year, code, folder).len() == cards.len(),
        forall|m: int|
            0 <= m < cards.len() ==> #[trigger] semester_card_lines(cards, year, code, folder)[m]
                == "  <Card title=\""@ + cards[m].name@ + "\" href=\""@ + docs_link3(year, code, folder)
                + "/"@ + cards[m].slug@ + "\" />"@,
{
    assert forall|m: int| 0 <= m < cards.len() implies #[trigger] semester_card_lines(
        cards,
        year,
        code,
        folder,
    )[m] == "  <Card title=\""@ + cards[m].name@ + "\" href=\""@ + docs_link3(year, code, folder)
        + "/"@ + cards[m].slug@ + "\" />"@ by {
        lemma_docs_href4(year, code, folder, cards[m].slug@);
        assert(semester_card_lines(cards, year, code, folder)[m] =~= "  <Card title=\""@ + cards[m].name@
            + "\" href=\""@ + docs_link3(year, code, folder) + "/"@ + cards[m].slug@ + "\" />"@);
    }
}

/// `line` is the card of some category of `cats` whose ID is among `page_ids`.
pub open spec fn is_category_card(
    line: Seq<char>,
    cats: Seq<SharedCategory>,
    page_ids: Seq<Seq<char>>,
    year: Seq<char>,
    code: Seq<char>,
) -> bool {
    exists|k: int|
        0 <= k < cats.len() && page_ids.contains(cats[k].id@) && line == category_card_text(
            #[trigger] cats[k],
            year,
            code,
        )
}

/// The category cards of a major's index page are those of the categories that
/// have pages, each titled by the category's title and linking to
/// `/docs/{year}/{code}/{id}`: every card is such a category's, and every such
/// category has its card.
#[verifier::rlimit(40)]
pub proof fn law_major_index_category_cards(
    cats: Seq<SharedCategory>,
    page_ids: Seq<Seq<char>>,
    year: Seq<char>,
    code: Seq<char>,
)
    ensures
        category_card_lines(cats, page_ids, year, code).len() <= cats.len(),
        forall|m: int|
            0 <= m < category_card_lines(cats, page_ids, year, code).len() ==> is_category_card(
                #[trigger] category_card_lines(cats, page_ids, year, code)[m],
                cats,
                page_ids,
                year,
                code,
            ),
        forall|k: int|
            0 <= k < cats.len() && page_ids.contains((#[trigger] cats[k]).id@) ==> exists|m: int|
                0 <= m < category_card_lines(cats, page_ids, year, code).len()
                    && category_card_lines(cats, page_ids, year, code)[m] == category_card_text(
                    cats[k],
                    year,
                    code,
                ),
    decreases cats.len(),
{
    if cats.len() > 0 {
        let init = cats.drop_last();
        let c = cats.last();
        law_major_index_category_cards(init, page_ids, year, code);
        let p = category_card_lines(init, page_ids, year, code);
        let lines = category_card_lines(cats, page_ids, year, code);
        lemma_docs_href3(year, code, c.id@);
        assert(card_line(c.title@, docs_href(seq![year, code, c.id@])) == category_card_text(c, year, code));
        assert forall|m: int| 0 <= m < lines.len() implies is_category_card(
            #[trigger] lines[m],
            cats,
            page_ids,
            year,
            code,
        ) by {
            if m < p.len() {
                assert(lines[m] == p[m]);
                assert(is_category_card(p[m], init, page_ids, year, code));
                let k = choose|k: int|
                    0 <= k < init.len() && page_ids.contains(init[k].id@) && p[m]
                        == category_card_text(#[trigger] init[k], year, code);
                assert(cats[k] == init[k]);
            } else {
                assert(page_ids.contains(c.id@));
                assert(lines[m] == category_card_text(c, year, code));
                assert(cats[cats.len() - 1] == c);
                assert(category_card_text(cats[cats.len() - 1], year, code) == lines[m]);
            }
        }
        assert forall|k: int| 0 <= k < cats.len() && page_ids.contains((#[trigger] cats[k]).id@) implies exists|m: int|
            0 <= m < lines.len() && lines[m] == category_card_text(cats[k], year, code) by {
            if k < init.len() {
                assert(init[k] == cats[k]);
                let m = choose|m: int| 0 <= m < p.len() && p[m] == category_card_text(init[k], year, code);
                assert(lines[m] == p[m]);
            } else {
                assert(cats[k] == c);
                assert(lines[p.len() as int] == category_card_text(c, year, code));
            }
        }
    }
}

/// The semester cards of a major's index page, one per semester of `sems`.
pub open spec fn major_semester_lines(sems: Seq<int>, y: Seq<char>, c: Seq<char>) -> Seq<Seq<char>> {
    Seq::new(
        sems.len(),
        |j: int|
            card_line(semester_table()[sems[j]].2, docs_href(seq![y, c, semester_table()[sems[j]].1])),
    )
}

/// Each semester card of a major's index page is titled by the semester's display
/// title and links to the semester's folder of the major.
pub proof fn law_major_semester_cards(sems: Seq<int>, y: Seq<char>, c: Seq<char>)
    ensures
        major_semester_lines(sems, y, c).len() == sems.len(),
        forall|j: int|
            0 <= j < sems.len() ==> #[trigger] major_semester_lines(sems, y, c)[j] == "  <Card title=\""@
                + semester_table()[sems[j]].2 + "\" href=\""@ + docs_link3(
                y,
                c,
                semester_table()[sems[j]].1,
            ) + "\" />"@,
{
    assert forall|j: int| 0 <= j < sems.len() implies #[trigger] major_semester_lines(sems, y, c)[j]
        == "  <Card title=\""@ + semester_table()[sems[j]].2 + "\" href=\""@ + docs_link3(
        y,
        c,
        semester_table()[sems[j]].1,
    ) + "\" />"@ by {
        lemma_docs_href3(y, c, semester_table()[sems[j]].1);
    }
}

/// An index page: the front matter with its title, then the cards, one per line,
/// between `<Cards>` and `</Cards>`.
pub proof fn law_cards_page_layout(title: Seq<char>, lines: Seq<Seq<char>>)
    ensures
        lines.len() == 0 ==> cards_page(title, lines) == "---"@ + "\n"@ + "title: "@ + title + "\n"@
            + "---"@ + "\n"@ + "\n"@ + "<Cards>"@ + "\n"@ + "</Cards>"@,
        lines.len() > 0 ==> cards_page(title, lines) == "---"@ + "\n"@ + "title: "@ + title + "\n"@
            + "---"@ + "\n"@ + "\n"@ + "<Cards>"@ + "\n"@ + join(lines, "\n"@) + "\n"@ + "</Cards>"@,
{
    let nl = "\n"@;
    let head = seq!["---"@, "title: "@ + title, "---"@, ""@, "<Cards>"@];
    let all = head + lines + seq!["</Cards>"@];
    reveal_strlit("");
    assert(""@ =~= Seq::<char>::empty());
    assert(head.drop_last().drop_last().drop_last().drop_last() =~= seq!["---"@]);
    assert(join(seq!["---"@], nl) == "---"@);
    assert(head.drop_last().drop_last().drop_last() =~= seq!["---"@, "title: "@ + title]);
    assert(head.drop_last().drop_last() =~= seq!["---"@, "title: "@ + title, "---"@]);
    assert(head.drop_last() =~= seq!["---"@, "title: "@ + title, "---"@, ""@]);
    let h2 = seq!["---"@, "title: "@ + title];
    let h3 = seq!["---"@, "title: "@ + title, "---"@];
    let h4 = seq!["---"@, "title: "@ + title, "---"@, ""@];
    assert(h2.drop_last() =~= seq!["---"@] && h2.last() == "title: "@ + title);
    assert(h3.drop_last() =~= h2 && h3.last() == "---"@);
    assert(h4.drop_last() =~= h3 && h4.last() == ""@);
    assert(head.drop_last() =~= h4 && head.last() == "<Cards>"@);
    assert(join(h2, nl) =~= "---"@ + nl + "title: "@ + title);
    assert(join(h3, nl) =~= "---"@ + nl + "title: "@ + title + nl + "---"@);
    assert(join(h4, nl) =~= "---"@ + nl + "title: "@ + title + nl + "---"@ + nl);
    assert(join(head, nl) =~= "---"@ + nl + "title: "@ + title + nl + "---"@ + nl + nl + "<Cards>"@);
    if lines.len() == 0 {
        assert(all =~= head.push("</Cards>"@));
        assert(all.drop_last() =~= head);
    } else {
        lemma_join_concat_lines(head, lines);
        assert(all =~= (head + lines).push("</Cards>"@));
        assert(all.drop_last() =~= head + lines);
        assert(join(all, nl) =~= join(head + lines, nl) + nl + "</Cards>"@);
    }
}

/// Joining two non-empty lists of lines puts a line break between them.
proof fn lemma_join_concat_lines(a: Seq<Seq<char>>, b: Seq<Seq<char>>)
    requires
        a.len() >= 1,
        b.len() >= 1,
    ensures
        join(a + b, "\n"@) == join(a, "\n"@) + "\n"@ + join(b, "\n"@),
    decreases b.len(),
{
    if b.len() == 1 {
        assert(a + b =~= a.push(b[0]));
        assert(a.push(b[0]).drop_last() =~= a);
    } else {
        let b0 = b.drop_last();
        lemma_join_concat_lines(a, b0);
        assert(a + b =~= (a + b0).push(b.last()));
        assert((a + b0).push(b.last()).drop_last() =~= a + b0);
        assert(b0.push(b.last()).drop_last() =~= b0);
        assert(b =~= b0.push(b.last()));
    }
}

/// Everything the generator writes for one plan.
#[derive(Debug)]
pub struct PlanPages {
    /// Directories to create, in order.
    pub dirs: Vec<Vec<String>>,
    /// The page of each course of the plan, in order.
    pub course_pages: Vec<PageDraft>,
    /// The index page of each semester with courses, in table order.
    pub semester_indexes: Vec<IndexPage>,
    /// The pages of the shared categories, in order.
    pub category_pages: Vec<PageDraft>,
    /// The index page of each category with pages, in order.
    pub category_indexes: Vec<IndexPage>,
    /// `title` and `pages` of the major's `meta.json`.
    pub meta_title: String,
    pub meta_pages: Vec<String>,
    /// The major's index page.
    pub major_index: IndexPage,
}

/// `r` is everything the generator writes for `plan`.
pub open spec fn plan_pages_show(
    r: PlanPages,
    plan: Plan,
    cats: Seq<SharedCategory>,
    gs: GradesSummary,
    no_course_info: Seq<String>,
    repos_set: Seq<String>,
    sources: RepoSources,
) -> bool {
    let y = plan.year@;
    let c = plan.major_code@;
    let sems = plan_semesters(plan);
    let items = category_items(cats, repos_set, sources);
    let with_pages = categories_with_pages(cats, repos_set, sources);
    let page_ids = with_pages.map_values(|k: int| cats[k].id@);
    &&& paths_view(r.dirs@) == seq![seq![y, c]] + course_dirs(plan, plan.courses@) + Seq::new(
        cats.len(),
        |k: int| seq![y, c, cats[k].id@],
    )
    &&& r.course_pages@.len() == plan.courses@.len()
    &&& forall|i: int|
        0 <= i < r.course_pages@.len() ==> course_draft_shows(
            #[trigger] r.course_pages@[i],
            plan,
            i,
            sources,
        )
    &&& r.semester_indexes@.len() == sems.len()
    &&& forall|j: int|
        0 <= j < sems.len() ==> semester_index_shows(#[trigger] r.semester_indexes@[j], plan, sems[j])
    &&& r.category_pages@.len() == items.len()
    &&& forall|j: int|
        0 <= j < items.len() ==> category_draft_shows(
            #[trigger] r.category_pages@[j],
            plan,
            cats[items[j].0],
            items[j].1,
            gs,
            no_course_info,
            sources,
        )
    &&& r.category_indexes@.len() == with_pages.len()
    &&& forall|j: int|
        0 <= j < with_pages.len() ==> category_index_shows(
            #[trigger] r.category_indexes@[j],
            plan,
            cats[with_pages[j]],
            category_repos(cats[with_pages[j]].repo_ids@, repos_set, sources),
            sources,
        )
    &&& r.meta_title@ == plan.major_name@
    &&& strings_view(r.meta_pages@) == seq!["..."@] + sems.map_values(
        |f: int| semester_table()[f].1,
    ) + page_ids
    &&& strings_view(r.major_index.path@) == seq![y, c, "index.mdx"@]
    &&& r.major_index.content@ == cards_page(
        "目录"@,
        major_semester_lines(sems, y, c) + category_card_lines(cats, page_ids, y, c),
    )
}

/// Whether some course of `plan` is recommended for semester `f`.
fn semester_used(plan: &Plan, f: usize) -> (r: bool)
    ensures
        r == semester_has_courses(plan.courses@, f as int),
{
    for i in 0..plan.courses.len()
        invariant
            forall|k: int|
                0 <= k < i ==> !course_semesters(#[trigger] plan.courses@[k]).contains(f as int),
    {
        let sems = course_semester_indices(&plan.courses[i]);
        if contains_index(&sems, f) {
            return true;
        }
    }
    false
}

/// A course recommended for semester `f` has its card among the cards of `f`.
proof fn lemma_card_listed(courses: Seq<Course>, i: int, f: int)
    requires
        0 <= i < courses.len(),
        course_semesters(courses[i]).contains(f),
    ensures
        semester_cards(courses, f).contains(card_of(courses[i], i)),
    decreases courses.len(),
{
    let prev = semester_cards(courses.drop_last(), f);
    if i == courses.len() - 1 {
        assert(semester_cards(courses, f).last() == card_of(courses[i], i));
    } else {
        assert(courses.drop_last()[i] == courses[i]);
        lemma_card_listed(courses.drop_last(), i, f);
        let j = choose|j: int| 0 <= j < prev.len() && prev[j] == card_of(courses[i], i);
        assert(semester_cards(courses, f)[j] == prev[j]);
    }
}

/// A semester below `upto` that has courses is among the present semesters.
proof fn lemma_semester_present(courses: Seq<Course>, upto: int, f: int)
    requires
        0 <= f < upto,
        semester_has_courses(courses, f),
    ensures
        present_semesters(courses, upto).contains(f),
    decreases upto,
{
    if f == upto - 1 {
        assert(present_semesters(courses, upto).last() == f);
    } else {
        lemma_semester_present(courses, upto - 1, f);
        let p = present_semesters(courses, upto - 1);
        let j = choose|j: int| 0 <= j < p.len() && p[j] == f;
        assert(present_semesters(courses, upto)[j] == p[j]);
    }
}

/// Navigation reaches every course page: each semester that a course is filed
/// under is one of the plan's semesters (so it has an index page and a place in
/// the major's `meta.json`), and the course's card is among that semester's cards.
pub proof fn law_course_pages_are_listed(plan: Plan, i: int, k: int)
    requires
        0 <= i < plan.courses@.len(),
        0 <= k < course_semesters(plan.courses@[i]).len(),
    ensures
        plan_semesters(plan).contains(course_semesters(plan.courses@[i])[k]),
        semester_cards(plan.courses@, course_semesters(plan.courses@[i])[k]).contains(
            card_of(plan.courses@[i], i),
        ),
{
    let c = plan.courses@[i];
    let f = course_semesters(c)[k];
    let s = c.recommended_semester->0;
    crate::constants::lemma_semester_indices_valid(
        crate::text::split(s@, crate::constants::semester_separators()),
    );
    assert(course_semesters(c).contains(f));
    lemma_card_listed(plan.courses@, i, f);
    assert(semester_has_courses(plan.courses@, f));
    lemma_semester_present(plan.courses@, SEMESTER_COUNT as int, f);
}

/// Everything the generator writes for `plan`: course pages under their semesters
/// (or the major), semester index pages, shared category pages and their index
/// pages, and the major's `meta.json` and index page.
pub fn plan_pages(
    plan: &Plan,
    shared_categories: &Vec<SharedCategory>,
    no_course_info_repo_ids: &Vec<String>,
    grades_summary: &GradesSummary,
    sources: &RepoSources,
    repos_set: &Vec<String>,
) -> (r: PlanPages)
    requires
        sources_fit(*sources),
    ensures
        plan_pages_show(
            r,
            *plan,
            shared_categories@,
            *grades_summary,
            no_course_info_repo_ids@,
            repos_set@,
            *sources,
        ),
{
    let ghost cats = shared_categories@;
    let y = plan.year.as_str();
    let c = plan.major_code.as_str();
    // directories
    let mut dirs: Vec<Vec<String>> = Vec::new();
    let mut first: Vec<String> = Vec::new();
    first.push(plan.year.clone());
    first.push(plan.major_code.clone());
    assert(strings_view(first@) =~= seq![plan.year@, plan.major_code@]);
    dirs.push(first);
    assert(paths_view(dirs@) =~= seq![seq![plan.year@, plan.major_code@]] + course_dirs(
        *plan,
        plan.courses@.take(0),
    ));
    for i in 0..plan.courses.len()
        invariant
            y@ == plan.year@,
            c@ == plan.major_code@,
            paths_view(dirs@) == seq![seq![plan.year@, plan.major_code@]] + course_dirs(
                *plan,
                plan.courses@.take(i as int),
            ),
    {
        let sems = course_semester_indices(&plan.courses[i]);
        let ghost before = paths_view(dirs@);
        assert(plan.courses@.take(i + 1).drop_last() =~= plan.courses@.take(i as int));
        assert(plan.courses@.take(i + 1).last() == plan.courses@[i as int]);
        let ghost ss = course_semesters(plan.courses@[i as int]);
        for k in 0..sems.len()
            invariant
                y@ == plan.year@,
                c@ == plan.major_code@,
                sems@.map_values(|x: usize| x as int) == ss,
                forall|m: int| 0 <= m < sems@.len() ==> (#[trigger] sems@[m]) < SEMESTER_COUNT,
                paths_view(dirs@) == before + Seq::new(
                    k as nat,
                    |m: int| seq![plan.year@, plan.major_code@, semester_table()[ss[m]].1],
                ),
        {
            let entry = semester_entry(sems[k]);
            assert(ss[k as int] == sems@[k as int] as int);
            let p = path3(y, c, entry.1);
            let ghost prev = dirs@;
            dirs.push(p);
            assert(paths_view(dirs@) =~= paths_view(prev).push(strings_view(p@)));
            assert(paths_view(dirs@) =~= before + Seq::new(
                (k + 1) as nat,
                |m: int| seq![plan.year@, plan.major_code@, semester_table()[ss[m]].1],
            ));
        }
        assert(paths_view(dirs@) =~= seq![seq![plan.year@, plan.major_code@]] + course_dirs(
            *plan,
            plan.courses@.take(i + 1),
        ));
    }
    assert(plan.courses@.take(plan.courses@.len() as int) =~= plan.courses@);
    let ghost before_cats = paths_view(dirs@);
    for k in 0..shared_categories.len()
        invariant
            y@ == plan.year@,
            c@ == plan.major_code@,
            cats == shared_categories@,
            paths_view(dirs@) == before_cats + Seq::new(
                k as nat,
                |m: int| seq![plan.year@, plan.major_code@, cats[m].id@],
            ),
    {
        let p = path3(y, c, shared_categories[k].id.as_str());
        let ghost prev = dirs@;
        dirs.push(p);
        assert(paths_view(dirs@) =~= paths_view(prev).push(strings_view(p@)));
        assert(paths_view(dirs@) =~= before_cats + Seq::new(
            (k + 1) as nat,
            |m: int| seq![plan.year@, plan.major_code@, cats[m].id@],
        ));
    }
    // course pages
    let mut course_pages: Vec<PageDraft> = Vec::new();
    for i in 0..plan.courses.len()
        invariant
            y@ == plan.year@,
            c@ == plan.major_code@,
            sources_fit(*sources),
            course_pages@.len() == i,
            forall|m: int|
                0 <= m < i ==> course_draft_shows(#[trigger] course_pages@[m], *plan, m, *sources),
    {
        course_pages.push(course_page_draft(plan, i, sources));
    }
    // semester index pages, in table order
    let mut semester_indexes: Vec<IndexPage> = Vec::new();
    let mut used: Vec<usize> = Vec::new();
    for f in 0..SEMESTER_COUNT
        invariant
            y@ == plan.year@,
            c@ == plan.major_code@,
            used@.map_values(|x: usize| x as int) == present_semesters(plan.courses@, f as int),
            semester_indexes@.len() == used@.len(),
            forall|m: int| 0 <= m < used@.len() ==> (#[trigger] used@[m]) < SEMESTER_COUNT,
            forall|j: int|
                0 <= j < used@.len() ==> semester_index_shows(
                    #[trigger] semester_indexes@[j],
                    *plan,
                    used@[j] as int,
                ),
    {
        if semester_used(plan, f) {
            semester_indexes.push(semester_index_page(plan, f));
            used.push(f);
            assert(used@.map_values(|x: usize| x as int) =~= present_semesters(
                plan.courses@,
                f as int,
            ).push(f as int));
        }
    }
    let ghost sems = plan_semesters(*plan);
    assert(forall|j: int| 0 <= j < used@.len() ==> sems[j] == (#[trigger] used@[j]) as int) by {
        assert forall|j: int| 0 <= j < used@.len() implies sems[j] == (#[trigger] used@[j]) as int by {
            assert(used@.map_values(|x: usize| x as int)[j] == used@[j] as int);
        }
    }
    // shared categories
    let mut category_pages_out: Vec<PageDraft> = Vec::new();
    let mut category_indexes: Vec<IndexPage> = Vec::new();
    let mut page_cats: Vec<usize> = Vec::new();
    let mut page_ids: Vec<String> = Vec::new();
    for k in 0..shared_categories.len()
        invariant
            y@ == plan.year@,
            c@ == plan.major_code@,
            sources_fit(*sources),
            cats == shared_categories@,
            category_pages_out@.len() == category_items(cats.take(k as int), repos_set@, *sources).len(),
            forall|j: int|
                0 <= j < category_pages_out@.len() ==> {
                    let items = category_items(cats.take(k as int), repos_set@, *sources);
                    category_draft_shows(
                        #[trigger] category_pages_out@[j],
                        *plan,
                        cats[items[j].0],
                        items[j].1,
                        *grades_summary,
                        no_course_info_repo_ids@,
                        *sources,
                    )
                },
            page_cats@.map_values(|x: usize| x as int) == categories_with_pages(
                cats.take(k as int),
                repos_set@,
                *sources,
            ),
            forall|m: int| 0 <= m < page_cats@.len() ==> (#[trigger] page_cats@[m]) < k,
            category_indexes@.len() == page_cats@.len(),
            page_ids@.len() == page_cats@.len(),
            forall|j: int|
                0 <= j < page_cats@.len() ==> (#[trigger] page_ids@[j])@ == cats[page_cats@[j] as int].id@,
            forall|j: int|
                0 <= j < page_cats@.len() ==> category_index_shows(
                    #[trigger] category_indexes@[j],
                    *plan,
                    cats[page_cats@[j] as int],
                    category_repos(cats[page_cats@[j] as int].repo_ids@, repos_set@, *sources),
                    *sources,
                ),
    {
        let cat = &shared_categories[k];
        let ghost old_items = category_items(cats.take(k as int), repos_set@, *sources);
        assert(cats.take(k + 1).drop_last() =~= cats.take(k as int));
        assert(cats.take(k + 1).last() == cats[k as int]);
        let (mut drafts, index) = category_pages(
            plan,
            cat,
            grades_summary,
            no_course_info_repo_ids,
            repos_set,
            sources,
        );
        let ghost new_drafts = drafts@;
        let ghost before = category_pages_out@;
        let ghost listed = category_repos(cats[k as int].repo_ids@, repos_set@, *sources);
        category_pages_out.append(&mut drafts);
        proof {
            let items = category_items(cats.take(k + 1), repos_set@, *sources);
            assert(items =~= old_items + listed.map_values(|r: Seq<char>| (k as int, r)));
            assert forall|j: int| 0 <= j < category_pages_out@.len() implies category_draft_shows(
                #[trigger] category_pages_out@[j],
                *plan,
                cats[items[j].0],
                items[j].1,
                *grades_summary,
                no_course_info_repo_ids@,
                *sources,
            ) by {
                if j < before.len() {
                    assert(category_pages_out@[j] == before[j]);
                    assert(items[j] == old_items[j]);
                } else {
                    assert(category_pages_out@[j] == new_drafts[j - before.len()]);
                    assert(items[j] == (k as int, listed[j - before.len()]));
                }
            }
        }
        match index {
            Some(page) => {
                category_indexes.push(page);
                page_cats.push(k);
                page_ids.push(cat.id.clone());
                assert(page_cats@.map_values(|x: usize| x as int) =~= categories_with_pages(
                    cats.take(k as int),
                    repos_set@,
                    *sources,
                ).push(k as int));
            },
            None => {},
        }
    }
    assert(cats.take(cats.len() as int) =~= cats);
    let ghost with_pages = categories_with_pages(cats, repos_set@, *sources);
    let ghost pids = with_pages.map_values(|k: int| cats[k].id@);
    assert(strings_view(page_ids@) =~= pids);
    // meta.json
    let mut meta_pages: Vec<String> = Vec::new();
    meta_pages.push(string_of("..."));
    assert(strings_view(meta_pages@) =~= seq!["..."@]);
    for j in 0..used.len()
        invariant
            y@ == plan.year@,
            c@ == plan.major_code@,
            forall|m: int| 0 <= m < used@.len() ==> (#[trigger] used@[m]) < SEMESTER_COUNT,
            forall|m: int| 0 <= m < used@.len() ==> sems[m] == (#[trigger] used@[m]) as int,
            used@.len() == sems.len(),
            strings_view(meta_pages@) == seq!["..."@] + sems.take(j as int).map_values(
                |f: int| semester_table()[f].1,
            ),
    {
        let entry = semester_entry(used[j]);
        let ghost prev = meta_pages@;
        let item = string_of(entry.1);
        meta_pages.push(item);
        assert(strings_view(meta_pages@) =~= strings_view(prev).push(item@));
        assert(sems.take(j + 1).map_values(|f: int| semester_table()[f].1) =~= sems.take(
            j as int,
        ).map_values(|f: int| semester_table()[f].1).push(semester_table()[sems[j as int]].1));
        assert(strings_view(meta_pages@) =~= seq!["..."@] + sems.take(j + 1).map_values(
            |f: int| semester_table()[f].1,
        ));
    }
    assert(sems.take(used@.len() as int) =~= sems);
    let ghost head = strings_view(meta_pages@);
    for j in 0..page_ids.len()
        invariant
            y@ == plan.year@,
            c@ == plan.major_code@,
            strings_view(meta_pages@) == head + strings_view(page_ids@.take(j as int)),
    {
        let ghost prev = meta_pages@;
        let item = page_ids[j].clone();
        meta_pages.push(item);
        assert(strings_view(meta_pages@) =~= strings_view(prev).push(item@));
        assert(strings_view(page_ids@.take(j + 1)) =~= strings_view(page_ids@.take(j as int)).push(
            page_ids@[j as int]@,
        ));
        assert(strings_view(meta_pages@) =~= head + strings_view(page_ids@.take(j + 1)));
    }
    assert(page_ids@.take(page_ids@.len() as int) =~= page_ids@);
    // major index
    let mut lines: Vec<Vec<char>> = Vec::new();
    for j in 0..used.len()
        invariant
            y@ == plan.year@,
            c@ == plan.major_code@,
            forall|m: int| 0 <= m < used@.len() ==> (#[trigger] used@[m]) < SEMESTER_COUNT,
            forall|m: int| 0 <= m < used@.len() ==> sems[m] == (#[trigger] used@[m]) as int,
            used@.len() == sems.len(),
            lines@.len() == j,
            forall|m: int|
                0 <= m < j ==> (#[trigger] lines@[m])@ == card_line(
                    semester_table()[sems[m]].2,
                    docs_href(seq![plan.year@, plan.major_code@, semester_table()[sems[m]].1]),
                ),
    {
        let entry = semester_entry(used[j]);
        let parts = vec![y, c, entry.1];
        let href = docs_href_exec(&parts);
        assert(parts@.map_values(|s: &str| s@) =~= seq![plan.year@, plan.major_code@, entry.1@]);
        lines.push(card_line_exec(entry.2, &href));
    }
    let ghost sem_lines = lines@.map_values(|p: Vec<char>| p@);
    for k in 0..shared_categories.len()
        invariant
            y@ == plan.year@,
            c@ == plan.major_code@,
            cats == shared_categories@,
            strings_view(page_ids@) == pids,
            lines@.map_values(|p: Vec<char>| p@) == sem_lines + category_card_lines(
                cats.take(k as int),
                pids,
                plan.year@,
                plan.major_code@,
            ),
    {
        let cat = &shared_categories[k];
        assert(cats.take(k + 1).drop_last() =~= cats.take(k as int));
        assert(cats.take(k + 1).last() == cats[k as int]);
        let listed = strings_contain(&page_ids, cat.id.as_str());
        proof {
            if listed {
                let i = choose|i: int| 0 <= i < page_ids@.len() && (#[trigger] page_ids@[i])@ == cat.id@;
                assert(pids[i] == cat.id@);
            }
            if pids.contains(cat.id@) {
                let i = choose|i: int| 0 <= i < pids.len() && pids[i] == cat.id@;
                assert(strings_view(page_ids@)[i] == page_ids@[i]@);
            }
        }
        let ghost prev = lines@.map_values(|p: Vec<char>| p@);
        if listed {
            let parts = vec![y, c, cat.id.as_str()];
            let href = docs_href_exec(&parts);
            assert(parts@.map_values(|s: &str| s@) =~= seq![plan.year@, plan.major_code@, cat.id@]);
            let line = card_line_exec(cat.title.as_str(), &href);
            lines.push(line);
            assert(lines@.map_values(|p: Vec<char>| p@) =~= prev.push(line@));
        }
        assert(lines@.map_values(|p: Vec<char>| p@) =~= sem_lines + category_card_lines(
            cats.take(k + 1),
            pids,
            plan.year@,
            plan.major_code@,
        ));
    }
    assert(sem_lines =~= major_semester_lines(sems, plan.year@, plan.major_code@));
    let content = cards_page_exec("目录", lines);
    let major_index = IndexPage { path: path3(y, c, "index.mdx"), content };
    let r = PlanPages {
        dirs,
        course_pages,
        semester_indexes,
        category_pages: category_pages_out,
        category_indexes,
        meta_title: plan.major_name.clone(),
        meta_pages,
        major_index,
    };
    assert(paths_view(r.dirs@) =~= seq![seq![plan.year@, plan.major_code@]] + course_dirs(
        *plan,
        plan.courses@,
    ) + Seq::new(cats.len(), |k: int| seq![plan.year@, plan.major_code@, cats[k].id@]));
    r
}

// ---------------------------------------------------------------------------
// Year pages
// ---------------------------------------------------------------------------

/// A year's index page.
#[derive(Debug)]
pub struct YearPage {
    pub year: String,
    pub index: String,
}

/// Cards of the majors of `year`, in plan order.
pub open spec fn year_major_lines(plans: Seq<Plan>, year: Seq<char>) -> Seq<Seq<char>>
    decreases plans.len(),
{
    if plans.len() == 0 {
        Seq::empty()
    } else {
        let p = year_major_lines(plans.drop_last(), year);
        let last = plans.last();
        if last.year@ == year {
            p.push(card_line(last.major_name@, docs_href(seq![year, last.major_code@])))
        } else {
            p
        }
    }
}

/// `line` is the card of a major of `year` among `plans`.
pub open spec fn is_major_card(line: Seq<char>, plans: Seq<Plan>, year: Seq<char>) -> bool {
    exists|k: int|
        0 <= k < plans.len() && (#[trigger] plans[k]).year@ == year && line == "  <Card title=\""@
            + plans[k].major_name@ + "\" href=\""@ + "/docs/"@ + year + "/"@ + plans[k].major_code@
            + "\" />"@
}

/// The cards of a year's index page are those of the majors of that year, each
/// titled by the major's name and linking to `/docs/{year}/{major_code}`: every
/// card is such a major's, and every plan of that year has its card.
pub proof fn law_year_major_cards(plans: Seq<Plan>, year: Seq<char>)
    ensures
        forall|m: int|
            0 <= m < year_major_lines(plans, year).len() ==> is_major_card(
                #[trigger] year_major_lines(plans, year)[m],
                plans,
                year,
            ),
        forall|k: int|
            0 <= k < plans.len() && (#[trigger] plans[k]).year@ == year ==> year_major_lines(
                plans,
                year,
            ).contains(
                "  <Card title=\""@ + plans[k].major_name@ + "\" href=\""@ + "/docs/"@ + year + "/"@
                    + plans[k].major_code@ + "\" />"@,
            ),
    decreases plans.len(),
{
    if plans.len() > 0 {
        let init = plans.drop_last();
        let last = plans.last();
        law_year_major_cards(init, year);
        let p = year_major_lines(init, year);
        let lines = year_major_lines(plans, year);
        let text = "  <Card title=\""@ + last.major_name@ + "\" href=\""@ + "/docs/"@ + year + "/"@
            + last.major_code@ + "\" />"@;
        let two = seq![year, last.major_code@];
        assert(two.drop_last() =~= seq![year]);
        assert(join(seq![year], "/"@) == year);
        assert(two.last() == last.major_code@);
        assert(join(two, "/"@) =~= year + "/"@ + last.major_code@);
        assert(docs_href(two) =~= "/docs/"@ + year + "/"@ + last.major_code@);
        assert(card_line(last.major_name@, docs_href(two)) =~= text);
        assert forall|m: int| 0 <= m < lines.len() implies is_major_card(#[trigger] lines[m], plans, year) by {
            if m < p.len() {
                assert(lines[m] == p[m]);
                assert(is_major_card(p[m], init, year));
                let k = choose|k: int|
                    0 <= k < init.len() && (#[trigger] init[k]).year@ == year && p[m] == "  <Card title=\""@
                        + init[k].major_name@ + "\" href=\""@ + "/docs/"@ + year + "/"@ + init[k].major_code@
                        + "\" />"@;
                assert(plans[k] == init[k]);
            } else {
                assert(lines[m] == text);
                assert(plans[plans.len() - 1] == last);
            }
        }
        assert forall|k: int| 0 <= k < plans.len() && (#[trigger] plans[k]).year@ == year implies lines.contains(
            "  <Card title=\""@ + plans[k].major_name@ + "\" href=\""@ + "/docs/"@ + year + "/"@
                + plans[k].major_code@ + "\" />"@,
        ) by {
            if k < init.len() {
                assert(init[k] == plans[k]);
                let m = choose|m: int| 0 <= m < p.len() && p[m] == "  <Card title=\""@
                    + init[k].major_name@ + "\" href=\""@ + "/docs/"@ + year + "/"@ + init[k].major_code@
                    + "\" />"@;
                assert(lines[m] == p[m]);
            } else {
                assert(plans[k] == last);
                assert(lines[p.len() as int] == text);
            }
        }
    }
}

/// Some plan of `plans` is of `year`.
pub open spec fn plans_have_year(plans: Seq<Plan>, year: Seq<char>) -> bool {
    exists|i: int| 0 <= i < plans.len() && (#[trigger] plans[i]).year@ == year
}

/// Some page of `pages` is the page of `year`.
pub open spec fn pages_have_year(pages: Seq<YearPage>, year: Seq<char>) -> bool {
    exists|j: int| 0 <= j < pages.len() && (#[trigger] pages[j]).year@ == year
}

/// The index page of each year of `plans`, in year order, each year once.
pub fn year_pages(plans: &Vec<Plan>) -> (r: Vec<YearPage>)
    ensures
        forall|j: int, k: int|
            0 <= j < k < r@.len() ==> lex_le((#[trigger] r@[j]).year@, (#[trigger] r@[k]).year@)
                && r@[j].year@ != r@[k].year@,
        forall|j: int| 0 <= j < r@.len() ==> plans_have_year(plans@, (#[trigger] r@[j]).year@),
        forall|i: int| 0 <= i < plans@.len() ==> pages_have_year(r@, (#[trigger] plans@[i]).year@),
        forall|j: int|
            0 <= j < r@.len() ==> (#[trigger] r@[j]).index@ == cards_page(
                "目录"@,
                year_major_lines(plans@, r@[j].year@),
            ),
{
    let mut years: Vec<String> = Vec::new();
    for i in 0..plans.len()
        invariant
            forall|a: int, b: int|
                0 <= a < years@.len() && 0 <= b < years@.len() && a != b ==> (#[trigger] years@[a])@
                    != (#[trigger] years@[b])@,
            forall|a: int|
                0 <= a < years@.len() ==> exists|m: int|
                    0 <= m < plans@.len() && plans@[m].year@ == (#[trigger] years@[a])@,
            forall|m: int| 0 <= m < i ==> has_text(years@, (#[trigger] plans@[m]).year@),
    {
        if !strings_contain(&years, plans[i].year.as_str()) {
            let ghost prev = years@;
            years.push(plans[i].year.clone());
            proof {
                assert forall|m: int| 0 <= m < i + 1 implies has_text(years@, (#[trigger] plans@[m]).year@) by {
                    if m < i {
                        let a = choose|a: int| 0 <= a < prev.len() && (#[trigger] prev[a])@ == plans@[m].year@;
                        assert(years@[a] == prev[a]);
                    } else {
                        assert(years@[prev.len() as int]@ == plans@[m].year@);
                    }
                }
            }
        }
    }
    let ghost unsorted = years@;
    let years = crate::sorting::sort_by_le(years);
    proof {
        let p = choose|p: Seq<int>| crate::sorting::permutation_witness(years@, unsorted, p);
        crate::sorting::lemma_permutation_elements(years@, unsorted);
        assert forall|j: int, k: int| 0 <= j < k < years@.len() implies lex_le(
            (#[trigger] years@[j])@,
            (#[trigger] years@[k])@,
        ) && years@[j]@ != years@[k]@ by {
            assert(crate::sorting::TotalPreorder::le_spec(&years@[j], &years@[k]));
            assert(years@[j] == unsorted[p[j]]);
            assert(years@[k] == unsorted[p[k]]);
            assert(p[j] != p[k]);
            assert(unsorted[p[j]]@ != unsorted[p[k]]@);
        }
    }
    let mut pages: Vec<YearPage> = Vec::new();
    for j in 0..years.len()
        invariant
            pages@.len() == j,
            forall|a: int|
                0 <= a < j ==> (#[trigger] pages@[a]).year@ == years@[a]@ && pages@[a].index@
                    == cards_page("目录"@, year_major_lines(plans@, years@[a]@)),
    {
        let year = years[j].as_str();
        let mut lines: Vec<Vec<char>> = Vec::new();
        for i in 0..plans.len()
            invariant
                lines@.map_values(|p: Vec<char>| p@) == year_major_lines(
                    plans@.take(i as int),
                    year@,
                ),
        {
            assert(plans@.take(i + 1).drop_last() =~= plans@.take(i as int));
            assert(plans@.take(i + 1).last() == plans@[i as int]);
            let ghost prev = lines@.map_values(|p: Vec<char>| p@);
            if str_eq(plans[i].year.as_str(), year) {
                let parts = vec![year, plans[i].major_code.as_str()];
                let href = docs_href_exec(&parts);
                assert(parts@.map_values(|s: &str| s@) =~= seq![year@, plans@[i as int].major_code@]);
                let line = card_line_exec(plans[i].major_name.as_str(), &href);
                lines.push(line);
                assert(lines@.map_values(|p: Vec<char>| p@) =~= prev.push(line@));
            }
        }
        assert(plans@.take(plans@.len() as int) =~= plans@);
        let index = cards_page_exec("目录", lines);
        pages.push(YearPage { year: string_of(year), index });
    }
    proof {
        assert forall|j: int| 0 <= j < pages@.len() implies plans_have_year(
            plans@,
            (#[trigger] pages@[j]).year@,
        ) by {
            assert(unsorted.contains(years@[j]));
            let a = choose|a: int| 0 <= a < unsorted.len() && unsorted[a] == years@[j];
            let m = choose|m: int| 0 <= m < plans@.len() && plans@[m].year@ == (#[trigger] unsorted[a])@;
            assert(plans@[m].year@ == pages@[j].year@);
        }
        assert forall|i: int| 0 <= i < plans@.len() implies pages_have_year(
            pages@,
            (#[trigger] plans@[i]).year@,
        ) by {
            let a = choose|a: int| 0 <= a < unsorted.len() && (#[trigger] unsorted[a])@ == plans@[i].year@;
            assert(years@.contains(unsorted[a]));
            let j = choose|j: int| 0 <= j < years@.len() && years@[j] == unsorted[a];
            assert(pages@[j].year@ == years@[j]@);
        }
    }
    pages
}

} // verus!

use vstd::prelude::*;

use crate::models::{
    Course, CourseIntroduction, GradeDetail, Plan, PlanInfo, SharedCategory, TomlCourse, TomlPlan,
};
use crate::site::{has_text, strings_contain};
use crate::sorting::{is_permutation, sort_by_le, sorted_by_le, TotalPreorder};
use crate::table::StrTable;
use crate::text::{
    chars_eq, lemma_lex_le_total, lemma_lex_le_trans, lex_le, lex_le_chars, push_str,
    string_from_chars, to_chars, trim, trim_chars,
};

verus! {

broadcast use vstd::string::group_string_axioms;

/// Grade details of each repository, per plan variant key.
pub type GradesSummary = StrTable<StrTable<Vec<GradeDetail>>>;

/// Introductions of each course code, per variant key.
pub type CourseIntroductions = StrTable<StrTable<CourseIntroduction>>;

/// Repository of each course code: under a plan ID, or under `DEFAULT`/`default`.
pub type LookupTable = StrTable<StrTable<String>>;

// ---------------------------------------------------------------------------
// Repository IDs
// ---------------------------------------------------------------------------

/// The repository mapped to `code` for `plan`, before trimming: the plan's own
/// entry, else `DEFAULT`, else `default`.
pub open spec fn mapped_repo(table: LookupTable, code: Seq<char>, plan: Seq<char>) -> Option<Seq<char>> {
    match table.lookup(code) {
        Some(m) => match m.lookup(plan) {
            Some(r) => Some(r@),
            None => match m.lookup("DEFAULT"@) {
                Some(r) => Some(r@),
                None => match m.lookup("default"@) {
                    Some(r) => Some(r@),
                    None => None,
                },
            },
        },
        None => None,
    }
}

/// The repository of course `code` in plan `plan`: the mapped repository,
/// trimmed, unless absent or blank; otherwise the course code itself.
pub open spec fn resolved_repo_id(table: LookupTable, code: Seq<char>, plan: Seq<char>) -> Seq<char> {
    match mapped_repo(table, code, plan) {
        Some(r) => if trim(r).len() > 0 {
            trim(r)
        } else {
            code
        },
        None => code,
    }
}

/// The repository of a course code: its plan's own entry in the lookup table,
/// else the `DEFAULT` entry, else the `default` one, trimmed; a course code with
/// no entry, or whose chosen entry is blank, is its own repository.
pub proof fn law_repo_id_priority(table: LookupTable, code: Seq<char>, plan: Seq<char>)
    ensures
        table.lookup(code) is None ==> resolved_repo_id(table, code, plan) == code,
        table.lookup(code) matches Some(m) ==> {
            let r = resolved_repo_id(table, code, plan);
            &&& m.lookup(plan) matches Some(v) ==> r == (if trim(v@).len() > 0 {
                trim(v@)
            } else {
                code
            })
            &&& m.lookup(plan) is None ==> (m.lookup("DEFAULT"@) matches Some(v) ==> r == (if trim(
                v@,
            ).len() > 0 {
                trim(v@)
            } else {
                code
            }))
            &&& m.lookup(plan) is None && m.lookup("DEFAULT"@) is None ==> (m.lookup("default"@) matches Some(v)
                ==> r == (if trim(v@).len() > 0 {
                trim(v@)
            } else {
                code
            }))
            &&& m.lookup(plan) is None && m.lookup("DEFAULT"@) is None && m.lookup("default"@) is None
                ==> r == code
        },
{
}

/// Resolves the repository of a course code by the lookup table: exact plan
/// match, then `DEFAULT` (or `default`), then the course code itself.
pub fn resolve_repo_id(lookup_table: &LookupTable, course_code: &str, plan_id: &str) -> (r: String)
    ensures
        r@ == resolved_repo_id(*lookup_table, course_code@, plan_id@),
{
    let chosen: Option<&String> = match lookup_table.get(course_code) {
        Some(mapping) => match mapping.get(plan_id) {
            Some(r) => Some(r),
            None => match mapping.get("DEFAULT") {
                Some(r) => Some(r),
                None => mapping.get("default"),
            },
        },
        None => None,
    };
    match chosen {
        Some(repo) => {
            let chars = to_chars(repo.as_str());
            let trimmed = trim_chars(&chars);
            if trimmed.len() > 0 {
                return string_from_chars(&trimmed);
            }
        },
        None => {},
    }
    let mut r = String::new();
    push_str(&mut r, course_code);
    r
}

// ---------------------------------------------------------------------------
// Grade details
// ---------------------------------------------------------------------------

/// The grade details under `key`, if present and not empty.
pub open spec fn nonempty_details(entry: StrTable<Vec<GradeDetail>>, key: Seq<char>) -> Option<
    Seq<GradeDetail>,
> {
    match entry.lookup(key) {
        Some(v) => if v@.len() > 0 {
            Some(v@)
        } else {
            None
        },
        None => None,
    }
}

/// The grade details of repository `repo` for a plan: the first non-empty list
/// among `{year}_{major_code}`, `{year}_{major_name}`, `{year}_default` and `default`.
pub open spec fn selected_details(
    gs: GradesSummary,
    repo: Seq<char>,
    year: Seq<char>,
    major_code: Seq<char>,
    major_name: Seq<char>,
) -> Option<Seq<GradeDetail>> {
    match gs.lookup(repo) {
        None => None,
        Some(entry) => {
            let keys = seq![
                year + "_"@ + major_code,
                year + "_"@ + major_name,
                year + "_default"@,
                "default"@,
            ];
            if nonempty_details(entry, keys[0]) is Some {
                nonempty_details(entry, keys[0])
            } else if nonempty_details(entry, keys[1]) is Some {
                nonempty_details(entry, keys[1])
            } else if nonempty_details(entry, keys[2]) is Some {
                nonempty_details(entry, keys[2])
            } else {
                nonempty_details(entry, keys[3])
            }
        },
    }
}

/// Name and percentage text of each grade detail.
pub open spec fn details_view(v: Seq<GradeDetail>) -> Seq<(Seq<char>, Option<Seq<char>>)> {
    v.map_values(
        |d: GradeDetail|
            (
                d.name@,
                match d.percent {
                    Some(p) => Some(p@),
                    None => None,
                },
            ),
    )
}

/// A copy of a list of grade details.
pub fn copy_details(v: &Vec<GradeDetail>) -> (r: Vec<GradeDetail>)
    ensures
        details_view(r@) == details_view(v@),
{
    let mut r: Vec<GradeDetail> = Vec::new();
    for i in 0..v.len()
        invariant
            r@.len() == i,
            forall|k: int| 0 <= k < i ==> details_view(r@)[k] == details_view(v@)[k],
    {
        r.push(v[i].duplicate());
        proof {
            assert(details_view(r@)[i as int] == details_view(v@)[i as int]);
        }
    }
    assert(details_view(r@) =~= details_view(v@));
    r
}

/// The grade details of `key` in `entry` when present and not empty.
fn nonempty_details_exec<'a>(entry: &'a StrTable<Vec<GradeDetail>>, key: &str) -> (r: Option<
    &'a Vec<GradeDetail>,
>)
    ensures
        match r {
            Some(v) => nonempty_details(*entry, key@) == Some(v@),
            None => nonempty_details(*entry, key@) is None,
        },
{
    match entry.get(key) {
        Some(v) => if v.len() > 0 {
            Some(v)
        } else {
            None
        },
        None => None,
    }
}

/// Concatenation of three strings.
fn concat3(a: &str, b: &str, c: &str) -> (r: String)
    ensures
        r@ == a@ + b@ + c@,
{
    let mut r = String::new();
    push_str(&mut r, a);
    push_str(&mut r, b);
    push_str(&mut r, c);
    r
}

/// Whether `entry` holds a non-empty list of grade details under `key`.
pub open spec fn has_details_under(entry: StrTable<Vec<GradeDetail>>, key: Seq<char>) -> bool {
    entry.lookup(key) matches Some(v) && v@.len() > 0
}

/// The order in which grade details are looked up: under `{year}_{major_code}`,
/// then `{year}_{major_name}`, then `{year}_default`, then `default`; the first
/// key with a non-empty list gives it, an absent or empty list passes to the next
/// key, and with none of them (or no entry for the repository) there are none.
pub proof fn law_grade_details_priority(
    gs: GradesSummary,
    repo: Seq<char>,
    year: Seq<char>,
    major_code: Seq<char>,
    major_name: Seq<char>,
)
    ensures
        gs.lookup(repo) is None ==> selected_details(gs, repo, year, major_code, major_name) is None,
        gs.lookup(repo) matches Some(entry) ==> {
            let by_code = year + "_"@ + major_code;
            let by_name = year + "_"@ + major_name;
            let by_year = year + "_default"@;
            let any = "default"@;
            let sel = selected_details(gs, repo, year, major_code, major_name);
            &&& has_details_under(entry, by_code) ==> sel == Some(entry.lookup(by_code)->0@)
            &&& !has_details_under(entry, by_code) && has_details_under(entry, by_name) ==> sel
                == Some(entry.lookup(by_name)->0@)
            &&& !has_details_under(entry, by_code) && !has_details_under(entry, by_name)
                && has_details_under(entry, by_year) ==> sel == Some(entry.lookup(by_year)->0@)
            &&& !has_details_under(entry, by_code) && !has_details_under(entry, by_name)
                && !has_details_under(entry, by_year) && has_details_under(entry, any) ==> sel
                == Some(entry.lookup(any)->0@)
            &&& !has_details_under(entry, by_code) && !has_details_under(entry, by_name)
                && !has_details_under(entry, by_year) && !has_details_under(entry, any) ==> sel
                is None
        },
{
}

/// Selected grade details are never empty: an empty list under a key counts as
/// no details there, and the search goes on to the next key.
pub proof fn law_selected_details_not_empty(
    gs: GradesSummary,
    repo: Seq<char>,
    year: Seq<char>,
    major_code: Seq<char>,
    major_name: Seq<char>,
)
    ensures
        selected_details(gs, repo, year, major_code, major_name) matches Some(d) ==> d.len() > 0,
{
}

/// Selects the grade details of a course by the most specific matching key.
pub fn select_grade_details(
    grades_summary: &GradesSummary,
    repo_id: &str,
    year: &str,
    major_code: &str,
    major_name: &str,
) -> (r: Option<Vec<GradeDetail>>)
    ensures
        match (r, selected_details(*grades_summary, repo_id@, year@, major_code@, major_name@)) {
            (Some(v), Some(s)) => details_view(v@) == details_view(s),
            (None, None) => true,
            _ => false,
        },
{
    let entry = match grades_summary.get(repo_id) {
        Some(e) => e,
        None => return None,
    };
    let k1 = concat3(year, "_", major_code);
    let k2 = concat3(year, "_", major_name);
    let k3 = concat3(year, "_default", "");
    proof {
        reveal_strlit("");
        assert(k3@ =~= year@ + "_default"@);
    }
    if let Some(v) = nonempty_details_exec(entry, k1.as_str()) {
        return Some(copy_details(v));
    }
    if let Some(v) = nonempty_details_exec(entry, k2.as_str()) {
        return Some(copy_details(v));
    }
    if let Some(v) = nonempty_details_exec(entry, k3.as_str()) {
        return Some(copy_details(v));
    }
    if let Some(v) = nonempty_details_exec(entry, "default") {
        return Some(copy_details(v));
    }
    None
}

// ---------------------------------------------------------------------------
// Courses and plans
// ---------------------------------------------------------------------------

/// The `default` introduction of course `code`, if any.
pub open spec fn introduction_of(intros: CourseIntroductions, code: Seq<char>) -> Option<
    CourseIntroduction,
> {
    match intros.lookup(code) {
        Some(variants) => variants.lookup("default"@),
        None => None,
    }
}

/// `r` is course `c` of plan `info`, enriched: its repository resolved, its grade
/// details taken from the plan file or else selected from the summary, its
/// introduction looked up by course code (empty when missing).
pub open spec fn is_enriched(
    r: Course,
    c: TomlCourse,
    info: PlanInfo,
    gs: GradesSummary,
    intros: CourseIntroductions,
    lt: LookupTable,
) -> bool {
    &&& r.repo_id@ == resolved_repo_id(lt, c.course_code@, info.plan_id@)
    &&& r.name@ == c.course_name@
    &&& r.credit_bits == c.credit_bits
    &&& r.assessment_method == c.assessment_method
    &&& r.course_nature == c.course_nature
    &&& r.recommended_semester == c.recommended_year_semester
    &&& r.hours == c.hours
    &&& r.total_hours == c.total_hours
    &&& match c.grade_details {
        Some(v) => r.grade_details matches Some(g) && g == v,
        None => match (
            r.grade_details,
            selected_details(
                gs,
                r.repo_id@,
                info.year@,
                info.major_code@,
                info.major_name@,
            ),
        ) {
            (Some(g), Some(s)) => details_view(g@) == details_view(s),
            (None, None) => true,
            _ => false,
        },
    }
    &&& match introduction_of(intros, c.course_code@) {
        Some(i) => r.introduction.zh@ == i.zh@ && r.introduction.en@ == i.en@,
        None => r.introduction.zh@.len() == 0 && r.introduction.en@.len() == 0,
    }
}

/// Enriches course `c` of `info`'s plan (see `is_enriched`).
pub fn enrich_course(
    c: TomlCourse,
    info: &PlanInfo,
    grades_summary: &GradesSummary,
    introductions: &CourseIntroductions,
    lookup_table: &LookupTable,
) -> (r: Course)
    ensures
        is_enriched(r, c, *info, *grades_summary, *introductions, *lookup_table),
{
    let introduction = match introductions.get(c.course_code.as_str()) {
        Some(variants) => match variants.get("default") {
            Some(i) => i.duplicate(),
            None => CourseIntroduction::empty(),
        },
        None => CourseIntroduction::empty(),
    };
    let repo_id = resolve_repo_id(lookup_table, c.course_code.as_str(), info.plan_id.as_str());
    let grade_details = match c.grade_details {
        Some(v) => Some(v),
        None => select_grade_details(
            grades_summary,
            repo_id.as_str(),
            info.year.as_str(),
            info.major_code.as_str(),
            info.major_name.as_str(),
        ),
    };
    Course {
        repo_id,
        name: c.course_name,
        credit_bits: c.credit_bits,
        assessment_method: c.assessment_method,
        course_nature: c.course_nature,
        recommended_semester: c.recommended_year_semester,
        hours: c.hours,
        total_hours: c.total_hours,
        grade_details,
        introduction,
    }
}

/// Plan order: by year, then by major code.
pub open spec fn plan_le(a: &Plan, b: &Plan) -> bool {
    ||| lex_le(a.year@, b.year@) && a.year@ != b.year@
    ||| a.year@ == b.year@ && lex_le(a.major_code@, b.major_code@)
}

impl TotalPreorder for Plan {
    open spec fn le_spec(&self, other: &Self) -> bool {
        plan_le(self, other)
    }

    fn le(&self, other: &Self) -> (r: bool) {
        let ay = to_chars(self.year.as_str());
        let by = to_chars(other.year.as_str());
        if chars_eq(&ay, &by) {
            let ac = to_chars(self.major_code.as_str());
            let bc = to_chars(other.major_code.as_str());
            lex_le_chars(&ac, &bc)
        } else {
            lex_le_chars(&ay, &by)
        }
    }

    proof fn lemma_le_total(a: &Self, b: &Self) {
        lemma_lex_le_total(a.year@, b.year@);
        lemma_lex_le_total(a.major_code@, b.major_code@);
    }

    proof fn lemma_le_trans(a: &Self, b: &Self, c: &Self) {
        if lex_le(a.year@, b.year@) && lex_le(b.year@, c.year@) {
            lemma_lex_le_trans(a.year@, b.year@, c.year@);
        }
        if lex_le(a.major_code@, b.major_code@) && lex_le(b.major_code@, c.major_code@) {
            lemma_lex_le_trans(a.major_code@, b.major_code@, c.major_code@);
        }
        if a.year@ != b.year@ && b.year@ != c.year@ && a.year@ == c.year@ {
            crate::text::lemma_lex_le_antisym(a.year@, b.year@);
        }
    }
}

/// Sorted plans go by year, and within one year by major code, both in code
/// point order: of two plans, the earlier one has a year no later, and where the
/// years are equal a major code no later.
pub proof fn law_plans_by_year_then_major_code(plans: Seq<Plan>)
    requires
        sorted_by_le(plans),
    ensures
        forall|i: int, j: int|
            0 <= i < j < plans.len() ==> lex_le((#[trigger] plans[i]).year@, (#[trigger] plans[j]).year@)
                && (plans[i].year@ == plans[j].year@ ==> lex_le(
                plans[i].major_code@,
                plans[j].major_code@,
            )),
{
    assert forall|i: int, j: int| 0 <= i < j < plans.len() implies lex_le(
        (#[trigger] plans[i]).year@,
        (#[trigger] plans[j]).year@,
    ) && (plans[i].year@ == plans[j].year@ ==> lex_le(plans[i].major_code@, plans[j].major_code@)) by {
        assert(plans[i].le_spec(&plans[j]));
        lemma_lex_le_total(plans[i].year@, plans[j].year@);
    }
}

/// Puts plans in order of year and major code.
pub fn sort_plans(plans: Vec<Plan>) -> (r: Vec<Plan>)
    ensures
        sorted_by_le(r@),
        is_permutation(r@, plans@),
{
    sort_by_le(plans)
}

/// The plan of a plan file: its `[info]` and its courses, enriched, in order.
pub fn build_plan(
    toml_plan: TomlPlan,
    grades_summary: &GradesSummary,
    introductions: &CourseIntroductions,
    lookup_table: &LookupTable,
) -> (r: Plan)
    ensures
        r.year == toml_plan.info.year,
        r.major_code == toml_plan.info.major_code,
        r.major_name == toml_plan.info.major_name,
        r.courses@.len() == toml_plan.courses@.len(),
        forall|i: int|
            0 <= i < toml_plan.courses@.len() ==> is_enriched(
                #[trigger] r.courses@[i],
                toml_plan.courses@[i],
                toml_plan.info,
                *grades_summary,
                *introductions,
                *lookup_table,
            ),
{
    let TomlPlan { info, courses } = toml_plan;
    let mut out: Vec<Course> = Vec::new();
    let mut rest = courses;
    let ghost all = rest@;
    assert(all.skip(0) =~= all);
    while rest.len() > 0
        invariant
            out@.len() + rest@.len() == all.len(),
            rest@ == all.skip(out@.len() as int),
            forall|i: int|
                0 <= i < out@.len() ==> is_enriched(
                    #[trigger] out@[i],
                    all[i],
                    info,
                    *grades_summary,
                    *introductions,
                    *lookup_table,
                ),
        decreases rest@.len(),
    {
        let c = rest.remove(0);
        assert(rest@ =~= all.skip(out@.len() + 1 as int));
        let course = enrich_course(c, &info, grades_summary, introductions, lookup_table);
        out.push(course);
    }
    Plan { year: info.year, major_code: info.major_code, major_name: info.major_name, courses: out }
}

// ---------------------------------------------------------------------------
// Shared categories and local repositories
// ---------------------------------------------------------------------------

/// Shared categories, and the repositories whose pages are index pages without
/// course information.
#[derive(Debug)]
pub struct SharedCategoriesConfig {
    pub categories: Vec<SharedCategory>,
    pub no_course_info_repo_ids: Vec<String>,
}

impl SharedCategoriesConfig {
    /// No categories and no index-page repositories: what a missing or
    /// unreadable `shared_categories.toml` gives.
    pub fn empty() -> (r: SharedCategoriesConfig)
        ensures
            r.categories@.len() == 0,
            r.no_course_info_repo_ids@.len() == 0,
    {
        SharedCategoriesConfig { categories: Vec::new(), no_course_info_repo_ids: Vec::new() }
    }
}

/// Position of the last `.` in `name`, if any.
pub open spec fn last_dot(name: Seq<char>, end: int) -> Option<int>
    decreases end,
{
    if end <= 0 {
        None
    } else if name[end - 1] == '.' {
        Some(end - 1)
    } else {
        last_dot(name, end - 1)
    }
}

/// The repository ID that a file in `repos/` named `file_name` stands for: the
/// stem of an `.mdx` file (a name like `.mdx`, with nothing before its only dot,
/// has no extension).
pub open spec fn repo_id_of_file(file_name: Seq<char>) -> Option<Seq<char>> {
    if file_name == ".."@ {
        None
    } else {
        match last_dot(file_name, file_name.len() as int) {
            Some(i) => if i > 0 && file_name.skip(i + 1) == "mdx"@ {
                Some(file_name.take(i))
            } else {
                None
            },
            None => None,
        }
    }
}

/// The texts of `s` in order of first occurrence, each once.
pub open spec fn first_occurrences(s: Seq<Seq<char>>) -> Seq<Seq<char>>
    decreases s.len(),
{
    if s.len() == 0 {
        Seq::empty()
    } else {
        let p = first_occurrences(s.drop_last());
        if p.contains(s.last()) {
            p
        } else {
            p.push(s.last())
        }
    }
}

/// The IDs of `ids`, each once, in order of first occurrence: no ID occurs twice,
/// every ID of `ids` occurs, and nothing else does.
pub fn unique_ids(ids: Vec<String>) -> (r: Vec<String>)
    ensures
        r@.map_values(|s: String| s@) == first_occurrences(ids@.map_values(|s: String| s@)),
        forall|i: int, j: int|
            0 <= i < r@.len() && 0 <= j < r@.len() && i != j ==> (#[trigger] r@[i])@ != (
            #[trigger] r@[j])@,
        forall|k: int| 0 <= k < ids@.len() ==> has_text(r@, (#[trigger] ids@[k])@),
        forall|j: int| 0 <= j < r@.len() ==> has_text(ids@, (#[trigger] r@[j])@),
{
    let ghost view = ids@.map_values(|s: String| s@);
    let mut out: Vec<String> = Vec::new();
    for i in 0..ids.len()
        invariant
            view == ids@.map_values(|s: String| s@),
            out@.map_values(|s: String| s@) == first_occurrences(view.take(i as int)),
            forall|a: int, b: int|
                0 <= a < out@.len() && 0 <= b < out@.len() && a != b ==> (#[trigger] out@[a])@ != (
                #[trigger] out@[b])@,
            forall|k: int| 0 <= k < i ==> has_text(out@, (#[trigger] ids@[k])@),
            forall|j: int| 0 <= j < out@.len() ==> has_text(ids@, (#[trigger] out@[j])@),
    {
        assert(view.take(i + 1).drop_last() =~= view.take(i as int));
        assert(view.take(i + 1).last() == ids@[i as int]@);
        let ghost prev = out@;
        let ghost pv = out@.map_values(|s: String| s@);
        if !strings_contain(&out, ids[i].as_str()) {
            out.push(ids[i].clone());
            proof {
                assert(out@.map_values(|s: String| s@) =~= pv.push(ids@[i as int]@));
                if pv.contains(ids@[i as int]@) {
                    let a = choose|a: int| 0 <= a < pv.len() && pv[a] == ids@[i as int]@;
                    assert(prev[a]@ == ids@[i as int]@);
                }
                assert forall|k: int| 0 <= k < i + 1 implies has_text(out@, (#[trigger] ids@[k])@) by {
                    if k < i {
                        let a = choose|a: int| 0 <= a < prev.len() && (#[trigger] prev[a])@ == ids@[k]@;
                        assert(out@[a] == prev[a]);
                    } else {
                        assert(out@[prev.len() as int]@ == ids@[k]@);
                    }
                }
                assert forall|j: int| 0 <= j < out@.len() implies has_text(ids@, (#[trigger] out@[j])@) by {
                    if j < prev.len() {
                        assert(out@[j] == prev[j]);
                    } else {
                        assert(ids@[i as int]@ == out@[j]@);
                    }
                }
            }
        } else {
            proof {
                let a = choose|a: int| 0 <= a < prev.len() && (#[trigger] prev[a])@ == ids@[i as int]@;
                assert(pv[a] == ids@[i as int]@);
                assert(pv.contains(ids@[i as int]@));
            }
        }
    }
    assert(view.take(ids@.len() as int) =~= view);
    out
}

/// `last_dot` finds the dot at `i` when no dot follows it before `end`.
proof fn lemma_last_dot_after(name: Seq<char>, end: int, i: int)
    requires
        0 <= i < end <= name.len(),
        name[i] == '.',
        forall|k: int| i < k < end ==> #[trigger] name[k] != '.',
    ensures
        last_dot(name, end) == Some(i),
    decreases end,
{
    if end - 1 > i {
        lemma_last_dot_after(name, end - 1, i);
    }
}

/// The course file that is saved for a repository, `{repo_id}.mdx`, names that
/// repository again.
pub proof fn law_mdx_file_names_its_repository(repo_id: Seq<char>)
    requires
        repo_id.len() > 0,
    ensures
        repo_id_of_file(repo_id + ".mdx"@) == Some(repo_id),
{
    reveal_strlit(".mdx");
    reveal_strlit("mdx");
    reveal_strlit("..");
    let name = repo_id + ".mdx"@;
    let i = repo_id.len() as int;
    assert(name[i] == '.');
    assert forall|k: int| i < k < name.len() implies #[trigger] name[k] != '.' by {
        assert(name[k] == ".mdx"@[k - i]);
    }
    lemma_last_dot_after(name, name.len() as int, i);
    if name == ".."@ {
        assert(name.len() == 2);
    }
    assert(name.skip(i + 1) =~= "mdx"@);
    assert(name.take(i) =~= repo_id);
}

/// The repository ID of a course file in `repos/`, when it is an `.mdx` file.
pub fn repo_id_from_file_name(file_name: &str) -> (r: Option<String>)
    ensures
        match r {
            Some(s) => repo_id_of_file(file_name@) == Some(s@),
            None => repo_id_of_file(file_name@) is None,
        },
{
    let chars = to_chars(file_name);
    let dots = to_chars("..");
    if chars_eq(&chars, &dots) {
        return None;
    }
    let mut end = chars.len();
    while end > 0 && chars[end - 1] != '.'
        invariant
            end <= chars@.len(),
            chars@ == file_name@,
            last_dot(chars@, chars@.len() as int) == last_dot(chars@, end as int),
        decreases end,
    {
        end -= 1;
    }
    if end <= 1 {
        return None;
    }
    let i = end - 1;
    let ext = crate::text::chars_slice(&chars, i + 1, chars.len());
    let mdx = to_chars("mdx");
    if chars_eq(&ext, &mdx) {
        let stem = crate::text::chars_slice(&chars, 0, i);
        Some(string_from_chars(&stem))
    } else {
        None
    }
}

} // verus!

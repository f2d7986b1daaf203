use vstd::prelude::*;

use crate::models::{
    Course, CourseIntroduction, CourseMetadata, Frontmatter, GradeDetail, GradingItem,
    HourDistribution, HourDistributionMeta,
};
use crate::sorting::{is_permutation, sort_by_le, sorted_by_le, TotalPreorder};
use crate::text::{
    chars_eq, chars_starts_with, find_pattern_chars, lemma_trim_idempotent, join, join_chars, lemma_lex_le_total,
    lemma_lex_le_trans, lex_le, lex_le_chars, lines, lines_chars, parse_u32, parse_u32_chars,
    push_str, split_once, starts_with, string_from_chars, to_chars, trim, trim_char,
    trim_char_chars, trim_chars, trim_end_char, trim_end_char_chars, trim_start_pattern,
    trim_start_pattern_chars, chars_slice, is_whitespace, trim_start, trim_end, trim_start_char,
    find_pattern, lemma_find_pattern_found, decimal, law_parse_decimal, lemma_decimal_digits,
    is_ascii_digit, lemma_split_join, split, strip_cr,
};

verus! {

broadcast use vstd::string::group_string_axioms;

/// The text of an optional string.
pub open spec fn opt_text(o: Option<String>) -> Option<Seq<char>> {
    match o {
        Some(s) => Some(s@),
        None => None,
    }
}

/// The text of an optional string slice.
pub open spec fn opt_str(o: Option<&str>) -> Option<Seq<char>> {
    match o {
        Some(s) => Some(s@),
        None => None,
    }
}

// ---------------------------------------------------------------------------
// Ordering of the courses of a semester
// ---------------------------------------------------------------------------

/// Rank of a course nature: 必修 (required), 限选 (restricted elective),
/// 选修 (elective), then anything else.
pub open spec fn nature_rank(nature: Option<Seq<char>>) -> u8 {
    match nature {
        Some(n) => if trim(n) == "必修"@ {
            0
        } else if trim(n) == "限选"@ {
            1
        } else if trim(n) == "选修"@ {
            2
        } else {
            3
        },
        None => 3,
    }
}

/// Rank of an assessment method: 考试 (exam), 考查 (coursework), then anything else.
pub open spec fn assessment_rank(method: Option<Seq<char>>) -> u8 {
    match method {
        Some(m) => if trim(m) == "考试"@ {
            0
        } else if trim(m) == "考查"@ {
            1
        } else {
            2
        },
        None => 2,
    }
}

/// Ranking ignores white space around a course nature or an assessment method.
pub proof fn law_ranks_ignore_surrounding_space(s: Seq<char>)
    ensures
        nature_rank(Some(s)) == nature_rank(Some(trim(s))),
        assessment_rank(Some(s)) == assessment_rank(Some(trim(s))),
{
    lemma_trim_idempotent(s);
}

/// Whether the text of `s`, trimmed, is `lit`.
fn trimmed_is(s: &str, lit: &str) -> (r: bool)
    ensures
        r == (trim(s@) == lit@),
{
    let c = to_chars(s);
    let t = trim_chars(&c);
    let l = to_chars(lit);
    chars_eq(&t, &l)
}

/// Sort rank of a course nature.
pub fn course_nature_rank(course_nature: Option<&str>) -> (r: u8)
    ensures
        r == nature_rank(opt_str(course_nature)),
{
    match course_nature {
        Some(n) => {
            if trimmed_is(n, "必修") {
                0
            } else if trimmed_is(n, "限选") {
                1
            } else if trimmed_is(n, "选修") {
                2
            } else {
                3
            }
        },
        None => 3,
    }
}

/// Sort rank of an assessment method.
pub fn assessment_method_rank(assessment_method: Option<&str>) -> (r: u8)
    ensures
        r == assessment_rank(opt_str(assessment_method)),
{
    match assessment_method {
        Some(m) => {
            if trimmed_is(m, "考试") {
                0
            } else if trimmed_is(m, "考查") {
                1
            } else {
                2
            }
        },
        None => 2,
    }
}

/// A course of which only the repository, a name and the grade details are known.
pub fn minimal_course(repo_id: &str, name: &str, grade_details: Option<Vec<GradeDetail>>) -> (r: Course)
    ensures
        r.repo_id@ == repo_id@,
        r.name@ == name@,
        r.credit_bits is None,
        r.assessment_method is None,
        r.course_nature is None,
        r.recommended_semester is None,
        r.hours is None,
        r.total_hours is None,
        r.grade_details == grade_details,
        r.introduction.zh@.len() == 0,
        r.introduction.en@.len() == 0,
{
    let mut id = String::new();
    push_str(&mut id, repo_id);
    let mut n = String::new();
    push_str(&mut n, name);
    Course {
        repo_id: id,
        name: n,
        credit_bits: None,
        assessment_method: None,
        course_nature: None,
        recommended_semester: None,
        hours: None,
        total_hours: None,
        grade_details,
        introduction: CourseIntroduction::empty(),
    }
}

/// A course's card on a semester index page.
#[derive(Debug)]
pub struct SemesterCourseCard {
    pub slug: String,
    pub name: String,
    pub course_nature: Option<String>,
    pub assessment_method: Option<String>,
    pub source_index: usize,
}

/// Card order: by nature rank, then assessment rank, then position in the plan,
/// then slug.
pub open spec fn card_le(a: &SemesterCourseCard, b: &SemesterCourseCard) -> bool {
    let na = nature_rank(opt_text(a.course_nature));
    let nb = nature_rank(opt_text(b.course_nature));
    let ma = assessment_rank(opt_text(a.assessment_method));
    let mb = assessment_rank(opt_text(b.assessment_method));
    ||| na < nb
    ||| na == nb && ma < mb
    ||| na == nb && ma == mb && a.source_index < b.source_index
    ||| na == nb && ma == mb && a.source_index == b.source_index && lex_le(a.slug@, b.slug@)
}

fn nature_rank_of(o: &Option<String>) -> (r: u8)
    ensures
        r == nature_rank(opt_text(*o)),
{
    match o {
        Some(s) => course_nature_rank(Some(s.as_str())),
        None => course_nature_rank(None),
    }
}

fn assessment_rank_of(o: &Option<String>) -> (r: u8)
    ensures
        r == assessment_rank(opt_text(*o)),
{
    match o {
        Some(s) => assessment_method_rank(Some(s.as_str())),
        None => assessment_method_rank(None),
    }
}

impl TotalPreorder for SemesterCourseCard {
    open spec fn le_spec(&self, other: &Self) -> bool {
        card_le(self, other)
    }

    fn le(&self, other: &Self) -> (r: bool) {
        let na = nature_rank_of(&self.course_nature);
        let nb = nature_rank_of(&other.course_nature);
        if na != nb {
            return na < nb;
        }
        let ma = assessment_rank_of(&self.assessment_method);
        let mb = assessment_rank_of(&other.assessment_method);
        if ma != mb {
            return ma < mb;
        }
        if self.source_index != other.source_index {
            return self.source_index < other.source_index;
        }
        let a = to_chars(self.slug.as_str());
        let b = to_chars(other.slug.as_str());
        lex_le_chars(&a, &b)
    }

    proof fn lemma_le_total(a: &Self, b: &Self) {
        lemma_lex_le_total(a.slug@, b.slug@);
    }

    proof fn lemma_le_trans(a: &Self, b: &Self, c: &Self) {
        if lex_le(a.slug@, b.slug@) && lex_le(b.slug@, c.slug@) {
            lemma_lex_le_trans(a.slug@, b.slug@, c.slug@);
        }
    }
}

/// The text of an optional string, trimmed.
pub open spec fn trimmed_text(o: Option<String>) -> Option<Seq<char>> {
    match o {
        Some(s) => Some(trim(s@)),
        None => None,
    }
}

/// Cards in card order: required (必修) courses first, then restricted electives
/// (限选), then electives (选修), then the rest; among courses of one nature,
/// exams (考试) before coursework (考查) before the rest; and among courses of
/// one nature and one assessment method, plan order.
pub proof fn law_semester_card_order(cards: Seq<SemesterCourseCard>)
    requires
        sorted_by_le(cards),
    ensures
        forall|i: int, j: int|
            0 <= i < j < cards.len() ==> {
                let ni = trimmed_text((#[trigger] cards[i]).course_nature);
                let nj = trimmed_text((#[trigger] cards[j]).course_nature);
                let mi = trimmed_text(cards[i].assessment_method);
                let mj = trimmed_text(cards[j].assessment_method);
                &&& nj == Some("必修"@) ==> ni == Some("必修"@)
                &&& nj == Some("限选"@) ==> ni == Some("必修"@) || ni == Some("限选"@)
                &&& nj == Some("选修"@) ==> ni == Some("必修"@) || ni == Some("限选"@) || ni == Some(
                    "选修"@,
                )
                &&& ni == nj && mj == Some("考试"@) ==> mi == Some("考试"@)
                &&& ni == nj && mj == Some("考查"@) ==> mi == Some("考试"@) || mi == Some("考查"@)
                &&& ni == nj && mi == mj ==> cards[i].source_index <= cards[j].source_index
            },
{
    reveal_strlit("必修");
    reveal_strlit("限选");
    reveal_strlit("选修");
    reveal_strlit("考试");
    reveal_strlit("考查");
    assert("必修"@ != "限选"@ && "必修"@ != "选修"@ && "限选"@ != "选修"@) by {
        assert("必修"@[0] != "限选"@[0]);
        assert("必修"@[0] != "选修"@[0]);
        assert("限选"@[0] != "选修"@[0]);
    }
    assert("考试"@ != "考查"@) by {
        assert("考试"@[1] != "考查"@[1]);
    }
    assert forall|i: int, j: int| 0 <= i < j < cards.len() implies {
        let ni = trimmed_text((#[trigger] cards[i]).course_nature);
        let nj = trimmed_text((#[trigger] cards[j]).course_nature);
        let mi = trimmed_text(cards[i].assessment_method);
        let mj = trimmed_text(cards[j].assessment_method);
        &&& nj == Some("必修"@) ==> ni == Some("必修"@)
        &&& nj == Some("限选"@) ==> ni == Some("必修"@) || ni == Some("限选"@)
        &&& nj == Some("选修"@) ==> ni == Some("必修"@) || ni == Some("限选"@) || ni == Some("选修"@)
        &&& ni == nj && mj == Some("考试"@) ==> mi == Some("考试"@)
        &&& ni == nj && mj == Some("考查"@) ==> mi == Some("考试"@) || mi == Some("考查"@)
        &&& ni == nj && mi == mj ==> cards[i].source_index <= cards[j].source_index
    } by {
        assert(cards[i].le_spec(&cards[j]));
        assert(card_le(&cards[i], &cards[j]));
    }
}

/// Puts the cards of a semester in card order.
pub fn sort_semester_cards(cards: &mut Vec<SemesterCourseCard>)
    ensures
        sorted_by_le(final(cards)@),
        is_permutation(final(cards)@, old(cards)@),
{
    let mut taken: Vec<SemesterCourseCard> = Vec::new();
    std::mem::swap(cards, &mut taken);
    let sorted = sort_by_le(taken);
    *cards = sorted;
}

// ---------------------------------------------------------------------------
// Front matter
// ---------------------------------------------------------------------------

pub open spec fn or_zero(o: Option<u32>) -> u32 {
    match o {
        Some(x) => x,
        None => 0,
    }
}

pub open spec fn text_or_empty(o: Option<String>) -> Seq<char> {
    match o {
        Some(s) => s@,
        None => Seq::empty(),
    }
}

/// Hour distribution of a page: absent kinds (or absent hours) count as zero.
pub open spec fn hour_meta(hours: Option<HourDistribution>) -> HourDistributionMeta {
    match hours {
        Some(h) => HourDistributionMeta {
            theory: or_zero(h.theory),
            lab: or_zero(h.lab),
            practice: or_zero(h.practice),
            exercise: or_zero(h.exercise),
            computer: or_zero(h.computer),
            tutoring: or_zero(h.tutoring),
        },
        None => HourDistributionMeta {
            theory: 0,
            lab: 0,
            practice: 0,
            exercise: 0,
            computer: 0,
            tutoring: 0,
        },
    }
}

/// The percentage of a grade detail: its text without trailing `%`, read as a
/// `u32`; zero when absent or unreadable.
pub open spec fn percent_of(detail: GradeDetail) -> u32 {
    match detail.percent {
        Some(p) => match parse_u32(trim_end_char(p@, '%')) {
            Some(n) => n,
            None => 0,
        },
        None => 0,
    }
}

/// A grade detail's share written as a whole number, with or without a trailing
/// `%`, is that number; a detail without a share counts as zero.
pub proof fn law_percent_of_share(detail: GradeDetail, n: nat)
    requires
        n <= u32::MAX,
    ensures
        detail.percent matches Some(p) && p@ == decimal(n) + seq!['%'] ==> percent_of(detail) == n,
        detail.percent matches Some(p) && p@ == decimal(n) ==> percent_of(detail) == n,
        detail.percent is None ==> percent_of(detail) == 0,
{
    law_parse_decimal(n);
    lemma_decimal_digits(n);
    let d = decimal(n);
    assert(is_ascii_digit(d.last())) by {
        assert(is_ascii_digit(d[d.len() - 1]));
    }
    assert(trim_end_char(d, '%') == d);
    assert((d + seq!['%']).drop_last() =~= d);
    assert(trim_end_char(d + seq!['%'], '%') == d);
}

/// (name, percent) of each grade detail with a positive percentage, in order.
pub open spec fn grading_entries(details: Seq<GradeDetail>) -> Seq<(Seq<char>, u32)>
    decreases details.len(),
{
    if details.len() == 0 {
        Seq::empty()
    } else {
        let prev = grading_entries(details.drop_last());
        let d = details.last();
        if percent_of(d) > 0 {
            prev.push((d.name@, percent_of(d)))
        } else {
            prev
        }
    }
}

pub open spec fn grading_scheme_of(details: Option<Vec<GradeDetail>>) -> Seq<(Seq<char>, u32)> {
    match details {
        Some(v) => grading_entries(v@),
        None => Seq::empty(),
    }
}

pub open spec fn grading_view(items: Seq<GradingItem>) -> Seq<(Seq<char>, u32)> {
    items.map_values(|i: GradingItem| (i.name@, i.percent))
}

/// The hour distribution of a page.
pub fn hour_distribution_meta(hours: Option<HourDistribution>) -> (r: HourDistributionMeta)
    ensures
        r == hour_meta(hours),
{
    match hours {
        Some(h) => HourDistributionMeta {
            theory: h.theory.unwrap_or(0),
            lab: h.lab.unwrap_or(0),
            practice: h.practice.unwrap_or(0),
            exercise: h.exercise.unwrap_or(0),
            computer: h.computer.unwrap_or(0),
            tutoring: h.tutoring.unwrap_or(0),
        },
        None => HourDistributionMeta {
            theory: 0,
            lab: 0,
            practice: 0,
            exercise: 0,
            computer: 0,
            tutoring: 0,
        },
    }
}

/// The percentage of `detail`.
pub fn grade_percent(detail: &GradeDetail) -> (r: u32)
    ensures
        r == percent_of(*detail),
{
    match &detail.percent {
        Some(p) => {
            let chars = to_chars(p.as_str());
            let stripped = trim_end_char_chars(&chars, '%');
            match parse_u32_chars(&stripped) {
                Some(n) => n,
                None => 0,
            }
        },
        None => 0,
    }
}

/// The grading scheme of a page: the grade details with a positive percentage.
pub fn grading_scheme(details: &Option<Vec<GradeDetail>>) -> (r: Vec<GradingItem>)
    ensures
        grading_view(r@) == grading_scheme_of(*details),
{
    let mut items: Vec<GradingItem> = Vec::new();
    match details {
        Some(v) => {
            for i in 0..v.len()
                invariant
                    grading_view(items@) == grading_entries(v@.take(i as int)),
            {
                assert(v@.take(i + 1).drop_last() =~= v@.take(i as int));
                let percent = grade_percent(&v[i]);
                if percent > 0 {
                    items.push(GradingItem { name: v[i].name.clone(), percent });
                    assert(grading_view(items@) =~= grading_entries(v@.take(i as int)).push(
                        (v@[i as int].name@, percent),
                    ));
                }
            }
            assert(v@.take(v@.len() as int) =~= v@);
        },
        None => {
            assert(grading_view(items@) =~= Seq::<(Seq<char>, u32)>::empty());
        },
    }
    items
}

/// Grading entries depend only on the names and percentage texts of the details.
pub proof fn lemma_grading_entries_view(a: Seq<GradeDetail>, b: Seq<GradeDetail>)
    requires
        a.len() == b.len(),
        forall|i: int|
            0 <= i < a.len() ==> (#[trigger] a[i]).name@ == b[i].name@ && match (a[i].percent, b[i].percent) {
                (Some(x), Some(y)) => x@ == y@,
                (None, None) => true,
                _ => false,
            },
    ensures
        grading_entries(a) == grading_entries(b),
    decreases a.len(),
{
    if a.len() > 0 {
        lemma_grading_entries_view(a.drop_last(), b.drop_last());
        assert(a.last() == a[a.len() - 1]);
        assert(b.last() == b[b.len() - 1]);
        assert(percent_of(a.last()) == percent_of(b.last()));
    }
}

fn text_or_empty_exec(o: &Option<String>) -> (r: String)
    ensures
        r@ == text_or_empty(*o),
{
    match o {
        Some(s) => s.clone(),
        None => String::new(),
    }
}

/// `fm` is the front matter of a page titled `title` for `course`: the course's
/// assessment method and nature (empty when absent), its hour distribution, total
/// hours (zero when absent), grading scheme and introduction.
pub open spec fn frontmatter_shows(fm: Frontmatter, title: Seq<char>, course: Course) -> bool {
    &&& fm.title@ == title
    &&& fm.description@ == Seq::<char>::empty()
    &&& fm.course.credit_bits == match course.credit_bits {
        Some(b) => b,
        None => 0u64,
    }
    &&& fm.course.assessment_method@ == text_or_empty(course.assessment_method)
    &&& fm.course.course_nature@ == text_or_empty(course.course_nature)
    &&& fm.course.hour_distribution == hour_meta(course.hours)
    &&& fm.course.total_hours == or_zero(course.total_hours)
    &&& grading_view(fm.course.grading_scheme@) == grading_scheme_of(course.grade_details)
    &&& fm.course.introduction.zh@ == course.introduction.zh@
    &&& fm.course.introduction.en@ == course.introduction.en@
}

/// What each field of a course page's front matter holds: the title given, an
/// empty description, and the course's own credit, assessment method, nature,
/// hours of each kind, total hours and introduction, each under its own name
/// (zero or empty where the course has none); the grading scheme lists only
/// positive shares, and none without grade details.
pub proof fn law_front_matter_fields(fm: Frontmatter, title: Seq<char>, course: Course)
    requires
        frontmatter_shows(fm, title, course),
    ensures
        fm.title@ == title,
        fm.description@.len() == 0,
        course.credit_bits matches Some(b) ==> fm.course.credit_bits == b,
        course.credit_bits is None ==> fm.course.credit_bits == 0,
        course.assessment_method matches Some(m) ==> fm.course.assessment_method@ == m@,
        course.assessment_method is None ==> fm.course.assessment_method@.len() == 0,
        course.course_nature matches Some(n) ==> fm.course.course_nature@ == n@,
        course.course_nature is None ==> fm.course.course_nature@.len() == 0,
        course.hours is None ==> fm.course.hour_distribution.theory == 0
            && fm.course.hour_distribution.lab == 0 && fm.course.hour_distribution.practice == 0
            && fm.course.hour_distribution.exercise == 0 && fm.course.hour_distribution.computer
            == 0 && fm.course.hour_distribution.tutoring == 0,
        course.hours matches Some(h) ==> {
            &&& fm.course.hour_distribution.theory == (if h.theory is Some { h.theory->0 } else { 0 })
            &&& fm.course.hour_distribution.lab == (if h.lab is Some { h.lab->0 } else { 0 })
            &&& fm.course.hour_distribution.practice == (if h.practice is Some { h.practice->0 } else { 0 })
            &&& fm.course.hour_distribution.exercise == (if h.exercise is Some { h.exercise->0 } else { 0 })
            &&& fm.course.hour_distribution.computer == (if h.computer is Some { h.computer->0 } else { 0 })
            &&& fm.course.hour_distribution.tutoring == (if h.tutoring is Some { h.tutoring->0 } else { 0 })
        },
        course.total_hours matches Some(t) ==> fm.course.total_hours == t,
        course.total_hours is None ==> fm.course.total_hours == 0,
        fm.course.introduction.zh@ == course.introduction.zh@,
        fm.course.introduction.en@ == course.introduction.en@,
        course.grade_details is None ==> fm.course.grading_scheme@.len() == 0,
        forall|j: int|
            0 <= j < fm.course.grading_scheme@.len() ==> (#[trigger] fm.course.grading_scheme@[j]).percent
                > 0,
{
    let g = grading_view(fm.course.grading_scheme@);
    assert(g.len() == fm.course.grading_scheme@.len());
    if let Some(v) = course.grade_details {
        lemma_grading_entries_positive(v@);
        assert forall|j: int| 0 <= j < fm.course.grading_scheme@.len() implies (
        #[trigger] fm.course.grading_scheme@[j]).percent > 0 by {
            assert(g[j] == grading_entries(v@)[j]);
        }
    }
}

/// Every entry of a grading scheme has a positive share.
proof fn lemma_grading_entries_positive(details: Seq<GradeDetail>)
    ensures
        forall|j: int| 0 <= j < grading_entries(details).len() ==> (#[trigger] grading_entries(details)[j]).1 > 0,
    decreases details.len(),
{
    if details.len() > 0 {
        lemma_grading_entries_positive(details.drop_last());
        let prev = grading_entries(details.drop_last());
        assert forall|j: int| 0 <= j < grading_entries(details).len() implies (
        #[trigger] grading_entries(details)[j]).1 > 0 by {
            if j < prev.len() {
                assert(grading_entries(details)[j] == prev[j]);
            }
        }
    }
}

/// The front matter of a course page titled `title`.
pub fn build_frontmatter(title: &str, course: &Course) -> (r: Frontmatter)
    ensures
        frontmatter_shows(r, title@, *course),
{
    let mut t = String::new();
    push_str(&mut t, title);
    Frontmatter {
        title: t,
        description: String::new(),
        course: CourseMetadata {
            credit_bits: match course.credit_bits {
                Some(b) => b,
                None => 0,
            },
            assessment_method: text_or_empty_exec(&course.assessment_method),
            course_nature: text_or_empty_exec(&course.course_nature),
            hour_distribution: hour_distribution_meta(course.hours),
            total_hours: course.total_hours.unwrap_or(0),
            grading_scheme: grading_scheme(&course.grade_details),
            introduction: course.introduction.duplicate(),
        },
    }
}

// ---------------------------------------------------------------------------
// Page text
// ---------------------------------------------------------------------------

/// A line that can carry a title: not blank and not a front matter fence.
pub open spec fn is_title_line(line: Seq<char>) -> bool {
    let t = trim(line);
    t.len() > 0 && t != "---"@
}

/// The title a line carries: a `title:` value without quotes, or the line itself,
/// without leading `# `; of `CODE - Name` only the name.
pub open spec fn title_of_line(line: Seq<char>) -> Seq<char> {
    let t = trim(line);
    let raw = if starts_with(t, "title:"@) {
        trim_char(trim_char(trim(t.skip(6)), '"'), '\'')
    } else {
        t
    };
    let raw = trim(trim_start_pattern(raw, "# "@));
    match split_once(raw, " - "@) {
        Some((_, rest)) => trim(rest),
        None => raw,
    }
}

/// Text with no white space at either end is its own trim.
proof fn lemma_trim_unchanged(s: Seq<char>)
    requires
        s.len() > 0,
        !is_whitespace(s[0]),
        !is_whitespace(s.last()),
    ensures
        trim(s) == s,
{
    assert(trim_start(s) == s);
    assert(trim_end(s) == s);
}

/// Text with no `c` at either end is its own `trim_char(.., c)`.
proof fn lemma_trim_char_unchanged(s: Seq<char>, c: char)
    requires
        s.len() > 0,
        s[0] != c,
        s.last() != c,
    ensures
        trim_char(s, c) == s,
{
    assert(trim_start_char(s, c) == s);
}

/// `c`, then `t`, then `c` again, loses exactly the two `c`s to `trim_char(.., c)`
/// when `t` neither begins nor ends with `c`.
proof fn lemma_trim_char_wrapped(t: Seq<char>, c: char)
    requires
        t.len() > 0,
        t[0] != c,
        t.last() != c,
    ensures
        trim_char(seq![c] + t + seq![c], c) == t,
{
    let w = seq![c] + t + seq![c];
    assert(w.drop_first() =~= t + seq![c]);
    assert((t + seq![c])[0] == t[0]);
    assert(trim_start_char(t + seq![c], c) == t + seq![c]);
    assert(trim_start_char(w, c) == t + seq![c]);
    assert((t + seq![c]).drop_last() =~= t);
    assert(trim_end_char(t, c) == t);
}

/// A `title:` line whose value is wrapped in double or single quotes gives the
/// value without them: the title of `title: "T"` and of `title: 'T'` is `T`, for a
/// non-empty `T` without quotes or white space at its ends, not starting with
/// `# ` and without ` - `.
pub proof fn law_quoted_title_line(t: Seq<char>, q: char)
    requires
        q == '"' || q == '\'',
        t.len() > 0,
        !is_whitespace(t[0]),
        !is_whitespace(t.last()),
        t[0] != '"' && t[0] != '\'',
        t.last() != '"' && t.last() != '\'',
        !starts_with(t, "# "@),
        forall|i: int| 0 <= i && i + 3 <= t.len() ==> #[trigger] t.subrange(i, i + 3) != " - "@,
    ensures
        title_of_line("title: "@ + seq![q] + t + seq![q]) == t,
{
    reveal_strlit("title: ");
    reveal_strlit("title:");
    reveal_strlit("# ");
    reveal_strlit(" - ");
    let line = "title: "@ + seq![q] + t + seq![q];
    assert(line[0] == 't');
    assert(line.last() == q);
    lemma_trim_unchanged(line);
    assert(line.take(6) =~= "title:"@);
    assert(starts_with(line, "title:"@));
    let w = seq![q] + t + seq![q];
    assert(line.skip(6) =~= seq![' '] + w);
    assert((seq![' '] + w).drop_first() =~= w);
    assert(is_whitespace(' '));
    assert(w[0] == q);
    assert(w.last() == q);
    assert(trim_start(seq![' '] + w) == trim_start(w));
    lemma_trim_unchanged(w);
    assert(trim(seq![' '] + w) == w);
    if q == '"' {
        lemma_trim_char_wrapped(t, '"');
        lemma_trim_char_unchanged(t, '\'');
    } else {
        lemma_trim_char_unchanged(w, '"');
        lemma_trim_char_wrapped(t, '\'');
    }
    assert(trim_start_pattern(t, "# "@) == t);
    lemma_trim_unchanged(t);
    lemma_find_pattern_found(t, " - "@, 0);
    assert(find_pattern(t, " - "@, 0) is None);
}

/// The title of the first title line among `ls`, or `fallback`.
pub open spec fn title_among(ls: Seq<Seq<char>>, fallback: Seq<char>) -> Seq<char>
    decreases ls.len(),
{
    if ls.len() == 0 {
        fallback
    } else if is_title_line(ls[0]) {
        title_of_line(ls[0])
    } else {
        title_among(ls.drop_first(), fallback)
    }
}

/// The title of an MDX document: that of its first title line among the first
/// five lines, or `fallback`.
pub open spec fn mdx_title(mdx: Seq<char>, fallback: Seq<char>) -> Seq<char> {
    let ls = lines(mdx);
    title_among(
        if ls.len() > 5 {
            ls.take(5)
        } else {
            ls
        },
        fallback,
    )
}

fn title_of_line_exec(line: &Vec<char>) -> (r: Vec<char>)
    ensures
        r@ == title_of_line(line@),
{
    let t = trim_chars(line);
    let prefix = to_chars("title:");
    let raw = if chars_starts_with(&t, &prefix) {
        assert(prefix@ == "title:"@);
        proof {
            reveal_strlit("title:");
        }
        let rest = chars_slice(&t, 6, t.len());
        assert(rest@ == t@.skip(6));
        let rest = trim_chars(&rest);
        let rest = trim_char_chars(&rest, '"');
        trim_char_chars(&rest, '\'')
    } else {
        t
    };
    let hash = to_chars("# ");
    proof {
        reveal_strlit("# ");
    }
    let raw = trim_start_pattern_chars(&raw, &hash);
    let raw = trim_chars(&raw);
    let sep = to_chars(" - ");
    proof {
        reveal_strlit(" - ");
    }
    match find_pattern_chars(&raw, &sep) {
        Some(i) => {
            proof {
                crate::text::lemma_find_pattern_found(raw@, sep@, 0);
            }
            let n = raw.len();
            let rest = chars_slice(&raw, i + sep.len(), n);
            trim_chars(&rest)
        },
        None => raw,
    }
}

/// The lines of text joined from pieces without line breaks or carriage returns
/// are those pieces (an empty last piece dropped).
proof fn lemma_lines_of_join(ls: Seq<Seq<char>>)
    requires
        ls.len() >= 1,
        forall|i: int, k: int|
            0 <= i < ls.len() && 0 <= k < ls[i].len() ==> #[trigger] ls[i][k] != '\n' && ls[i][k] != '\r',
    ensures
        lines(join(ls, "\n"@)) == (if ls.last().len() == 0 {
            ls.drop_last()
        } else {
            ls
        }),
{
    reveal_strlit("\n");
    assert("\n"@ =~= seq!['\n']);
    lemma_split_join(ls, '\n');
    let parts = split(join(ls, "\n"@), seq!['\n']);
    assert(parts == ls);
    assert forall|i: int| 0 <= i < ls.len() implies strip_cr(#[trigger] ls[i]) == ls[i] by {
        if ls[i].len() > 0 {
            assert(ls[i][ls[i].len() - 1] != '\r');
        }
    }
    let r = lines(join(ls, "\n"@));
    if ls.last().len() == 0 {
        assert(r =~= ls.drop_last());
    } else {
        assert(r =~= ls);
    }
}

/// The title of a README comes from its first title line among its first five
/// lines (blank lines and `---` fences are skipped): a title line right after a
/// blank or fence line is the one used, and with no title line among the first
/// five lines the fallback is used, even when a later line has a title.
pub proof fn law_readme_title_line(ls: Seq<Seq<char>>, fallback: Seq<char>)
    requires
        ls.len() >= 2,
        ls.last().len() > 0,
        forall|i: int, k: int|
            0 <= i < ls.len() && 0 <= k < ls[i].len() ==> #[trigger] ls[i][k] != '\n' && ls[i][k] != '\r',
    ensures
        (trim(ls[0]).len() == 0 || trim(ls[0]) == "---"@) && is_title_line(ls[1]) ==> mdx_title(
            join(ls, "\n"@),
            fallback,
        ) == title_of_line(ls[1]),
        ls.len() >= 6 && (forall|i: int| 0 <= i < 5 ==> !is_title_line(#[trigger] ls[i])) ==> mdx_title(
            join(ls, "\n"@),
            fallback,
        ) == fallback,
{
    lemma_lines_of_join(ls);
    let w = if ls.len() > 5 { ls.take(5) } else { ls };
    assert(w.len() >= 2);
    assert(w[0] == ls[0] && w[1] == ls[1]);
    assert(w.drop_first()[0] == ls[1]);
    if ls.len() >= 6 && (forall|i: int| 0 <= i < 5 ==> !is_title_line(#[trigger] ls[i])) {
        let t = ls.take(5);
        assert(!is_title_line(t[0]) && !is_title_line(t[1]) && !is_title_line(t[2])
            && !is_title_line(t[3]) && !is_title_line(t[4])) by {
            assert(!is_title_line(ls[0]) && !is_title_line(ls[1]) && !is_title_line(ls[2])
                && !is_title_line(ls[3]) && !is_title_line(ls[4]));
        }
        let t1 = t.drop_first();
        let t2 = t1.drop_first();
        let t3 = t2.drop_first();
        let t4 = t3.drop_first();
        let t5 = t4.drop_first();
        assert(t1[0] == t[1] && t2[0] == t[2] && t3[0] == t[3] && t4[0] == t[4]);
        assert(t5.len() == 0);
        assert(title_among(t5, fallback) == fallback);
        assert(title_among(t4, fallback) == fallback);
        assert(title_among(t3, fallback) == fallback);
        assert(title_among(t2, fallback) == fallback);
        assert(title_among(t1, fallback) == fallback);
        assert(title_among(t, fallback) == fallback);
    }
    assert(lines(join(ls, "\n"@)) == ls);
    assert(mdx_title(join(ls, "\n"@), fallback) == title_among(w, fallback));
    if (trim(ls[0]).len() == 0 || trim(ls[0]) == "---"@) && is_title_line(ls[1]) {
        assert(!is_title_line(w[0]));
        assert(title_among(w.drop_first(), fallback) == title_of_line(ls[1]));
    }
}


/// The title of an MDX document, or `fallback` when its first five lines carry none.
pub fn title_from_mdx(mdx_content: &str, fallback: &str) -> (r: String)
    ensures
        r@ == mdx_title(mdx_content@, fallback@),
{
    let chars = to_chars(mdx_content);
    let ls = lines_chars(&chars);
    let ghost all = ls@.map_values(|p: Vec<char>| p@);
    let ghost head = if all.len() > 5 {
        all.take(5)
    } else {
        all
    };
    let n = if ls.len() > 5 {
        5
    } else {
        ls.len()
    };
    let fence = to_chars("---");
    let mut i: usize = 0;
    assert(head.skip(0) =~= head);
    while i < n
        invariant
            all == ls@.map_values(|p: Vec<char>| p@),
            all == lines(mdx_content@),
            head == (if all.len() > 5 {
                all.take(5)
            } else {
                all
            }),
            n == head.len(),
            i <= n,
            fence@ == "---"@,
            mdx_title(mdx_content@, fallback@) == title_among(head.skip(i as int), fallback@),
        decreases n - i,
    {
        assert(head.skip(i as int)[0] == ls@[i as int]@);
        let t = trim_chars(&ls[i]);
        if t.len() > 0 && !chars_eq(&t, &fence) {
            let title = title_of_line_exec(&ls[i]);
            return string_from_chars(&title);
        }
        assert(head.skip(i as int).drop_first() =~= head.skip(i + 1));
        i += 1;
    }
    let mut r = String::new();
    push_str(&mut r, fallback);
    r
}

/// The body of a course README: everything after its first two lines.
pub open spec fn readme_body(readme: Seq<char>) -> Seq<char> {
    let ls = lines(readme);
    if ls.len() <= 2 {
        Seq::empty()
    } else {
        join(ls.skip(2), "\n"@)
    }
}

/// A README's body is what follows its first two lines: of three lines, the
/// third; of two or fewer, nothing.
pub proof fn law_readme_body_after_two_lines(a: Seq<char>, b: Seq<char>, c: Seq<char>)
    requires
        forall|k: int| 0 <= k < a.len() ==> #[trigger] a[k] != '\n',
        forall|k: int| 0 <= k < b.len() ==> #[trigger] b[k] != '\n',
        forall|k: int| 0 <= k < c.len() ==> #[trigger] c[k] != '\n',
    ensures
        readme_body(a + "\n"@ + b + "\n"@ + c) == c,
        readme_body(a + "\n"@ + b) == Seq::<char>::empty(),
        readme_body(a) == Seq::<char>::empty(),
{
    reveal_strlit("\n");
    let nl = seq!['\n'];
    assert("\n"@ =~= nl);
    let three = seq![a, b, c];
    assert forall|i: int, k: int| 0 <= i < three.len() && 0 <= k < three[i].len() implies #[trigger] three[i][k]
        != '\n' by {
        if i == 0 {
            assert(three[0] == a);
        } else if i == 1 {
            assert(three[1] == b);
        } else {
            assert(three[2] == c);
        }
    }
    lemma_split_join(three, '\n');
    assert(three.drop_last() =~= seq![a, b]);
    assert(seq![a, b].drop_last() =~= seq![a]);
    assert(join(seq![a], nl) == a);
    assert(join(seq![a, b], nl) =~= a + nl + b);
    assert(join(three, nl) =~= a + nl + b + nl + c);
    let ls = lines(a + nl + b + nl + c);
    if c.len() > 0 {
        assert(ls.len() == 3);
        assert(ls.skip(2) =~= seq![c]);
        assert(join(seq![c], "\n"@) == c);
    } else {
        assert(ls.len() == 2);
    }
    let two = seq![a, b];
    assert forall|i: int, k: int| 0 <= i < two.len() && 0 <= k < two[i].len() implies #[trigger] two[i][k]
        != '\n' by {
        if i == 0 {
            assert(two[0] == a);
        } else {
            assert(two[1] == b);
        }
    }
    lemma_split_join(two, '\n');
    assert(lines(a + nl + b).len() <= 2);
    let one = seq![a];
    assert forall|i: int, k: int| 0 <= i < one.len() && 0 <= k < one[i].len() implies #[trigger] one[i][k]
        != '\n' by {
        assert(one[0] == a);
    }
    lemma_split_join(one, '\n');
    assert(lines(a).len() <= 1);
}

/// The README of a course without its first two (title) lines.
pub fn readme_body_content(readme_content: &str) -> (r: String)
    ensures
        r@ == readme_body(readme_content@),
{
    let chars = to_chars(readme_content);
    let ls = lines_chars(&chars);
    if ls.len() <= 2 {
        return String::new();
    }
    let mut rest: Vec<Vec<char>> = Vec::new();
    for i in 2..ls.len()
        invariant
            2 <= ls@.len(),
            rest@.len() == i - 2,
            forall|k: int| 0 <= k < rest@.len() ==> (#[trigger] rest@[k])@ == ls@[k + 2]@,
    {
        rest.push(ls[i].clone());
    }
    assert(rest@.map_values(|p: Vec<char>| p@) =~= ls@.map_values(|p: Vec<char>| p@).skip(2));
    let newline = to_chars("\n");
    let body = join_chars(&rest, &newline);
    string_from_chars(&body)
}

/// The notice on the page of a course whose repository HOA does not have.
pub open spec fn missing_notice(repo_id: Seq<char>) -> Seq<char> {
    "当前培养方案中包含这门课程，但 HOA 暂未收录对应的 GitHub 仓库（`"@ + repo_id
        + "`）/建立相关的映射。\n\n如果你希望补充这门课程的资料，请前往 [HOA Wiki](https://wiki.hoa.moe/contribution-guide/course-mapping) 查看如何建立映射或者联系管理员添加仓库。"@
}

/// The page body for a course whose repository is missing.
pub fn missing_repo_notice(repo_id: &str) -> (r: String)
    ensures
        r@ == missing_notice(repo_id@),
{
    let mut r = String::new();
    push_str(&mut r, "当前培养方案中包含这门课程，但 HOA 暂未收录对应的 GitHub 仓库（`");
    push_str(&mut r, repo_id);
    push_str(
        &mut r,
        "`）/建立相关的映射。\n\n如果你希望补充这门课程的资料，请前往 [HOA Wiki](https://wiki.hoa.moe/contribution-guide/course-mapping) 查看如何建立映射或者联系管理员添加仓库。",
    );
    r
}

/// The sections of a course page: front matter, the course info components (when
/// asked for), and the body (README text and file tree) unless it is blank.
pub open spec fn page_sections(
    frontmatter: Seq<char>,
    content: Seq<char>,
    filetree: Seq<char>,
    use_course_info: bool,
) -> Seq<Seq<char>> {
    let s = seq![frontmatter];
    let s = if use_course_info {
        s + seq!["<CourseInfo />"@, "<CourseIntroduction />"@]
    } else {
        s
    };
    let body = content + filetree;
    if trim(body).len() > 0 {
        s.push(body)
    } else {
        s
    }
}

/// A course page: its sections separated by blank lines.
pub open spec fn page_text(
    frontmatter: Seq<char>,
    content: Seq<char>,
    filetree: Seq<char>,
    use_course_info: bool,
) -> Seq<char> {
    join(page_sections(frontmatter, content, filetree, use_course_info), "\n\n"@)
}

/// A course page is its front matter, then (with course info) the `<CourseInfo />`
/// and `<CourseIntroduction />` components, then its content and file tree as one
/// section unless they are blank, the sections separated by blank lines.
pub proof fn law_page_layout(
    frontmatter: Seq<char>,
    content: Seq<char>,
    filetree: Seq<char>,
    use_course_info: bool,
)
    ensures
        ({
            let info = "\n\n"@ + "<CourseInfo />"@ + "\n\n"@ + "<CourseIntroduction />"@;
            let body = content + filetree;
            let text = page_text(frontmatter, content, filetree, use_course_info);
            &&& use_course_info && trim(body).len() > 0 ==> text == frontmatter + info + "\n\n"@ + body
            &&& use_course_info && trim(body).len() == 0 ==> text == frontmatter + info
            &&& !use_course_info && trim(body).len() > 0 ==> text == frontmatter + "\n\n"@ + body
            &&& !use_course_info && trim(body).len() == 0 ==> text == frontmatter
        }),
{
    let body = content + filetree;
    let nn = "\n\n"@;
    let a = seq![frontmatter];
    let b = a + seq!["<CourseInfo />"@, "<CourseIntroduction />"@];
    assert(join(a, nn) == frontmatter);
    assert(b.drop_last() =~= seq![frontmatter, "<CourseInfo />"@]);
    assert(seq![frontmatter, "<CourseInfo />"@].drop_last() =~= a);
    assert(join(seq![frontmatter, "<CourseInfo />"@], nn) == frontmatter + nn + "<CourseInfo />"@);
    assert(join(b, nn) =~= frontmatter + nn + "<CourseInfo />"@ + nn + "<CourseIntroduction />"@);
    assert(a.push(body).drop_last() =~= a);
    assert(b.push(body).drop_last() =~= b);
    assert(join(a.push(body), nn) == frontmatter + nn + body);
    assert(join(b.push(body), nn) =~= frontmatter + nn + "<CourseInfo />"@ + nn
        + "<CourseIntroduction />"@ + nn + body);
}

/// The text of a course page.
pub fn build_course_page_content(
    frontmatter: &str,
    content: &str,
    filetree_content: &str,
    use_course_info: bool,
) -> (r: String)
    ensures
        r@ == page_text(frontmatter@, content@, filetree_content@, use_course_info),
{
    let mut sections: Vec<Vec<char>> = Vec::new();
    sections.push(to_chars(frontmatter));
    if use_course_info {
        sections.push(to_chars("<CourseInfo />"));
        sections.push(to_chars("<CourseIntroduction />"));
    }
    let mut body = to_chars(content);
    let mut tree = to_chars(filetree_content);
    body.append(&mut tree);
    let trimmed = trim_chars(&body);
    if trimmed.len() > 0 {
        sections.push(body);
    }
    assert(sections@.map_values(|p: Vec<char>| p@) =~= page_sections(
        frontmatter@,
        content@,
        filetree_content@,
        use_course_info,
    ));
    let sep = to_chars("\n\n");
    let text = join_chars(&sections, &sep);
    string_from_chars(&text)
}

} // verus!

use vstd::prelude::*;

use crate::table::StrTable;

verus! {

/// The `[info]` table of a training plan.
#[derive(Debug, Clone)]
pub struct PlanInfo {
    pub year: String,
    pub major_code: String,
    pub major_name: String,
    pub plan_id: String,
}

/// A training plan as its file lists it: the `[info]` table and the courses.
#[derive(Debug)]
pub struct TomlPlan {
    pub info: PlanInfo,
    pub courses: Vec<TomlCourse>,
}

/// A course as a plan file lists it.
#[derive(Debug)]
pub struct TomlCourse {
    pub course_code: String,
    pub course_name: String,
    /// The credit as the bits of its IEEE 754 double (`f64::to_bits`).
    pub credit_bits: Option<u64>,
    pub assessment_method: Option<String>,
    pub course_nature: Option<String>,
    pub recommended_year_semester: Option<String>,
    pub hours: Option<HourDistribution>,
    pub total_hours: Option<u32>,
    pub grade_details: Option<Vec<GradeDetail>>,
}

/// One part of a course's grade, such as "期末考试" at "70%".
#[derive(Debug, Clone)]
pub struct GradeDetail {
    pub name: String,
    pub percent: Option<String>,
}

/// A course's bilingual introduction.
#[derive(Debug, Clone)]
pub struct CourseIntroduction {
    pub zh: String,
    pub en: String,
}

impl CourseIntroduction {
    /// A copy of this introduction.
    pub fn duplicate(&self) -> (r: CourseIntroduction)
        ensures
            r.zh@ == self.zh@,
            r.en@ == self.en@,
    {
        CourseIntroduction { zh: self.zh.clone(), en: self.en.clone() }
    }

    /// The empty introduction.
    pub fn empty() -> (r: CourseIntroduction)
        ensures
            r.zh@ == Seq::<char>::empty(),
            r.en@ == Seq::<char>::empty(),
    {
        CourseIntroduction { zh: String::new(), en: String::new() }
    }
}

impl GradeDetail {
    /// A copy of this grade detail.
    pub fn duplicate(&self) -> (r: GradeDetail)
        ensures
            r.name@ == self.name@,
            match (r.percent, self.percent) {
                (Some(a), Some(b)) => a@ == b@,
                (None, None) => true,
                _ => false,
            },
    {
        GradeDetail {
            name: self.name.clone(),
            percent: match &self.percent {
                Some(p) => Some(p.clone()),
                None => None,
            },
        }
    }
}

/// Teaching hours of a course by kind, each possibly absent.
#[derive(Debug, Clone, Copy)]
pub struct HourDistribution {
    pub theory: Option<u32>,
    pub lab: Option<u32>,
    pub practice: Option<u32>,
    pub exercise: Option<u32>,
    pub computer: Option<u32>,
    pub tutoring: Option<u32>,
}

/// A course of a training plan, enriched with its repository, grade details and
/// introduction.
#[derive(Debug)]
pub struct Course {
    pub repo_id: String,
    pub name: String,
    /// The credit, a decimal number, held as the bits of its IEEE 754 double
    /// (`f64::to_bits`): the library carries it to the page writer untouched.
    pub credit_bits: Option<u64>,
    pub assessment_method: Option<String>,
    pub course_nature: Option<String>,
    pub recommended_semester: Option<String>,
    pub hours: Option<HourDistribution>,
    pub total_hours: Option<u32>,
    pub grade_details: Option<Vec<GradeDetail>>,
    pub introduction: CourseIntroduction,
}

/// A training plan: the courses of one major in one year.
#[derive(Debug)]
pub struct Plan {
    pub year: String,
    pub major_code: String,
    pub major_name: String,
    pub courses: Vec<Course>,
}

/// A group of shared course repositories listed under every major.
#[derive(Debug, Clone)]
pub struct SharedCategory {
    pub id: String,
    pub title: String,
    pub repo_ids: Vec<String>,
}

/// Size and modification time of one file in a repository's worktree.
#[derive(Debug, Clone, Copy)]
pub struct FileMetadata {
    pub size: Option<u64>,
    pub time: Option<i64>,
}

/// The flat worktree of a repository: the metadata of each file path, as the
/// object of `worktree.json` gives it (a table, so no path twice).
#[derive(Debug)]
pub struct WorktreeData(pub StrTable<FileMetadata>);

/// Whether a file tree node is a folder or a file.
#[derive(Debug, Clone, Copy, PartialEq, Eq, Structural)]
pub enum NodeType {
    Folder,
    File,
}

/// A node of a repository's file tree.
#[derive(Debug)]
pub struct FileNode {
    pub name: String,
    pub node_type: NodeType,
    pub children: Vec<FileNode>,
    pub url: Option<String>,
    pub size: Option<u64>,
    pub date: Option<String>,
}

/// Teaching hours of a course page, absent kinds counted as zero.
#[derive(Debug, Clone, Copy, PartialEq, Eq, Structural)]
pub struct HourDistributionMeta {
    pub theory: u32,
    pub lab: u32,
    pub practice: u32,
    pub exercise: u32,
    pub computer: u32,
    pub tutoring: u32,
}

/// One entry of a course page's grading scheme.
#[derive(Debug, Clone)]
pub struct GradingItem {
    pub name: String,
    pub percent: u32,
}

/// The course facts in a page's front matter.
#[derive(Debug)]
pub struct CourseMetadata {
    /// The credit as the bits of its IEEE 754 double (`f64::to_bits`); zero bits
    /// are the credit `0.0`.
    pub credit_bits: u64,
    pub assessment_method: String,
    pub course_nature: String,
    pub hour_distribution: HourDistributionMeta,
    pub total_hours: u32,
    pub grading_scheme: Vec<GradingItem>,
    pub introduction: CourseIntroduction,
}

/// The front matter of a course page.
#[derive(Debug)]
pub struct Frontmatter {
    pub title: String,
    pub description: String,
    pub course: CourseMetadata,
}

} // verus!

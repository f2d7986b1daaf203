use hoa_backend::generator::{
    build_course_page_content, build_frontmatter, course_nature_rank, assessment_method_rank,
    minimal_course, missing_repo_notice, readme_body_content, sort_semester_cards, title_from_mdx,
    SemesterCourseCard,
};
use hoa_backend::models::{Course, CourseIntroduction, GradeDetail, HourDistribution};

#[test]
fn test_missing_repo_notice_contains_mapping_guide() {
    let content = missing_repo_notice("MISSING101");

    assert!(content.contains("MISSING101"));
    assert!(content.contains("wiki.hoa.moe/contribution-guide/course-mapping"));
}

#[test]
fn test_build_course_page_content_omits_empty_body() {
    let page = build_course_page_content("---\ntitle: Test\n---", "", "", true);

    assert_eq!(
        page,
        "---\ntitle: Test\n---\n\n<CourseInfo />\n\n<CourseIntroduction />"
    );
}

#[test]
fn test_build_course_page_content_with_body_and_without_course_info() {
    let page = build_course_page_content("FM", "text", "\n\ntree", false);
    assert_eq!(page, "FM\n\ntext\n\ntree");
    let blank = build_course_page_content("FM", "  \n", "", false);
    assert_eq!(blank, "FM");
}

#[test]
fn test_sort_semester_cards_by_nature_and_assessment() {
    let mut cards = vec![
        SemesterCourseCard {
            slug: "LIMITED_NON_EXAM".to_string(),
            name: "Limited Non Exam".to_string(),
            course_nature: Some("限选".to_string()),
            assessment_method: Some("考查".to_string()),
            source_index: 0,
        },
        SemesterCourseCard {
            slug: "REQUIRED_NON_EXAM_A".to_string(),
            name: "Required Non Exam A".to_string(),
            course_nature: Some("必修".to_string()),
            assessment_method: Some("考查".to_string()),
            source_index: 1,
        },
        SemesterCourseCard {
            slug: "REQUIRED_EXAM".to_string(),
            name: "Required Exam".to_string(),
            course_nature: Some("必修".to_string()),
            assessment_method: Some("考试".to_string()),
            source_index: 2,
        },
        SemesterCourseCard {
            slug: "ELECTIVE_EXAM".to_string(),
            name: "Elective Exam".to_string(),
            course_nature: Some("选修".to_string()),
            assessment_method: Some("考试".to_string()),
            source_index: 3,
        },
        SemesterCourseCard {
            slug: "REQUIRED_NON_EXAM_B".to_string(),
            name: "Required Non Exam B".to_string(),
            course_nature: Some("必修".to_string()),
            assessment_method: Some("考查".to_string()),
            source_index: 4,
        },
    ];

    sort_semester_cards(&mut cards);

    let ordered_slugs: Vec<_> = cards.into_iter().map(|card| card.slug).collect();
    assert_eq!(
        ordered_slugs,
        vec![
            "REQUIRED_EXAM",
            "REQUIRED_NON_EXAM_A",
            "REQUIRED_NON_EXAM_B",
            "LIMITED_NON_EXAM",
            "ELECTIVE_EXAM",
        ]
    );
}

#[test]
fn test_ranks() {
    assert_eq!(course_nature_rank(Some(" 必修 ")), 0);
    assert_eq!(course_nature_rank(Some("限选")), 1);
    assert_eq!(course_nature_rank(Some("选修")), 2);
    assert_eq!(course_nature_rank(Some("other")), 3);
    assert_eq!(course_nature_rank(None), 3);
    assert_eq!(assessment_method_rank(Some("考试")), 0);
    assert_eq!(assessment_method_rank(Some("考查\n")), 1);
    assert_eq!(assessment_method_rank(Some("")), 2);
    assert_eq!(assessment_method_rank(None), 2);
}

#[test]
fn test_title_from_mdx() {
    assert_eq!(title_from_mdx("# COMP1001 - 计算机导论\nbody", "X"), "计算机导论");
    assert_eq!(title_from_mdx("---\ntitle: \"Course Name\"\n---", "X"), "Course Name");
    assert_eq!(title_from_mdx("\n\n# # Heading", "X"), "Heading");
    assert_eq!(title_from_mdx("\n\n\n\n\n\nlate", "fallback"), "fallback");
    assert_eq!(title_from_mdx("", "fallback"), "fallback");
}

#[test]
fn test_readme_body_content() {
    assert_eq!(readme_body_content("# T\n\nline 1\r\nline 2\n"), "line 1\nline 2");
    assert_eq!(readme_body_content("# T\n"), "");
    assert_eq!(readme_body_content("a\nb\n\nc"), "\nc");
}

#[test]
fn test_build_frontmatter_fields() {
    let course = Course {
        repo_id: "R".to_string(),
        name: "N".to_string(),
        credit_bits: Some(3.0f64.to_bits()),
        assessment_method: Some("考试".to_string()),
        course_nature: None,
        recommended_semester: None,
        hours: Some(HourDistribution {
            theory: Some(32),
            lab: None,
            practice: Some(8),
            exercise: None,
            computer: None,
            tutoring: Some(2),
        }),
        total_hours: Some(42),
        grade_details: Some(vec![
            GradeDetail { name: "Final".to_string(), percent: Some("70%".to_string()) },
            GradeDetail { name: "Zero".to_string(), percent: Some("0%".to_string()) },
            GradeDetail { name: "Bad".to_string(), percent: Some("abc".to_string()) },
            GradeDetail { name: "None".to_string(), percent: None },
            GradeDetail { name: "Plus".to_string(), percent: Some("+30%%".to_string()) },
        ]),
        introduction: CourseIntroduction { zh: "中".to_string(), en: "E".to_string() },
    };
    let fm = build_frontmatter("Title", &course);
    assert_eq!(fm.title, "Title");
    assert_eq!(fm.description, "");
    assert_eq!(fm.course.assessment_method, "考试");
    assert_eq!(fm.course.course_nature, "");
    assert_eq!(fm.course.hour_distribution.theory, 32);
    assert_eq!(fm.course.hour_distribution.lab, 0);
    assert_eq!(fm.course.hour_distribution.practice, 8);
    assert_eq!(fm.course.hour_distribution.tutoring, 2);
    assert_eq!(fm.course.total_hours, 42);
    let scheme: Vec<(String, u32)> = fm
        .course
        .grading_scheme
        .iter()
        .map(|g| (g.name.clone(), g.percent))
        .collect();
    assert_eq!(
        scheme,
        vec![("Final".to_string(), 70), ("Plus".to_string(), 30)]
    );
    assert_eq!(fm.course.introduction.zh, "中");
    assert_eq!(f64::from_bits(fm.course.credit_bits), 3.0);

    let bare = minimal_course("R", "N", None);
    assert!(bare.credit_bits.is_none());
    assert_eq!(build_frontmatter("N", &bare).course.credit_bits, 0);
}

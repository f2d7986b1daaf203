use hoa_backend::loader::GradesSummary;
use hoa_backend::models::{
    Course, CourseIntroduction, FileMetadata, GradeDetail, Plan, SharedCategory, WorktreeData,
};
use hoa_backend::site::{course_body, plan_pages, year_pages, RepoSource, RepoSources};
use hoa_backend::table::StrTable;

fn course(repo_id: &str, name: &str, semester: Option<&str>) -> Course {
    Course {
        repo_id: repo_id.to_string(),
        name: name.to_string(),
        credit_bits: Some(2.0f64.to_bits()),
        assessment_method: Some("考查".to_string()),
        course_nature: Some("必修".to_string()),
        recommended_semester: semester.map(|s| s.to_string()),
        hours: None,
        total_hours: Some(32),
        grade_details: None,
        introduction: CourseIntroduction {
            zh: "中文简介".to_string(),
            en: "English introduction".to_string(),
        },
    }
}

fn path(parts: &[&str]) -> Vec<String> {
    parts.iter().map(|p| p.to_string()).collect()
}

#[test]
fn test_generate_placeholder_for_plan_course_not_in_repos_list() {
    let plan = Plan {
        year: "2024".to_string(),
        major_code: "CS".to_string(),
        major_name: "Computer Science".to_string(),
        courses: vec![course("MISSING101", "Missing Course", Some("第一学年秋季"))],
    };
    let repos_set = vec!["EXISTING101".to_string()];
    let shared_categories: Vec<SharedCategory> = Vec::new();
    let no_course_info_repo_ids: Vec<String> = Vec::new();
    let grades_summary: GradesSummary = StrTable::new();
    let sources: RepoSources = StrTable::new();

    let pages = plan_pages(
        &plan,
        &shared_categories,
        &no_course_info_repo_ids,
        &grades_summary,
        &sources,
        &repos_set,
    );

    assert_eq!(pages.course_pages.len(), 1);
    let page = &pages.course_pages[0];
    assert_eq!(page.paths, vec![path(&["2024", "CS", "fresh-autumn", "MISSING101.mdx"])]);
    assert!(page.content.contains("wiki.hoa.moe/contribution-guide/course-mapping"));
    assert!(page.content.contains("MISSING101"));
    assert_eq!(page.filetree, "");
    assert!(page.use_course_info);
    assert_eq!(f64::from_bits(page.frontmatter.course.credit_bits), 2.0);
    assert_eq!(page.frontmatter.title, "Missing Course");
    assert_eq!(page.frontmatter.course.total_hours, 32);
    assert_eq!(page.frontmatter.course.introduction.zh, "中文简介");

    assert_eq!(pages.semester_indexes.len(), 1);
    let index = &pages.semester_indexes[0];
    assert_eq!(index.path, path(&["2024", "CS", "fresh-autumn", "index.mdx"]));
    assert!(index.content.contains("Missing Course"));
    assert_eq!(
        index.content,
        "---\ntitle: 大一·秋\n---\n\n<Cards>\n  <Card title=\"Missing Course\" href=\"/docs/2024/CS/fresh-autumn/MISSING101\" />\n</Cards>"
    );

    assert_eq!(
        pages.dirs,
        vec![path(&["2024", "CS"]), path(&["2024", "CS", "fresh-autumn"])]
    );
    assert_eq!(pages.meta_title, "Computer Science");
    assert_eq!(pages.meta_pages, vec!["...".to_string(), "fresh-autumn".to_string()]);
    assert_eq!(pages.major_index.path, path(&["2024", "CS", "index.mdx"]));
    assert_eq!(
        pages.major_index.content,
        "---\ntitle: 目录\n---\n\n<Cards>\n  <Card title=\"大一·秋\" href=\"/docs/2024/CS/fresh-autumn\" />\n</Cards>"
    );
}

#[test]
fn test_plan_pages_semesters_in_table_order_and_unplaced_courses() {
    let plan = Plan {
        year: "2023".to_string(),
        major_code: "EE".to_string(),
        major_name: "Electrical".to_string(),
        courses: vec![
            course("LATE", "Late", Some("第二学年春季")),
            course("BOTH", "Both", Some("第一学年秋季，第二学年春季")),
            course("NONE", "None", None),
        ],
    };
    let pages = plan_pages(
        &plan,
        &Vec::new(),
        &Vec::new(),
        &StrTable::new(),
        &StrTable::new(),
        &Vec::new(),
    );
    assert_eq!(
        pages.course_pages[1].paths,
        vec![
            path(&["2023", "EE", "fresh-autumn", "BOTH.mdx"]),
            path(&["2023", "EE", "sophomore-spring", "BOTH.mdx"]),
        ]
    );
    assert_eq!(pages.course_pages[2].paths, vec![path(&["2023", "EE", "NONE.mdx"])]);
    assert_eq!(
        pages.meta_pages,
        vec!["...".to_string(), "fresh-autumn".to_string(), "sophomore-spring".to_string()]
    );
    assert_eq!(pages.semester_indexes.len(), 2);
    assert_eq!(pages.semester_indexes[0].path, path(&["2023", "EE", "fresh-autumn", "index.mdx"]));
    // within a semester, equal ranks keep plan order
    let spring = &pages.semester_indexes[1].content;
    let late = spring.find("LATE").unwrap();
    let both = spring.find("BOTH").unwrap();
    assert!(late < both);
}

fn sources_with(repo: &str, readme: &str, worktree: Option<WorktreeData>) -> RepoSources {
    let mut sources: RepoSources = StrTable::new();
    sources.insert(
        repo.to_string(),
        RepoSource { readme: Some(readme.to_string()), worktree },
    );
    sources
}

#[test]
fn test_course_body_with_readme_and_worktree() {
    let worktree = WorktreeData({
        let mut table = StrTable::new();
        table.insert(
            "slides/a.pdf".to_string(),
            FileMetadata { size: Some(10), time: Some(1640000000) },
        );
        table
    });
    let sources = sources_with("CS101", "# CS101\n\nBody text", Some(worktree));
    let (content, filetree) = course_body("CS101", &sources);
    assert_eq!(content, "Body text");
    assert!(filetree.starts_with(
        "\n\n## 资源下载\n\n<Files url=\"https://open.osa.moe/openauto/CS101\">\n"
    ));
    assert!(filetree.contains("<Folder name=\"slides\">"));
    assert!(filetree.contains("name=\"a.pdf\""));
    assert!(filetree.contains("date=\"2021-12-20\""));
    assert!(filetree.ends_with("\n</Files>"));

    let (missing, none) = course_body("OTHER", &sources);
    assert!(missing.contains("`OTHER`"));
    assert_eq!(none, "");
}

#[test]
fn test_category_pages_follow_repos_set_and_readmes() {
    let plan = Plan {
        year: "2024".to_string(),
        major_code: "CS".to_string(),
        major_name: "Computer Science".to_string(),
        courses: Vec::new(),
    };
    let categories = vec![
        SharedCategory {
            id: "cross".to_string(),
            title: "跨专业选修".to_string(),
            repo_ids: vec!["X1".to_string(), "X2".to_string(), "X3".to_string()],
        },
        SharedCategory {
            id: "empty".to_string(),
            title: "Empty".to_string(),
            repo_ids: vec!["X9".to_string()],
        },
    ];
    let mut sources = sources_with("X1", "title: \"Course - 课程一\"\n\nIntro", None);
    sources.insert(
        "X3".to_string(),
        RepoSource { readme: Some("# X3\n\nThree".to_string()), worktree: None },
    );
    let mut grades_summary: GradesSummary = StrTable::new();
    let mut entry = StrTable::new();
    entry.insert(
        "default".to_string(),
        vec![GradeDetail { name: "Final".to_string(), percent: Some("100%".to_string()) }],
    );
    grades_summary.insert("X1".to_string(), entry);
    let no_course_info = vec!["X3".to_string()];
    let repos_set: Vec<String> = Vec::new();

    let pages = plan_pages(&plan, &categories, &no_course_info, &grades_summary, &sources, &repos_set);

    assert_eq!(pages.category_pages.len(), 2);
    let first = &pages.category_pages[0];
    assert_eq!(first.paths, vec![path(&["2024", "CS", "cross", "X1.mdx"])]);
    assert_eq!(first.frontmatter.title, "课程一");
    assert_eq!(first.frontmatter.course.grading_scheme.len(), 1);
    assert_eq!(first.frontmatter.course.grading_scheme[0].percent, 100);
    assert!(first.use_course_info);
    assert_eq!(first.frontmatter.course.credit_bits, 0);
    let second = &pages.category_pages[1];
    assert_eq!(second.frontmatter.title, "X3");
    assert!(!second.use_course_info);

    assert_eq!(pages.category_indexes.len(), 1);
    assert_eq!(
        pages.category_indexes[0].content,
        "---\ntitle: 跨专业选修\n---\n\n<Cards>\n  <Card title=\"课程一\" href=\"/docs/2024/CS/cross/X1\" />\n  <Card title=\"X3\" href=\"/docs/2024/CS/cross/X3\" />\n</Cards>"
    );
    assert_eq!(pages.meta_pages, vec!["...".to_string(), "cross".to_string()]);
    assert_eq!(
        pages.dirs,
        vec![path(&["2024", "CS"]), path(&["2024", "CS", "cross"]), path(&["2024", "CS", "empty"])]
    );

    // a non-empty repository set filters the category
    let only_x3 = vec!["X3".to_string()];
    let filtered = plan_pages(&plan, &categories, &no_course_info, &grades_summary, &sources, &only_x3);
    assert_eq!(filtered.category_pages.len(), 1);
    assert_eq!(filtered.category_pages[0].frontmatter.title, "X3");
}

#[test]
fn test_year_pages_sorted_and_unique() {
    let plan = |year: &str, code: &str, name: &str| Plan {
        year: year.to_string(),
        major_code: code.to_string(),
        major_name: name.to_string(),
        courses: Vec::new(),
    };
    let plans = vec![plan("2024", "B", "Beta"), plan("2023", "A", "Alpha"), plan("2024", "C", "Gamma")];
    let years = year_pages(&plans);
    assert_eq!(years.len(), 2);
    assert_eq!(years[0].year, "2023");
    assert_eq!(years[1].year, "2024");
    assert_eq!(
        years[1].index,
        "---\ntitle: 目录\n---\n\n<Cards>\n  <Card title=\"Beta\" href=\"/docs/2024/B\" />\n  <Card title=\"Gamma\" href=\"/docs/2024/C\" />\n</Cards>"
    );
}

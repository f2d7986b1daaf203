use hoa_backend::loader::{
    build_plan, repo_id_from_file_name, resolve_repo_id, select_grade_details, sort_plans,
    unique_ids, CourseIntroductions, GradesSummary, LookupTable, SharedCategoriesConfig,
};
use hoa_backend::models::{CourseIntroduction, GradeDetail, Plan, PlanInfo, TomlCourse, TomlPlan};
use hoa_backend::table::StrTable;

fn create_test_grade_detail(name: &str, percent: &str) -> GradeDetail {
    GradeDetail {
        name: name.to_string(),
        percent: Some(percent.to_string()),
    }
}

#[test]
fn test_select_grade_details_year_major_code() {
    let mut grades_summary: GradesSummary = StrTable::new();
    let mut course_entry = StrTable::new();
    course_entry.insert("2023_CS".to_string(), vec![create_test_grade_detail("Exam", "70%")]);
    course_entry.insert(
        "2023_default".to_string(),
        vec![create_test_grade_detail("Exam", "60%")],
    );
    course_entry.insert("default".to_string(), vec![create_test_grade_detail("Exam", "50%")]);
    grades_summary.insert("MATH101".to_string(), course_entry);

    let result = select_grade_details(&grades_summary, "MATH101", "2023", "CS", "Computer Science");

    assert!(result.is_some());
    let details = result.unwrap();
    assert_eq!(details.len(), 1);
    assert_eq!(details[0].name, "Exam");
    assert_eq!(details[0].percent, Some("70%".to_string()));
}

#[test]
fn test_select_grade_details_year_major_name() {
    let mut grades_summary: GradesSummary = StrTable::new();
    let mut course_entry = StrTable::new();
    course_entry.insert(
        "2023_Computer Science".to_string(),
        vec![create_test_grade_detail("Project", "80%")],
    );
    course_entry.insert("default".to_string(), vec![create_test_grade_detail("Exam", "50%")]);
    grades_summary.insert("PROG202".to_string(), course_entry);

    let result = select_grade_details(&grades_summary, "PROG202", "2023", "CS", "Computer Science");

    assert!(result.is_some());
    let details = result.unwrap();
    assert_eq!(details.len(), 1);
    assert_eq!(details[0].name, "Project");
    assert_eq!(details[0].percent, Some("80%".to_string()));
}

#[test]
fn test_select_grade_details_year_default() {
    let mut grades_summary: GradesSummary = StrTable::new();
    let mut course_entry = StrTable::new();
    course_entry.insert(
        "2023_default".to_string(),
        vec![create_test_grade_detail("Midterm", "40%")],
    );
    course_entry.insert("default".to_string(), vec![create_test_grade_detail("Exam", "50%")]);
    grades_summary.insert("PHYS101".to_string(), course_entry);

    let result = select_grade_details(
        &grades_summary,
        "PHYS101",
        "2023",
        "EE",
        "Electrical Engineering",
    );

    assert!(result.is_some());
    let details = result.unwrap();
    assert_eq!(details.len(), 1);
    assert_eq!(details[0].name, "Midterm");
}

#[test]
fn test_select_grade_details_global_default() {
    let mut grades_summary: GradesSummary = StrTable::new();
    let mut course_entry = StrTable::new();
    course_entry.insert("default".to_string(), vec![create_test_grade_detail("Final", "100%")]);
    grades_summary.insert("CHEM101".to_string(), course_entry);

    let result = select_grade_details(
        &grades_summary,
        "CHEM101",
        "2024",
        "ME",
        "Mechanical Engineering",
    );

    assert!(result.is_some());
    let details = result.unwrap();
    assert_eq!(details.len(), 1);
    assert_eq!(details[0].name, "Final");
}

#[test]
fn test_select_grade_details_not_found() {
    let grades_summary: GradesSummary = StrTable::new();

    let result = select_grade_details(&grades_summary, "UNKNOWN", "2023", "CS", "Computer Science");

    assert!(result.is_none());
}

#[test]
fn test_select_grade_details_empty_details() {
    let mut grades_summary: GradesSummary = StrTable::new();
    let mut course_entry = StrTable::new();
    course_entry.insert("2023_CS".to_string(), vec![]);
    course_entry.insert("default".to_string(), vec![create_test_grade_detail("Backup", "100%")]);
    grades_summary.insert("TEST101".to_string(), course_entry);

    let result = select_grade_details(&grades_summary, "TEST101", "2023", "CS", "Computer Science");

    // Falls back to default since 2023_CS is empty
    assert!(result.is_some());
    let details = result.unwrap();
    assert_eq!(details[0].name, "Backup");
}

#[test]
fn test_select_grade_details_all_empty_is_none() {
    let mut grades_summary: GradesSummary = StrTable::new();
    let mut course_entry = StrTable::new();
    course_entry.insert("2023_CS".to_string(), vec![]);
    course_entry.insert("default".to_string(), vec![]);
    grades_summary.insert("EMPTY101".to_string(), course_entry);

    let result = select_grade_details(&grades_summary, "EMPTY101", "2023", "CS", "Computer Science");
    assert!(result.is_none());
}

#[test]
fn test_resolve_repo_id_plan_specific() {
    let mut lookup_table: LookupTable = StrTable::new();
    let mut mapping = StrTable::new();
    mapping.insert("PLAN_A".to_string(), "REPO_A".to_string());
    mapping.insert("DEFAULT".to_string(), "REPO_DEFAULT".to_string());
    lookup_table.insert("COURSE1".to_string(), mapping);

    let repo_id = resolve_repo_id(&lookup_table, "COURSE1", "PLAN_A");
    assert_eq!(repo_id, "REPO_A");
}

#[test]
fn test_resolve_repo_id_default_fallback() {
    let mut lookup_table: LookupTable = StrTable::new();
    let mut mapping = StrTable::new();
    mapping.insert("DEFAULT".to_string(), "REPO_DEFAULT".to_string());
    lookup_table.insert("COURSE1".to_string(), mapping);

    let repo_id = resolve_repo_id(&lookup_table, "COURSE1", "PLAN_B");
    assert_eq!(repo_id, "REPO_DEFAULT");
}

#[test]
fn test_resolve_repo_id_identity_fallback() {
    let lookup_table: LookupTable = StrTable::new();

    let repo_id = resolve_repo_id(&lookup_table, "COURSE1", "PLAN_A");
    assert_eq!(repo_id, "COURSE1");
}

#[test]
fn test_resolve_repo_id_lowercase_default_and_blank_entries() {
    let mut lookup_table: LookupTable = StrTable::new();
    let mut mapping = StrTable::new();
    mapping.insert("default".to_string(), "  REPO_LOWER  ".to_string());
    lookup_table.insert("COURSE1".to_string(), mapping);
    let mut blank = StrTable::new();
    blank.insert("PLAN_A".to_string(), "   ".to_string());
    lookup_table.insert("COURSE2".to_string(), blank);

    assert_eq!(resolve_repo_id(&lookup_table, "COURSE1", "PLAN_A"), "REPO_LOWER");
    assert_eq!(resolve_repo_id(&lookup_table, "COURSE2", "PLAN_A"), "COURSE2");
}

#[test]
fn test_table_read_after_write() {
    let mut table: StrTable<u32> = StrTable::new();
    assert!(table.is_empty());
    table.insert("a".to_string(), 1);
    table.insert("b".to_string(), 2);
    table.insert("a".to_string(), 3);
    assert_eq!(table.get("a"), Some(&3));
    assert_eq!(table.get("b"), Some(&2));
    assert_eq!(table.get("c"), None);
    assert_eq!(table.entries().len(), 2);
}

#[test]
fn test_repo_id_from_file_name() {
    assert_eq!(repo_id_from_file_name("CS101.mdx"), Some("CS101".to_string()));
    assert_eq!(repo_id_from_file_name("a.b.mdx"), Some("a.b".to_string()));
    assert_eq!(repo_id_from_file_name("CS101.json"), None);
    assert_eq!(repo_id_from_file_name("ignore.txt"), None);
    assert_eq!(repo_id_from_file_name(".mdx"), None);
    assert_eq!(repo_id_from_file_name("mdx"), None);
}

fn info(year: &str, code: &str, name: &str, plan_id: &str) -> PlanInfo {
    PlanInfo {
        year: year.to_string(),
        major_code: code.to_string(),
        major_name: name.to_string(),
        plan_id: plan_id.to_string(),
    }
}

fn toml_course(code: &str, name: &str) -> TomlCourse {
    TomlCourse {
        course_code: code.to_string(),
        course_name: name.to_string(),
        credit_bits: Some(3.0f64.to_bits()),
        assessment_method: Some("考试".to_string()),
        course_nature: Some("必修".to_string()),
        recommended_year_semester: Some("第一学年秋季".to_string()),
        hours: None,
        total_hours: Some(48),
        grade_details: None,
    }
}

#[test]
fn test_build_plan_enriches_courses() {
    let mut lookup_table: LookupTable = StrTable::new();
    let mut mapping = StrTable::new();
    mapping.insert("PLAN_X".to_string(), "REPO_X".to_string());
    lookup_table.insert("C001".to_string(), mapping);

    let mut grades_summary: GradesSummary = StrTable::new();
    let mut entry = StrTable::new();
    entry.insert("default".to_string(), vec![create_test_grade_detail("Final", "100%")]);
    grades_summary.insert("REPO_X".to_string(), entry);

    let mut introductions: CourseIntroductions = StrTable::new();
    let mut variants = StrTable::new();
    variants.insert(
        "default".to_string(),
        CourseIntroduction { zh: "中文简介".to_string(), en: "English".to_string() },
    );
    introductions.insert("C001".to_string(), variants);

    let plan = build_plan(
        TomlPlan {
            info: info("2024", "080101", "数据科学", "PLAN_X"),
            courses: vec![toml_course("C001", "高级语言程序设计"), toml_course("C002", "线性代数")],
        },
        &grades_summary,
        &introductions,
        &lookup_table,
    );
    assert_eq!(plan.year, "2024");
    assert_eq!(plan.courses.len(), 2);
    let first = &plan.courses[0];
    assert_eq!(first.repo_id, "REPO_X");
    assert_eq!(first.name, "高级语言程序设计");
    assert_eq!(first.grade_details.as_ref().unwrap()[0].name, "Final");
    assert_eq!(first.introduction.zh, "中文简介");
    assert_eq!(first.introduction.en, "English");
    assert_eq!(first.credit_bits.map(f64::from_bits), Some(3.0));
    assert_eq!(first.recommended_semester, Some("第一学年秋季".to_string()));
    let second = &plan.courses[1];
    assert_eq!(second.repo_id, "C002");
    assert!(second.grade_details.is_none());
    assert_eq!(second.introduction.zh, "");
}

#[test]
fn test_sort_plans_by_year_then_major_code() {
    let empty = || -> (GradesSummary, CourseIntroductions, LookupTable) {
        (StrTable::new(), StrTable::new(), StrTable::new())
    };
    let (g, i, l) = empty();
    let plans: Vec<Plan> = vec![
        build_plan(TomlPlan { info: info("2024", "02", "B", "P"), courses: vec![] }, &g, &i, &l),
        build_plan(TomlPlan { info: info("2023", "09", "C", "P"), courses: vec![] }, &g, &i, &l),
        build_plan(TomlPlan { info: info("2024", "01", "A", "P"), courses: vec![] }, &g, &i, &l),
    ];
    let sorted = sort_plans(plans);
    let keys: Vec<(String, String)> = sorted
        .iter()
        .map(|p| (p.year.clone(), p.major_code.clone()))
        .collect();
    assert_eq!(
        keys,
        vec![
            ("2023".to_string(), "09".to_string()),
            ("2024".to_string(), "01".to_string()),
            ("2024".to_string(), "02".to_string()),
        ]
    );
}

#[test]
fn test_shared_categories_config_empty() {
    let config = SharedCategoriesConfig::empty();
    assert!(config.categories.is_empty());
    assert!(config.no_course_info_repo_ids.is_empty());
}

#[test]
fn test_unique_ids_keeps_first_occurrences() {
    let ids = vec![
        "B".to_string(),
        "A".to_string(),
        "B".to_string(),
        "C".to_string(),
        "A".to_string(),
    ];
    assert_eq!(unique_ids(ids), vec!["B".to_string(), "A".to_string(), "C".to_string()]);
    assert_eq!(unique_ids(Vec::new()), Vec::<String>::new());
}

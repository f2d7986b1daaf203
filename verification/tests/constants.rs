use hoa_backend::constants::{
    get_semester_folder, get_semester_title_by_folder, parse_semester_folders, semester_entry,
    should_include_file, SEMESTER_COUNT,
};

#[test]
fn test_get_semester_folder_valid() {
    let result = get_semester_folder("第一学年秋季");
    assert_eq!(result, Some(("fresh-autumn", "大一·秋")));

    let result = get_semester_folder("第二学年春季");
    assert_eq!(result, Some(("sophomore-spring", "大二·春")));

    let result = get_semester_folder("第四学年夏季");
    assert_eq!(result, Some(("senior-summer", "大四·夏")));

    let result = get_semester_folder("第五学年春季");
    assert_eq!(result, Some(("fifth-spring", "大五·春")));
}

#[test]
fn test_get_semester_folder_invalid() {
    let result = get_semester_folder("第六学年秋季");
    assert_eq!(result, None);

    let result = get_semester_folder("invalid");
    assert_eq!(result, None);

    let result = get_semester_folder("");
    assert_eq!(result, None);
}

#[test]
fn test_parse_semester_folders_single() {
    let result = parse_semester_folders("第二学年夏季");
    assert_eq!(result, vec![("sophomore-summer", "大二·夏")]);
}

#[test]
fn test_parse_semester_folders_multiple() {
    let result = parse_semester_folders("第三学年秋季,第四学年秋季");
    assert_eq!(
        result,
        vec![("junior-autumn", "大三·秋"), ("senior-autumn", "大四·秋")]
    );
}

#[test]
fn test_parse_semester_folders_dedup_and_invalid() {
    let result = parse_semester_folders("第三学年秋季，第三学年秋季，未知学期");
    assert_eq!(result, vec![("junior-autumn", "大三·秋")]);
}

#[test]
fn test_parse_semester_folders_trims_and_uses_enumeration_comma() {
    let result = parse_semester_folders(" 第一学年春季 、第一学年秋季,, 第一学年春季");
    assert_eq!(
        result,
        vec![("fresh-spring", "大一·春"), ("fresh-autumn", "大一·秋")]
    );
    assert_eq!(parse_semester_folders(""), vec![]);
}

#[test]
fn test_get_semester_title_by_folder() {
    assert_eq!(
        get_semester_title_by_folder("fresh-summer"),
        Some("大一·夏")
    );
    assert_eq!(
        get_semester_title_by_folder("fifth-autumn"),
        Some("大五·秋")
    );
    assert_eq!(get_semester_title_by_folder("unknown"), None);
}

#[test]
fn test_semester_folder_title_round_trip() {
    for i in 0..SEMESTER_COUNT {
        let (name, folder, title) = semester_entry(i);
        assert_eq!(get_semester_folder(name), Some((folder, title)));
        assert_eq!(get_semester_title_by_folder(folder), Some(title));
    }
}

#[test]
fn test_should_include_file_excluded_patterns() {
    assert!(!should_include_file(".gitkeep"));
    assert!(!should_include_file("README.md"));
    assert!(!should_include_file("LICENSE"));
    assert!(!should_include_file("tag.txt"));
    assert!(!should_include_file("folder/.gitkeep"));
    assert!(!should_include_file("docs/README.md"));
}

#[test]
fn test_should_include_file_excluded_extensions() {
    assert!(!should_include_file("config.toml"));
    assert!(!should_include_file("folder/settings.toml"));
    assert!(!should_include_file("path/to/file.toml"));
}

#[test]
fn test_should_include_file_excluded_prefixes() {
    assert!(!should_include_file(".github/workflows/ci.yml"));
    assert!(!should_include_file(".github/ISSUE_TEMPLATE.md"));
}

#[test]
fn test_should_include_file_valid_files() {
    assert!(should_include_file("notes.pdf"));
    assert!(should_include_file("lecture.pptx"));
    assert!(should_include_file("folder/document.docx"));
    assert!(should_include_file("path/to/file.txt"));
    assert!(should_include_file("code.py"));
    assert!(should_include_file("assignment.md"));
}

#[test]
fn test_should_include_file_edge_cases() {
    assert!(should_include_file("readme.txt")); // Not exactly README.md
    assert!(should_include_file("my.toml.txt")); // Doesn't end with .toml
    assert!(should_include_file("github/file.txt")); // Not .github prefix
    assert!(!should_include_file(".github/file.txt")); // Is .github prefix
}

#[test]
fn test_should_include_file_trailing_slash_and_empty() {
    assert!(should_include_file("folder/"));
    assert!(should_include_file(""));
    assert!(!should_include_file("a/b/.toml"));
}

#[test]
fn test_semester_mapping_complete() {
    // Ensure all 15 semesters (5 academic years x 3 seasons) are mapped
    assert_eq!(SEMESTER_COUNT, 15);

    // Check uniqueness of folders
    let mut folders = std::collections::HashSet::new();
    for i in 0..SEMESTER_COUNT {
        let (_, folder, _) = semester_entry(i);
        assert!(folders.insert(folder), "Duplicate folder: {}", folder);
    }

    // Check uniqueness of titles
    let mut titles = std::collections::HashSet::new();
    for i in 0..SEMESTER_COUNT {
        let (_, _, title) = semester_entry(i);
        assert!(titles.insert(title), "Duplicate title: {}", title);
    }
}

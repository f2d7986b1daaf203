use hoa_backend::fetcher::{
    bearer_value, contents_url, decode_file_content, normalize_api_base, org_repos_url,
    summarize_fetches, text_of_decoded_bytes, token_from_env, token_from_gh_output, CommandOutput, ContentError,
    RepoFetchStatus, RepoListing, RepositoryInfo, REPOS_PER_PAGE,
};

fn repository(name: &str) -> RepositoryInfo {
    RepositoryInfo { name: name.to_string(), archived: false, is_template: false }
}

#[test]
fn lists_only_course_repositories() {
    let mut listing = RepoListing::new();
    let batch = vec![
        repository("CS101"),
        repository(".github"),
        RepositoryInfo { name: "OLD101".to_string(), archived: true, is_template: false },
        RepositoryInfo { name: "course-template".to_string(), archived: false, is_template: true },
    ];
    let more = listing.receive_page(&batch);
    assert!(!more);
    assert_eq!(listing.page, 1);
    assert_eq!(listing.into_sorted_names(), vec!["CS101".to_string()]);
}

#[test]
fn paginates_full_repository_pages() {
    let mut listing = RepoListing::new();
    let first: Vec<RepositoryInfo> =
        (0..100).map(|index| repository(&format!("COURSE{index:03}"))).collect();
    assert_eq!(first.len(), REPOS_PER_PAGE);
    assert!(listing.receive_page(&first));
    assert_eq!(listing.page, 2);
    let second = vec![repository("LAST101")];
    assert!(!listing.receive_page(&second));
    assert_eq!(listing.page, 2);
    let names = listing.into_sorted_names();
    assert_eq!(names.len(), 101);
    assert_eq!(names[0], "COURSE000");
    assert_eq!(names[99], "COURSE099");
    assert_eq!(names[100], "LAST101");
}

#[test]
fn test_listing_sorts_names_by_code_point() {
    let mut listing = RepoListing::new();
    let batch = vec![repository("b"), repository("B"), repository("a"), repository("中文")];
    assert!(!listing.receive_page(&batch));
    assert_eq!(
        listing.into_sorted_names(),
        vec!["B".to_string(), "a".to_string(), "b".to_string(), "中文".to_string()]
    );
}

#[test]
fn test_request_urls() {
    assert_eq!(normalize_api_base("http://127.0.0.1:8080//"), "http://127.0.0.1:8080");
    assert_eq!(normalize_api_base("https://api.github.com"), "https://api.github.com");
    assert_eq!(
        org_repos_url("https://api.github.com", "HOAHRB-Courses"),
        "https://api.github.com/orgs/HOAHRB-Courses/repos"
    );
    assert_eq!(bearer_value("token"), "Bearer token");
    assert_eq!(
        contents_url("HOAHRB-Courses", "CS101", "README.md", None),
        "https://api.github.com/repos/HOAHRB-Courses/CS101/contents/README.md"
    );
    assert_eq!(
        contents_url("HOAHRB-Courses", "CS101", "worktree.json", Some("worktree")),
        "https://api.github.com/repos/HOAHRB-Courses/CS101/contents/worktree.json?ref=worktree"
    );
}

#[test]
fn test_decode_file_content() {
    assert_eq!(decode_file_content("SGVs\nbG8=\n", "base64"), Ok("Hello".to_string()));
    assert_eq!(decode_file_content("5Lit5paH", "base64"), Ok("中文".to_string()));
    assert_eq!(decode_file_content("plain text", "utf-8"), Ok("plain text".to_string()));
    assert_eq!(decode_file_content("not base64!", "base64"), Err(ContentError::InvalidBase64));
    assert_eq!(decode_file_content("/w==", "base64"), Err(ContentError::InvalidUtf8));
}

#[test]
fn test_summarize_fetches() {
    let outcomes = vec![
        Some(RepoFetchStatus { has_readme: true, has_worktree: true }),
        Some(RepoFetchStatus { has_readme: true, has_worktree: false }),
        Some(RepoFetchStatus { has_readme: false, has_worktree: false }),
        None,
    ];
    let s = summarize_fetches(&outcomes);
    assert_eq!(s.ready, 2);
    assert_eq!(s.missing_readme, 1);
    assert_eq!(s.missing_worktree, 2);
    assert_eq!(s.failed, 1);
    assert_eq!(s.ready + s.missing_readme + s.failed, outcomes.len());
}

#[test]
fn test_token_priority() {
    assert_eq!(
        token_from_env(Some("personal".to_string()), Some("github".to_string())),
        Some("personal".to_string())
    );
    assert_eq!(token_from_env(None, Some("github".to_string())), Some("github".to_string()));
    assert_eq!(token_from_env(None, None), None);
}

#[test]
fn test_token_from_gh_output() {
    let ok = CommandOutput { success: true, stdout: b"  gho_abc123\n".to_vec() };
    assert_eq!(token_from_gh_output(ok), Some("gho_abc123".to_string()));
    let blank = CommandOutput { success: true, stdout: b" \n".to_vec() };
    assert_eq!(token_from_gh_output(blank), None);
    let failed = CommandOutput { success: false, stdout: b"gho_abc123".to_vec() };
    assert_eq!(token_from_gh_output(failed), None);
    let invalid = CommandOutput { success: true, stdout: vec![0xff, 0xfe] };
    assert_eq!(token_from_gh_output(invalid), None);
}

#[test]
fn test_text_of_decoded_bytes() {
    assert_eq!(text_of_decoded_bytes(Some(b"Hello".to_vec())), Ok("Hello".to_string()));
    assert_eq!(text_of_decoded_bytes(Some(vec![0xe4, 0xb8, 0xad])), Ok("中".to_string()));
    assert_eq!(text_of_decoded_bytes(Some(vec![0xff])), Err(ContentError::InvalidUtf8));
    assert_eq!(text_of_decoded_bytes(None), Err(ContentError::InvalidBase64));
}

#[test]
fn test_listing_over_three_pages() {
    let mut listing = RepoListing::new();
    let page1: Vec<RepositoryInfo> = (0..100).map(|i| repository(&format!("B{i:03}"))).collect();
    let mut page2: Vec<RepositoryInfo> = (0..99).map(|i| repository(&format!("A{i:03}"))).collect();
    page2.push(repository(".hidden"));
    let page3 = vec![repository("C000"), RepositoryInfo {
        name: "OLD".to_string(),
        archived: true,
        is_template: false,
    }];
    assert_eq!(listing.page, 1);
    assert!(listing.receive_page(&page1));
    assert_eq!(listing.page, 2);
    assert!(listing.receive_page(&page2));
    assert_eq!(listing.page, 3);
    assert!(!listing.receive_page(&page3));
    assert_eq!(listing.page, 3);
    let names = listing.into_sorted_names();
    assert_eq!(names.len(), 100 + 99 + 1);
    assert_eq!(names[0], "A000");
    assert_eq!(names[99], "B000");
    assert_eq!(names[199], "C000");
    assert!(names.windows(2).all(|w| w[0] < w[1]));
}

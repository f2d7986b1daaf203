use hoa_backend::models::{FileMetadata, FileNode, NodeType, WorktreeData};
use hoa_backend::table::StrTable;
use hoa_backend::tree::{build_file_tree, generate_download_url, tree_to_jsx};

fn worktree_of(data: Vec<(String, FileMetadata)>) -> WorktreeData {
    let mut table = StrTable::new();
    for (path, meta) in data {
        table.insert(path, meta);
    }
    WorktreeData(table)
}

fn meta(size: Option<u64>, time: Option<i64>) -> FileMetadata {
    FileMetadata { size, time }
}

#[test]
fn test_build_simple_tree() {
    let data = vec![
        ("file1.txt".to_string(), meta(Some(100), Some(1640000000))),
        ("folder/file2.txt".to_string(), meta(Some(200), Some(1640000000))),
    ];

    let worktree = worktree_of(data);
    let tree = build_file_tree(&worktree, "test-repo");

    assert_eq!(tree.len(), 2); // file1.txt and folder
    assert!(tree.iter().any(|n| n.name == "file1.txt"));
    assert!(tree.iter().any(|n| n.name == "folder"));
}

#[test]
fn test_build_nested_tree() {
    let data = vec![
        ("docs/notes/lecture1.pdf".to_string(), meta(Some(1024), Some(1640000000))),
        ("docs/notes/lecture2.pdf".to_string(), meta(Some(2048), Some(1640000000))),
        ("docs/assignments/hw1.pdf".to_string(), meta(Some(512), Some(1640000000))),
    ];

    let worktree = worktree_of(data);
    let tree = build_file_tree(&worktree, "test-repo");

    assert_eq!(tree.len(), 1); // Only docs folder at root
    let docs_folder = &tree[0];
    assert_eq!(docs_folder.name, "docs");
    assert_eq!(docs_folder.node_type, NodeType::Folder);
    assert_eq!(docs_folder.children.len(), 2); // notes and assignments
}

#[test]
fn test_tree_sorting() {
    let data = vec![
        ("z_file.txt".to_string(), meta(Some(100), None)),
        ("a_folder/file.txt".to_string(), meta(Some(100), None)),
        ("b_file.txt".to_string(), meta(Some(100), None)),
    ];

    let worktree = worktree_of(data);
    let tree = build_file_tree(&worktree, "test-repo");

    // Folders should come before files
    assert_eq!(tree[0].name, "a_folder");
    assert_eq!(tree[0].node_type, NodeType::Folder);
    assert_eq!(tree[1].name, "b_file.txt");
    assert_eq!(tree[2].name, "z_file.txt");
}

#[test]
fn test_exclusion_rules() {
    let data = vec![
        ("README.md".to_string(), meta(Some(100), None)),
        ("valid.txt".to_string(), meta(Some(100), None)),
        (".github/workflow.yml".to_string(), meta(Some(100), None)),
    ];

    let worktree = worktree_of(data);
    let tree = build_file_tree(&worktree, "test-repo");

    // Only valid.txt should remain
    assert_eq!(tree.len(), 1);
    assert_eq!(tree[0].name, "valid.txt");
}

#[test]
fn test_tree_file_node_fields_and_case_insensitive_order() {
    let data = vec![
        ("Beta.pdf".to_string(), meta(Some(7), Some(0))),
        ("alpha.pdf".to_string(), meta(None, None)),
        ("docs/x y.pdf".to_string(), meta(Some(3), Some(951782400))),
    ];
    let tree = build_file_tree(&worktree_of(data), "REPO");

    assert_eq!(tree.len(), 3);
    assert_eq!(tree[0].name, "docs");
    assert_eq!(tree[0].node_type, NodeType::Folder);
    assert_eq!(tree[0].url, None);
    assert_eq!(tree[1].name, "alpha.pdf");
    assert_eq!(tree[1].size, None);
    assert_eq!(tree[1].date, None);
    assert_eq!(tree[2].name, "Beta.pdf");
    assert_eq!(tree[2].size, Some(7));
    assert_eq!(tree[2].date.as_deref(), Some("1970-01-01"));
    assert_eq!(
        tree[2].url.as_deref(),
        Some("https://gh.hoa.moe/github.com/HOAHRB-Courses/REPO/raw/main/Beta.pdf")
    );
    let inner = &tree[0].children[0];
    assert_eq!(inner.name, "x y.pdf");
    assert_eq!(inner.node_type, NodeType::File);
    assert_eq!(inner.date.as_deref(), Some("2000-02-29"));
    assert_eq!(
        inner.url.as_deref(),
        Some("https://gh.hoa.moe/github.com/HOAHRB-Courses/REPO/raw/main/docs/x%20y.pdf")
    );
}

#[test]
fn test_tree_path_that_is_file_and_folder() {
    let data = vec![
        ("a/b".to_string(), meta(Some(1), None)),
        ("a".to_string(), meta(Some(2), None)),
    ];
    let tree = build_file_tree(&worktree_of(data), "R");
    assert_eq!(tree.len(), 1);
    assert_eq!(tree[0].node_type, NodeType::File);
    assert_eq!(tree[0].size, Some(2));
    assert_eq!(tree[0].children.len(), 1);
    assert_eq!(tree[0].children[0].name, "b");
}

#[test]
fn test_build_empty_tree() {
    let tree = build_file_tree(&worktree_of(vec![]), "R");
    assert!(tree.is_empty());
}

#[test]
fn test_generate_download_url() {
    let url = generate_download_url("TEST101", "slides/lecture1.pdf");
    assert_eq!(
        url,
        "https://gh.hoa.moe/github.com/HOAHRB-Courses/TEST101/raw/main/slides/lecture1.pdf"
    );
}

#[test]
fn test_generate_download_url_with_spaces() {
    let url = generate_download_url("COURSE", "folder/file name.pdf");
    assert!(url.contains("file%20name.pdf"));
}

#[test]
fn test_generate_download_url_with_chinese() {
    let url = generate_download_url("COURSE", "作业/题目.pdf");
    assert!(url.contains("%E4%BD%9C%E4%B8%9A")); // Encoded Chinese
}

#[test]
fn test_generate_download_url_keeps_separators_only() {
    let url = generate_download_url("C", "a%b/~c.d_e-f/");
    assert_eq!(
        url,
        "https://gh.hoa.moe/github.com/HOAHRB-Courses/C/raw/main/a%25b/~c.d_e-f/"
    );
}

/// The date that the file tree shows for a file with timestamp `unix_ts`.
fn format_timestamp(unix_ts: i64) -> String {
    let worktree = worktree_of(vec![("f.txt".to_string(), meta(Some(1), Some(unix_ts)))]);
    let tree = build_file_tree(&worktree, "repo");
    tree[0].date.clone().unwrap()
}

#[test]
fn test_format_timestamp() {
    let formatted = format_timestamp(1640000000);
    assert_eq!(formatted, "2021-12-20");
}

#[test]
fn test_format_timestamp_edges() {
    assert_eq!(format_timestamp(0), "1970-01-01");
    assert_eq!(format_timestamp(951782400), "2000-02-29");
    assert_eq!(format_timestamp(253402300799), "9999-12-31");
    assert_eq!(format_timestamp(253402300800), "+10000-01-01");
    assert_eq!(format_timestamp(8210266876799), "+262142-12-31");
}

#[test]
fn test_tree_to_jsx_simple() {
    let nodes = vec![FileNode {
        name: "test.pdf".to_string(),
        node_type: NodeType::File,
        children: vec![],
        url: Some("https://example.com/test.pdf".to_string()),
        size: Some(1024),
        date: Some("2021-12-20".to_string()),
    }];

    let jsx = tree_to_jsx(&nodes, 1);
    assert!(jsx.contains("<File"));
    assert!(jsx.contains("name=\"test.pdf\""));
    assert!(jsx.contains("url=\"https://example.com/test.pdf\""));
    assert!(jsx.contains("date=\"2021-12-20\""));
    assert!(jsx.contains("size={1024}"));
}

#[test]
fn test_tree_to_jsx_folder() {
    let nodes = vec![FileNode {
        name: "docs".to_string(),
        node_type: NodeType::Folder,
        children: vec![FileNode {
            name: "file.txt".to_string(),
            node_type: NodeType::File,
            children: vec![],
            url: Some("https://example.com/file.txt".to_string()),
            size: Some(100),
            date: None,
        }],
        url: None,
        size: None,
        date: None,
    }];

    let jsx = tree_to_jsx(&nodes, 1);
    assert!(jsx.contains("<Folder name=\"docs\">"));
    assert!(jsx.contains("</Folder>"));
    assert!(jsx.contains("<File name=\"file.txt\""));
}

#[test]
fn test_tree_to_jsx_zero_size_excluded() {
    let nodes = vec![FileNode {
        name: "empty.txt".to_string(),
        node_type: NodeType::File,
        children: vec![],
        url: Some("https://example.com/empty.txt".to_string()),
        size: Some(0),
        date: None,
    }];

    let jsx = tree_to_jsx(&nodes, 1);
    // Size should be excluded if 0
    assert!(!jsx.contains("size="));
}

#[test]
fn test_tree_to_jsx_indentation() {
    let nodes = vec![FileNode {
        name: "folder".to_string(),
        node_type: NodeType::Folder,
        children: vec![FileNode {
            name: "nested".to_string(),
            node_type: NodeType::Folder,
            children: vec![FileNode {
                name: "file.txt".to_string(),
                node_type: NodeType::File,
                children: vec![],
                url: Some("https://example.com/file.txt".to_string()),
                size: Some(100),
                date: None,
            }],
            url: None,
            size: None,
            date: None,
        }],
        url: None,
        size: None,
        date: None,
    }];

    let jsx = tree_to_jsx(&nodes, 1);
    // Check proper indentation
    assert!(jsx.contains("  <Folder name=\"folder\">"));
    assert!(jsx.contains("    <Folder name=\"nested\">"));
    assert!(jsx.contains("      <File name=\"file.txt\""));
}

#[test]
fn test_tree_to_jsx_empty() {
    let nodes: Vec<FileNode> = vec![];
    let jsx = tree_to_jsx(&nodes, 1);
    assert_eq!(jsx, "");
}

#[test]
fn test_tree_to_jsx_exact_text() {
    let nodes = vec![
        FileNode {
            name: "empty".to_string(),
            node_type: NodeType::Folder,
            children: vec![],
            url: None,
            size: None,
            date: None,
        },
        FileNode {
            name: "a.pdf".to_string(),
            node_type: NodeType::File,
            children: vec![],
            url: Some("u".to_string()),
            size: Some(5),
            date: Some("d".to_string()),
        },
    ];
    let jsx = tree_to_jsx(&nodes, 0);
    assert_eq!(
        jsx,
        "<Folder name=\"empty\">\n\n</Folder>\n<File name=\"a.pdf\" url=\"u\" date=\"d\" size={5} />"
    );
}

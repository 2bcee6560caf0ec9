use project_snapshot::snapshot::{
    decimal_text, generate_snapshot_content, snapshot, FileContent, FileRecord, Snapshot,
};

const SUMMARY: &str = "This file contains a snapshot of the project structure and source code, formatted for AI consumption.\n";

fn text(path: &str, body: &str) -> FileRecord {
    FileRecord { path: path.to_string(), content: FileContent::Text(body.to_string()) }
}

fn unreadable(path: &str, why: &str) -> FileRecord {
    FileRecord { path: path.to_string(), content: FileContent::Unreadable(why.to_string()) }
}

#[test]
fn document_of_the_example_project() {
    let files = vec![
        text("/w/demo/.gitignore", ""),
        text("/w/demo/Cargo.toml", "[package]"),
        text("/w/demo/src/main.ext", "X"),
        text("/w/demo/src/module/api.ext", "Y"),
    ];
    let document = generate_snapshot_content("demo", "/w/demo", &files);
    let expected = format!(
        "{}{}{}{}{}{}{}{}{}",
        "# Project Snapshot: demo\n\n",
        SUMMARY,
        "Total files included: 4\n\n",
        "```\n.\n├── .gitignore\n├── Cargo.toml\n└── src\n    ├── main.ext\n    └── module\n        └── api.ext\n\n```\n\n",
        "## File Contents\n\n",
        "```:.gitignore\n\n```\n\n",
        "```toml:Cargo.toml\n[package]\n```\n\n",
        "```ext:src/main.ext\nX\n```\n\n",
        "```ext:src/module/api.ext\nY\n```\n\n",
    );
    assert_eq!(document, expected);
}

#[test]
fn blocks_follow_the_order_of_the_list() {
    let files = vec![text("p/z.txt", "last first"), text("p/a.txt", "first last")];
    let document = generate_snapshot_content("p", "p", &files);
    let z = document.find("```txt:z.txt\nlast first\n```").unwrap();
    let a = document.find("```txt:a.txt\nfirst last\n```").unwrap();
    assert!(z < a);
    assert!(document.contains("```\n.\n├── a.txt\n└── z.txt\n\n```\n\n"));
}

#[test]
fn a_file_that_cannot_be_read_keeps_its_place() {
    let files = vec![
        text("p/a.txt", "A"),
        unreadable("p/b.txt", "No such file or directory (os error 2)"),
        text("p/c.txt", "C"),
    ];
    let document = generate_snapshot_content("p", "p", &files);
    let expected = format!(
        "{}{}{}{}{}{}{}{}",
        "# Project Snapshot: p\n\n",
        SUMMARY,
        "Total files included: 3\n\n",
        "```\n.\n├── a.txt\n├── b.txt\n└── c.txt\n\n```\n\n",
        "## File Contents\n\n",
        "```txt:a.txt\nA\n```\n\n",
        "```txt:b.txt\nError reading file: No such file or directory (os error 2)\n```\n\n",
        "```txt:c.txt\nC\n```\n\n",
    );
    assert_eq!(document, expected);
}

#[test]
fn a_file_outside_the_root_is_named_by_its_whole_path() {
    let files = vec![text("/elsewhere/notes.md", "n")];
    let document = generate_snapshot_content("p", "/p", &files);
    assert!(document.ends_with("## File Contents\n\n```md:/elsewhere/notes.md\nn\n```\n\n"));
}

#[test]
fn the_same_input_gives_the_same_document() {
    let files = vec![text("r/b", "1"), unreadable("r/a", "denied"), text("r/c/d.rs", "fn d() {}")];
    let first = generate_snapshot_content("r", "r", &files);
    let second = generate_snapshot_content("r", "r", &files);
    assert_eq!(first, second);
}

#[test]
fn no_files_give_no_document() {
    assert!(matches!(snapshot("p", "p", &[]), Snapshot::NoFiles));
}

#[test]
fn files_give_the_document() {
    let files = vec![text("p/a", "A")];
    match snapshot("p", "p", &files) {
        Snapshot::Document(document) => {
            assert_eq!(document, generate_snapshot_content("p", "p", &files));
            assert!(document.starts_with("# Project Snapshot: p\n\n"));
        }
        Snapshot::NoFiles => panic!("a document was due"),
    }
}

#[test]
fn the_assembler_alone_writes_an_empty_list_too() {
    let document = generate_snapshot_content("none", "none", &[]);
    let expected = format!(
        "{}{}{}{}{}",
        "# Project Snapshot: none\n\n",
        SUMMARY,
        "Total files included: 0\n\n",
        "```\n.\n\n```\n\n",
        "## File Contents\n\n",
    );
    assert_eq!(document, expected);
}

#[test]
fn numbers_in_decimal() {
    assert_eq!(decimal_text(0), "0");
    assert_eq!(decimal_text(7), "7");
    assert_eq!(decimal_text(10), "10");
    assert_eq!(decimal_text(105), "105");
    assert_eq!(decimal_text(9876543210), "9876543210");
    assert_eq!(decimal_text(usize::MAX), usize::MAX.to_string());
}

#[test]
fn the_count_is_written_in_decimal() {
    let files: Vec<FileRecord> = (0..12).map(|i| text(&format!("p/f{:02}", i), "")).collect();
    let document = generate_snapshot_content("p", "p", &files);
    assert!(document.contains("\nTotal files included: 12\n\n"));
}

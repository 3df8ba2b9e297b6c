use docfmt::WalkEntry;

#[test]
fn identifier_ignores_separator_convention() {
    let a = docfmt::name_of_rel("input1/file.md");
    let b = docfmt::name_of_rel("input1\\file.md");
    assert_eq!(a, "input1/file");
    assert_eq!(a, b);
    // deriving again from an already normalized path changes nothing
    let c = docfmt::name_of_rel(a.as_str());
    assert_eq!(c, "input1/file");
}

#[test]
fn identifier_strips_only_final_extension() {
    assert_eq!(docfmt::name_of_rel("input1/file.tar.md"), "input1/file.tar");
    assert_eq!(docfmt::name_of_rel("file.md"), "file");
    assert_eq!(docfmt::name_of_rel("dir.v2/file"), "dir.v2/file");
}

#[test]
fn single_file_identifier_is_bare_stem() {
    assert_eq!(
        docfmt::single_file_name("tests/templates/file.hbs"),
        "file"
    );
    assert_eq!(docfmt::single_file_name("file.hbs"), "file");
    // explicit intent overrides the hidden-file convention: a directly
    // named hidden file still gets its identifier
    assert_eq!(docfmt::single_file_name("dir/.hidden.md"), ".hidden");
}

#[test]
fn name_of_joins_root_and_relative_path() {
    assert_eq!(
        docfmt::name_of("tests/templates", "tests/templates/input1/file.md"),
        Some(String::from("input1/file"))
    );
    assert_eq!(docfmt::name_of("tests/templates", "elsewhere/file.md"), None);
}

#[test]
fn strip_prefix_requires_whole_segments() {
    assert_eq!(
        docfmt::strip_path_prefix("root/sub/file.md", "root"),
        Some(String::from("sub/file.md"))
    );
    assert_eq!(docfmt::strip_path_prefix("rooted/file.md", "root"), None);
    assert_eq!(
        docfmt::strip_path_prefix("any/file.md", ""),
        Some(String::from("any/file.md"))
    );
}

#[test]
fn hidden_stem_is_never_collected() {
    let exts = vec![String::from("md"), String::from("markdown")];
    assert!(docfmt::accept_entry("input1/file.md", true, &exts));
    assert!(!docfmt::accept_entry("input1/.hidden.md", true, &exts));
    // the check reads the leaf name only: a hidden directory above a
    // plain file does not exclude it
    assert!(docfmt::accept_entry(".secret/file.md", true, &exts));
    // directories and unlisted or missing extensions are skipped
    assert!(!docfmt::accept_entry("input1/subdir", false, &exts));
    assert!(!docfmt::accept_entry("input1/file.txt", true, &exts));
    assert!(!docfmt::accept_entry("input1/file", true, &exts));
}

#[test]
fn collect_keeps_walk_order_and_names() {
    let exts = vec![String::from("md")];
    let entries = vec![
        WalkEntry {
            rel_path: String::from("input1/file.md"),
            is_file: true,
        },
        WalkEntry {
            rel_path: String::from("input1/.hidden.md"),
            is_file: true,
        },
        WalkEntry {
            rel_path: String::from("input1/subdir"),
            is_file: false,
        },
        WalkEntry {
            rel_path: String::from("input1/subdir/file.md"),
            is_file: true,
        },
    ];
    let collected = docfmt::collect(&entries, &exts);
    let names: Vec<&str> = collected.iter().map(|(id, _)| id.as_str()).collect();
    let indices: Vec<usize> = collected.iter().map(|(_, i)| *i).collect();
    assert_eq!(names, vec!["input1/file", "input1/subdir/file"]);
    assert_eq!(indices, vec![0, 3]);
}

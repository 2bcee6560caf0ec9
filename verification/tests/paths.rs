use project_snapshot::path::{
    chars_of, components_behind, extension_of, file_name_of, path_behind, path_components,
    project_name, relative_components, relative_path,
};

fn texts(items: &[&str]) -> Vec<String> {
    items.iter().map(|s| s.to_string()).collect()
}

#[test]
fn components_of_plain_paths() {
    assert_eq!(path_components("src/module/api.rs"), texts(&["src", "module", "api.rs"]));
    assert_eq!(path_components("/tmp/test-project"), texts(&["/", "tmp", "test-project"]));
    assert_eq!(path_components("name"), texts(&["name"]));
}

#[test]
fn components_of_odd_paths() {
    assert_eq!(path_components(""), texts(&[]));
    assert_eq!(path_components("/"), texts(&["/"]));
    assert_eq!(path_components("//"), texts(&["/"]));
    assert_eq!(path_components("a//b/"), texts(&["a", "b"]));
    assert_eq!(path_components("."), texts(&["."]));
    assert_eq!(path_components("./a/./b"), texts(&[".", "a", "b"]));
    assert_eq!(path_components("a/./b/."), texts(&["a", "b"]));
    assert_eq!(path_components("/./a"), texts(&["/", "a"]));
    assert_eq!(path_components("../a/.."), texts(&["..", "a", ".."]));
    assert_eq!(path_components(".git/config"), texts(&[".git", "config"]));
    assert_eq!(path_components("dir/é/ü.txt"), texts(&["dir", "é", "ü.txt"]));
}

#[test]
fn components_agree_with_std_on_unix_paths() {
    for path in [
        "", "/", "//", ".", "./", "./.", "a", "a/", "/a", "a/b", "a//b", "./a", "a/.", "a/./b",
        "/./a", "..", "../a", "a/..", "/a/b/c.txt", ".hidden/x", "a/.b/c", "x/...", ".../y",
    ] {
        let expected: Vec<String> = std::path::Path::new(path)
            .components()
            .map(|c| c.as_os_str().to_str().unwrap().to_string())
            .collect();
        assert_eq!(path_components(path), expected, "components of {:?}", path);
    }
}

#[test]
fn relative_components_under_the_root() {
    assert_eq!(
        relative_components("/tmp/test-project", "/tmp/test-project/src/main.rs"),
        texts(&["src", "main.rs"])
    );
    assert_eq!(relative_components(".", "./src/main.rs"), texts(&["src", "main.rs"]));
    assert_eq!(relative_components("proj/", "proj/a"), texts(&["a"]));
    assert_eq!(relative_components("proj", "proj"), texts(&[]));
}

#[test]
fn relative_components_outside_the_root() {
    assert_eq!(relative_components("/p", "/q/a"), texts(&["/", "q", "a"]));
    assert_eq!(relative_components("p", "/p/a"), texts(&["/", "p", "a"]));
    assert_eq!(relative_components("/p/q", "/p"), texts(&["/", "p"]));
    assert_eq!(relative_components("pro", "project/a"), texts(&["project", "a"]));
}

#[test]
fn components_behind_a_given_front() {
    let front = texts(&["/", "p"]);
    assert_eq!(components_behind(&front, "/p/a/b"), texts(&["a", "b"]));
    assert_eq!(components_behind(&front, "/x/a/b"), texts(&["/", "x", "a", "b"]));
    assert_eq!(components_behind(&texts(&[]), "a/b"), texts(&["a", "b"]));
}

#[test]
fn relative_path_as_it_is_written() {
    assert_eq!(relative_path("/tmp/test-project", "/tmp/test-project/src/main.rs"), "src/main.rs");
    assert_eq!(relative_path(".", "./Cargo.toml"), "Cargo.toml");
    assert_eq!(relative_path("/p", "/q/a.txt"), "/q/a.txt");
    assert_eq!(relative_path("", "/q/a.txt"), "/q/a.txt");
    assert_eq!(relative_path("", "a/b"), "a/b");
    assert_eq!(relative_path("p", "p"), "");
    assert_eq!(path_behind(&texts(&["p"]), "p/a/b/c"), "a/b/c");
}

#[test]
fn file_names() {
    assert_eq!(file_name_of("/tmp/test-project"), Some("test-project".to_string()));
    assert_eq!(file_name_of("a/b.txt"), Some("b.txt".to_string()));
    assert_eq!(file_name_of("a/b/"), Some("b".to_string()));
    assert_eq!(file_name_of("a/b/."), Some("b".to_string()));
    assert_eq!(file_name_of("."), None);
    assert_eq!(file_name_of("/"), None);
    assert_eq!(file_name_of(""), None);
    assert_eq!(file_name_of("a/.."), None);
    assert_eq!(file_name_of(".."), None);
    assert_eq!(file_name_of("..."), Some("...".to_string()));
}

#[test]
fn extensions() {
    assert_eq!(extension_of("src/main.rs"), "rs");
    assert_eq!(extension_of("Cargo.toml"), "toml");
    assert_eq!(extension_of(".gitignore"), "");
    assert_eq!(extension_of("a/.hidden.txt"), "txt");
    assert_eq!(extension_of("archive.tar.gz"), "gz");
    assert_eq!(extension_of("Makefile"), "");
    assert_eq!(extension_of("odd."), "");
    assert_eq!(extension_of("a.b/c"), "");
    assert_eq!(extension_of("a/.."), "");
    assert_eq!(extension_of(""), "");
    assert_eq!(extension_of("/"), "");
    assert_eq!(extension_of("data/logs/error.log"), "log");
}

#[test]
fn extensions_agree_with_std() {
    for path in [
        "src/main.rs", ".gitignore", "a.tar.gz", "odd.", "..", "...", "a/..", "x/.y.z", "noext",
        "dir.d/file", "/", "", ".", "a..b", "..a",
    ] {
        let expected = std::path::Path::new(path).extension().and_then(|s| s.to_str()).unwrap_or("");
        assert_eq!(extension_of(path), expected, "extension of {:?}", path);
    }
}

#[test]
fn project_names() {
    assert_eq!(project_name("/home/me/work/tool"), "tool");
    assert_eq!(project_name("tool/"), "tool");
    assert_eq!(project_name("."), ".");
    assert_eq!(project_name(".."), "..");
    assert_eq!(project_name("/"), "/");
    assert_eq!(project_name("a/b/.."), "a/b/..");
}

#[test]
fn characters_of_a_text() {
    assert_eq!(chars_of("a/é"), vec!['a', '/', 'é']);
    assert_eq!(chars_of(""), Vec::<char>::new());
}

use mbbut::config::Config;

#[test]
fn test_config_default() {
    let config = Config::default();

    // Verify default blacklisted directories
    assert!(config.blacklist_dirs.contains("node_modules"));
    assert!(config.blacklist_dirs.contains("target"));
    assert!(config.blacklist_dirs.contains("dist"));
    assert!(config.blacklist_dirs.contains(".git"));
    assert_eq!(config.blacklist_dirs.len(), 4);

    // Verify default blacklisted extensions
    assert!(config.blacklist_extensions.contains("exe"));
    assert!(config.blacklist_extensions.contains("dll"));
    assert!(config.blacklist_extensions.contains("obj"));
    assert_eq!(config.blacklist_extensions.len(), 3);

    // Verify paths are None by default
    assert!(config.source_path.is_none());
    assert!(config.destination_path.is_none());
    assert!(config.hash_file_path.is_none());
}

#[test]
fn test_is_blacklisted_directory() {
    let config = Config::default();

    // Test with blacklisted directory
    let path = String::from("/some/path/node_modules/file.js");
    assert!(config.is_blacklisted(&path));

    // Test with non-blacklisted directory
    let path = String::from("/some/path/src/file.js");
    assert!(!config.is_blacklisted(&path));

    // Test with blacklisted directory as part of the path
    let path = String::from("/some/node_modules/path/file.js");
    assert!(config.is_blacklisted(&path));
}

#[test]
fn test_is_blacklisted_extension() {
    let config = Config::default();

    // Test with blacklisted extension
    let path = String::from("/some/path/program.exe");
    assert!(config.is_blacklisted(&path));

    // Test with non-blacklisted extension
    let path = String::from("/some/path/program.rs");
    assert!(!config.is_blacklisted(&path));
}

#[test]
fn test_is_blacklisted_mixed() {
    let mut config = Config::default();
    config.blacklist_dirs.insert("custom_dir".to_string());
    config.blacklist_extensions.insert("log".to_string());

    // Test with both blacklisted directory and extension
    let path = String::from("/some/path/custom_dir/file.log");
    assert!(config.is_blacklisted(&path));

    // Test with non-blacklisted path
    let path = String::from("/some/path/allowed_dir/file.txt");
    assert!(!config.is_blacklisted(&path));
}

/// The filter as the standard library's path operations decide it.
fn std_is_blacklisted(dirs: &[&str], extensions: &[&str], path: &str) -> bool {
    let path = std::path::Path::new(path);
    if let Some(name) = path.file_name().and_then(|n| n.to_str()) {
        if dirs.contains(&name) {
            return true;
        }
    }
    if let Some(ext) = path.extension().and_then(|e| e.to_str()) {
        if extensions.contains(&ext) {
            return true;
        }
    }
    for ancestor in path.ancestors().skip(1) {
        if let Some(name) = ancestor.file_name().and_then(|n| n.to_str()) {
            if dirs.contains(&name) {
                return true;
            }
        }
    }
    false
}

#[test]
fn filter_agrees_with_the_standard_library() {
    let dirs = ["node_modules", "target", "dist", ".git", "..", "."];
    let extensions = ["exe", "dll", "obj", ""];
    let mut config = Config::default();
    config.blacklist_dirs.insert("..".to_string());
    config.blacklist_dirs.insert(".".to_string());
    config.blacklist_extensions.insert("".to_string());
    let paths = [
        "",
        "/",
        ".",
        "..",
        "a",
        "a.exe",
        "a.EXE",
        "a.exe/b.txt",
        "a.exe/",
        "a.exe/.",
        "a.exe/..",
        ".exe",
        "exe",
        "x.tar.exe",
        "name.",
        "name..",
        "...",
        "target",
        "/target",
        "/x/target/",
        "/x/target/y",
        "/x/targets/y",
        "/x/.git",
        "/x/.git/config",
        "/x/.gitignore",
        "./dist",
        "./x/../dist/y",
        "../x",
        "/some/path/node_modules/file.js",
        "/some/path/src/file.js",
        "/some/node_modules/path/file.js",
        "node_modules//x",
        "x//node_modules",
        "/a/./node_modules/./b",
        "/a/b/c.obj",
        "/a/b/c.objx",
        "/a/b.dll/c",
        "/\u{e9}/target/\u{65e5}.txt",
        "/\u{e9}/\u{65e5}.dll",
    ];
    for path in paths {
        assert_eq!(
            config.is_blacklisted(path),
            std_is_blacklisted(&dirs, &extensions, path),
            "filter on {:?}",
            path
        );
    }
}

#[test]
fn filter_looks_at_names_and_the_last_extension_only() {
    let config = Config::default();
    assert!(config.is_blacklisted("/a/target"));
    assert!(config.is_blacklisted("/a/.git"));
    assert!(config.is_blacklisted("dist/x"));
    assert!(config.is_blacklisted("/a/x.tar.exe"));
    assert!(!config.is_blacklisted("/a/x.exe.txt"));
    assert!(!config.is_blacklisted("/a/x.EXE"));
    assert!(!config.is_blacklisted("/a/.exe"));
    assert!(!config.is_blacklisted("/a/exe"));
    assert!(!config.is_blacklisted("/a/b.exe/c.txt"));
    assert!(!config.is_blacklisted("/a/targets/c.txt"));
    assert!(!config.is_blacklisted(""));
    assert!(!config.is_blacklisted("/"));
}

#[test]
fn name_set_holds_each_name_once() {
    let mut config = Config::default();
    assert!(!config.blacklist_dirs.is_empty());
    assert!(config.blacklist_dirs.insert("custom".to_string()));
    assert!(!config.blacklist_dirs.insert("custom".to_string()));
    assert!(!config.blacklist_dirs.insert("target".to_string()));
    assert_eq!(config.blacklist_dirs.len(), 5);
    assert!(!config.blacklist_dirs.contains("Custom"));
    assert_eq!(
        config.blacklist_dirs.to_vec(),
        vec!["node_modules", "target", "dist", ".git", "custom"]
    );
    assert_eq!(config.blacklist_extensions.to_vec(), vec!["exe", "dll", "obj"]);
}

#[test]
fn empty_name_set() {
    let set = mbbut::config::NameSet::new();
    assert!(set.is_empty());
    assert_eq!(set.len(), 0);
    assert!(!set.contains(""));
    assert_eq!(set.to_vec(), Vec::<String>::new());
}

#[test]
fn blacklist_item_with_a_leading_dot_names_an_extension() {
    let mut config = Config::default();
    config.add_blacklist_item(".log");
    config.add_blacklist_item("..tmp");
    config.add_blacklist_item("build");
    config.add_blacklist_item("cache.d");
    assert!(config.blacklist_extensions.contains("log"));
    assert!(config.blacklist_extensions.contains("tmp"));
    assert!(!config.blacklist_extensions.contains(".log"));
    assert!(config.blacklist_dirs.contains("build"));
    assert!(config.blacklist_dirs.contains("cache.d"));
    assert!(!config.blacklist_dirs.contains("log"));
    assert_eq!(config.blacklist_extensions.len(), 5);
    assert_eq!(config.blacklist_dirs.len(), 6);
    assert!(config.is_blacklisted("/x/app.log"));
    assert!(config.is_blacklisted("/x/build/app"));

    config.add_blacklist_item(".");
    assert!(config.blacklist_extensions.contains(""));
    assert!(config.source_path.is_none());
}

use wlines_run::catalog::{build_catalog, relative_title, Program, RawEntry, SourceType};

fn raw(abs: &str, title: &str, source: SourceType, nested: bool, rec: bool) -> RawEntry {
    RawEntry {
        abs_path: String::from(abs),
        title: String::from(title),
        source,
        nested,
        root_recursive: rec,
    }
}

fn paths(c: &[Program]) -> Vec<String> {
    c.iter().map(|p| p.abs_path.clone()).collect()
}

#[test]
fn dedup_case_folded_paths() {
    let entries = vec![
        raw("C:/Tools/App.EXE", "App.EXE", SourceType::Path, false, false),
        raw("c:/tools/app.exe", "app.exe", SourceType::Path, false, false),
    ];
    let cat = build_catalog(&entries);
    assert_eq!(cat.len(), 1);
    // Last writer wins.
    assert_eq!(cat[0].abs_path, "c:/tools/app.exe");
    assert_eq!(cat[0].title, "app.exe");
}

#[test]
fn dedup_keeps_distinct_paths() {
    let entries = vec![
        raw("C:/a/one.exe", "one.exe", SourceType::Path, false, false),
        raw("C:/a/two.exe", "two.exe", SourceType::Path, false, false),
    ];
    let cat = build_catalog(&entries);
    assert_eq!(cat.len(), 2);
}

#[test]
fn extension_filter_rejects_txt() {
    let entries = vec![
        raw("C:/r/tool.txt", "tool.txt", SourceType::StartMenu, false, true),
        raw("C:/r/tool.exe", "tool.exe", SourceType::StartMenu, false, true),
    ];
    let cat = build_catalog(&entries);
    assert_eq!(paths(&cat), vec![String::from("C:/r/tool.exe")]);
}

#[test]
fn extension_filter_is_case_insensitive() {
    let entries = vec![raw("C:/r/Tool.ExE", "Tool.ExE", SourceType::Path, false, false)];
    assert_eq!(build_catalog(&entries).len(), 1);
}

#[test]
fn extension_filter_allow_list() {
    let mut entries = Vec::new();
    for ext in ["exe", "lnk", "bat", "cmd", "com"] {
        entries.push(raw(
            &format!("C:/r/t_{}.{}", ext, ext),
            "t",
            SourceType::Path,
            false,
            false,
        ));
    }
    assert_eq!(build_catalog(&entries).len(), 5);
    let bad = vec![
        raw("C:/r/t.exe.txt", "t", SourceType::Path, false, false),
        raw("C:/r/.exe", "t", SourceType::Path, false, false),
        raw("C:/r/noext", "t", SourceType::Path, false, false),
        raw("C:/r/t.", "t", SourceType::Path, false, false),
    ];
    assert_eq!(build_catalog(&bad).len(), 0);
}

#[test]
fn recursion_policy() {
    // A nested executable under a recursively scanned root is discovered.
    let menu = vec![raw(
        "C:/menu/sub/deep.lnk",
        "sub/deep.lnk",
        SourceType::StartMenu,
        true,
        true,
    )];
    assert_eq!(build_catalog(&menu).len(), 1);
    // A nested executable under a non-recursive root is not.
    let path_nested = vec![raw(
        "C:/bin/sub/deep.exe",
        "sub/deep.exe",
        SourceType::Path,
        true,
        false,
    )];
    assert_eq!(build_catalog(&path_nested).len(), 0);
    // A direct child of a non-recursive root is.
    let path_direct = vec![raw("C:/bin/flat.exe", "flat.exe", SourceType::Path, false, false)];
    assert_eq!(build_catalog(&path_direct).len(), 1);
}

#[test]
fn relative_titles() {
    assert_eq!(
        relative_title("C:/root/sub/app.exe", "C:/root"),
        Some(String::from("sub/app.exe"))
    );
    assert_eq!(relative_title("C:/root/app.exe", "C:/root/"), Some(String::from("app.exe")));
    assert_eq!(
        relative_title("C:\\menu\\Tools\\a.lnk", "C:\\menu"),
        Some(String::from("Tools\\a.lnk"))
    );
    assert_eq!(relative_title("D:/other/app.exe", "C:/root"), None);
}

#[test]
fn source_markers() {
    assert_eq!(SourceType::StartMenu.display_name(), "S");
    assert_eq!(SourceType::Path.display_name(), "P");
}

use ddk_core::{classify_project_path, file_extension, file_name, file_stem, parent_dir, ProjectKind};

#[test]
fn stems_names_and_parents_follow_the_last_separator() {
    assert_eq!(file_name("C:\\work\\App.dproj"), "App.dproj");
    assert_eq!(file_stem("C:\\work\\App.dproj"), "App");
    assert_eq!(parent_dir("C:\\work\\App.dproj"), "C:\\work");
    assert_eq!(file_stem("/home/x/tool.v2.dpr"), "tool.v2");
    assert_eq!(parent_dir("/home/x/tool.v2.dpr"), "/home/x");
    assert_eq!(file_stem("bare.dpk"), "bare");
    assert_eq!(parent_dir("bare.dpk"), "");
}

#[test]
fn extensions_skip_dot_files_and_missing_dots() {
    assert_eq!(file_extension("a/b/App.dproj").as_deref(), Some("dproj"));
    assert_eq!(file_extension("a/b/tool.v2.dpr").as_deref(), Some("dpr"));
    assert_eq!(file_extension("a/b/README"), None);
    assert_eq!(file_extension("a/b/.hidden"), None);
    assert_eq!(file_stem("a/b/.hidden"), ".hidden");
}

#[test]
fn classification_ignores_letter_case() {
    assert_eq!(classify_project_path("x/App.dproj"), ProjectKind::Description);
    assert_eq!(classify_project_path("x/App.DPROJ"), ProjectKind::Description);
    assert_eq!(classify_project_path("x/App.Dpr"), ProjectKind::Program);
    assert_eq!(classify_project_path("x/App.dpk"), ProjectKind::Package);
    assert_eq!(classify_project_path("x/App.txt"), ProjectKind::Unknown);
    assert_eq!(classify_project_path("x/App"), ProjectKind::Unknown);
}

use fossilsense::project_context::{
    is_supported_marker_file_name, projects_from_files, FoundFile, ProjectContext,
    ProjectContextIndex, ProjectKey,
};

#[test]
fn marker_policy_covers_main_build_files_and_rejects_fragments() {
    for marker in [
        "Makefile",
        "MAKEFILE",
        "GNUmakefile",
        "CMakeLists.txt",
        "app.pro",
        "build.ninja",
        "App.SLN",
        "driver.vcxproj",
        "legacy.vcproj",
        "meson.build",
        "BUILD",
        "BUILD.bazel",
        "WORKSPACE",
        "WORKSPACE.bazel",
    ] {
        assert!(is_supported_marker_file_name(marker), "{marker}");
    }
    for fragment in [
        "rules.mk",
        "shared.pri",
        "rules.ninja",
        "compile_commands.json",
        "CMakeCache.txt",
    ] {
        assert!(!is_supported_marker_file_name(fragment), "{fragment}");
    }
}

#[test]
fn nearest_project_handles_root_nested_case_and_path_boundaries() {
    let root_id = "root".to_string();
    let context = |path: &str| ProjectContext {
        key: ProjectKey {
            workspace_root_id: root_id.clone(),
            project_path: path.to_string(),
        },
        workspace_name: "ws".to_string(),
        marker_files: vec!["Makefile".to_string()],
    };
    let index = ProjectContextIndex::new(
        root_id.clone(),
        "ws".to_string(),
        vec![
            context(""),
            context("Third_Party"),
            context("third_party/lib"),
        ],
    );

    assert_eq!(
        index
            .nearest_for_file("THIRD_PARTY/lib/src/x.c")
            .expect("nested")
            .project_path,
        "third_party/lib"
    );
    assert_eq!(
        index
            .nearest_for_file("third_party2/x.c")
            .expect("root")
            .project_path,
        ""
    );
}

#[test]
fn no_marker_returns_none_and_distinct_roots_have_distinct_keys() {
    let empty = ProjectContextIndex::new("a".into(), "a".into(), Vec::new());
    assert!(empty.nearest_for_file("src/main.c").is_none());
    let left = ProjectKey {
        workspace_root_id: "left".into(),
        project_path: "src/app".into(),
    };
    let right = ProjectKey {
        workspace_root_id: "right".into(),
        project_path: "src/app".into(),
    };
    assert_ne!(left, right);
}

#[test]
fn validated_key_uses_discovered_path_casing() {
    let canonical = ProjectKey {
        workspace_root_id: "root".into(),
        project_path: "Src/Server".into(),
    };
    let index = ProjectContextIndex::new(
        "root".into(),
        "workspace".into(),
        vec![ProjectContext {
            key: canonical.clone(),
            workspace_name: "workspace".into(),
            marker_files: vec!["Makefile".into()],
        }],
    );
    let stored = ProjectKey {
        workspace_root_id: "root".into(),
        project_path: "src/server".into(),
    };

    assert_eq!(index.canonical_key(&stored), Some(canonical));
}


fn found(directory: &str, file_name: &str) -> FoundFile {
    FoundFile { directory: directory.to_string(), file_name: file_name.to_string() }
}

#[test]
fn markers_of_one_directory_make_one_project() {
    let index = projects_from_files(
        "root".to_string(),
        "ws".to_string(),
        &vec![
            found("app", "Makefile"),
            found("app", "main.c"),
            found("APP", "CMakeLists.txt"),
            found("app", "MAKEFILE"),
            found("", "meson.build"),
        ],
    );
    let projects = index.projects();
    assert_eq!(projects.len(), 2);
    assert_eq!(projects[0].key.project_path, "");
    assert_eq!(projects[1].key.project_path, "app");
    assert_eq!(projects[1].marker_files, vec!["CMakeLists.txt", "Makefile"]);
    assert_eq!(projects[1].workspace_name, "ws");
    assert_eq!(index.nearest_for_file("App/src/x.c").expect("app").project_path, "app");
    assert_eq!(index.nearest_for_file("lib/x.c").expect("root").project_path, "");
}

#[test]
fn files_that_are_no_markers_make_no_project() {
    let index = projects_from_files(
        "root".to_string(),
        "ws".to_string(),
        &vec![found("src", "main.c"), found("src", "rules.mk")],
    );
    assert!(index.projects().is_empty());
    assert!(index.nearest_for_file("src/main.c").is_none());
}

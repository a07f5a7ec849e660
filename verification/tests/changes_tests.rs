use ddk_core::{
    apply_change, Change, ChangeSet, CompilerRegistry, ProjectsData, ProjectUpdateData,
    StoreError,
};

#[test]
fn a_batch_applies_in_order() {
    let mut store = ProjectsData::default();
    let mut registry = CompilerRegistry::new();
    let set = ChangeSet {
        changes: vec![
            Change::AddCompiler { key: "23.0".to_string() },
            Change::AddWorkspace { name: "Main".to_string(), compiler: "23.0".to_string() },
        ],
        event_id: "evt-1".to_string(),
    };
    set.execute(&mut store, &mut registry).unwrap();
    assert_eq!(store.workspaces.len(), 1);
    assert_eq!(store.workspaces[0].name, "Main");
}

#[test]
fn a_batch_stops_at_the_first_failure() {
    let mut store = ProjectsData::default();
    let mut registry = CompilerRegistry::new();
    let set = ChangeSet {
        changes: vec![
            Change::AddCompiler { key: "23.0".to_string() },
            Change::AddWorkspace { name: "Main".to_string(), compiler: "nope".to_string() },
            Change::AddCompiler { key: "12.0".to_string() },
        ],
        event_id: "evt-2".to_string(),
    };
    let result = set.execute(&mut store, &mut registry);
    assert_eq!(result, Err(StoreError::NotFound));
    // The first command took effect, the failing one and the rest did not.
    assert!(store.workspaces.is_empty());
    assert_eq!(registry.keys.len(), 1);
    assert_eq!(registry.keys[0], "23.0");
}

#[test]
fn commands_drive_the_whole_store_surface() {
    let mut store = ProjectsData::default();
    let mut registry = CompilerRegistry::new();
    apply_change(&mut store, &mut registry, &Change::AddCompiler { key: "23.0".to_string() })
        .unwrap();
    apply_change(
        &mut store,
        &mut registry,
        &Change::AddWorkspace { name: "Main".to_string(), compiler: "23.0".to_string() },
    )
    .unwrap();
    let wid = store.workspaces[0].id;
    apply_change(
        &mut store,
        &mut registry,
        &Change::NewProject { file_path: "C:/a/App.dpr".to_string(), workspace_id: wid },
    )
    .unwrap();
    let pid = store.projects[0].id;
    apply_change(&mut store, &mut registry, &Change::SelectProject { project_id: pid }).unwrap();
    assert_eq!(store.active_project_id, Some(pid));
    let data = ProjectUpdateData {
        name: Some("Renamed".to_string()),
        directory: None,
        dproj: None,
        dpr: None,
        dpk: None,
        exe: Some("C:/a/App.exe".to_string()),
        ini: None,
    };
    apply_change(
        &mut store,
        &mut registry,
        &Change::UpdateProject { project_id: pid, data },
    )
    .unwrap();
    assert_eq!(store.projects[0].name, "Renamed");
    assert_eq!(store.projects[0].exe.as_deref(), Some("C:/a/App.exe"));
    assert_eq!(store.projects[0].dpr.as_deref(), Some("C:/a/App.dpr"));
    let link_id = store.workspaces[0].project_links[0].id;
    apply_change(
        &mut store,
        &mut registry,
        &Change::RemoveProject { project_link_id: link_id },
    )
    .unwrap();
    assert!(store.projects.is_empty());
    apply_change(&mut store, &mut registry, &Change::RemoveWorkspace { workspace_id: wid })
        .unwrap();
    assert!(store.workspaces.is_empty());
    apply_change(&mut store, &mut registry, &Change::RemoveCompiler { key: "23.0".to_string() })
        .unwrap();
    assert!(registry.keys.is_empty());
}

#[test]
fn update_compiler_validates_the_key() {
    let mut store = ProjectsData::default();
    let mut registry = CompilerRegistry::new();
    registry.add_key("23.0".to_string()).unwrap();
    apply_change(&mut store, &mut registry, &Change::UpdateCompiler { key: "23.0".to_string() })
        .unwrap();
    let missing = apply_change(
        &mut store,
        &mut registry,
        &Change::UpdateCompiler { key: "12.0".to_string() },
    );
    assert_eq!(missing, Err(StoreError::NotFound));
    assert_eq!(registry.keys.len(), 1);
}

#[test]
fn group_compiler_command_needs_a_group() {
    let mut store = ProjectsData::default();
    let mut registry = CompilerRegistry::new();
    registry.add_key("23.0".to_string()).unwrap();
    let result = apply_change(
        &mut store,
        &mut registry,
        &Change::SetGroupProjectCompiler { compiler: "23.0".to_string() },
    );
    assert_eq!(result, Err(StoreError::NotFound));
}

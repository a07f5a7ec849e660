use ddk_core::{
    compiler_exists, CompilerRegistry, GroupMember, LexoRank, ProjectsData, StoreError,
    WorkspaceUpdateData,
};

fn registry() -> CompilerRegistry {
    let mut r = CompilerRegistry::new();
    r.add_key("23.0".to_string()).unwrap();
    r
}

fn store_with_workspace() -> (ProjectsData, CompilerRegistry, usize) {
    let mut s = ProjectsData::default();
    let r = registry();
    s.new_workspace(&"Main".to_string(), &"23.0".to_string(), &r).unwrap();
    let wid = s.workspaces[0].id;
    (s, r, wid)
}

#[test]
fn fresh_workspaces_append_after_the_last() {
    let mut s = ProjectsData::default();
    let r = registry();
    s.new_workspace(&"Main".to_string(), &"23.0".to_string(), &r).unwrap();
    assert_eq!(s.workspaces[0].sort_rank.to_text(), "1|h");
    s.new_workspace(&"Secondary".to_string(), &"23.0".to_string(), &r).unwrap();
    assert_eq!(s.workspaces[1].sort_rank.to_text(), "1|i");
    s.sort();
    let names: Vec<&str> = s.workspaces.iter().map(|w| w.name.as_str()).collect();
    assert_eq!(names, ["Main", "Secondary"]);
}

#[test]
fn new_workspace_requires_a_known_compiler() {
    let mut s = ProjectsData::default();
    let r = registry();
    let err = s.new_workspace(&"Main".to_string(), &"99.9".to_string(), &r);
    assert_eq!(err, Err(StoreError::NotFound));
    assert!(s.workspaces.is_empty());
}

#[test]
fn new_project_classifies_by_extension() {
    let (mut s, _r, wid) = store_with_workspace();
    s.new_project(&"C:\\work\\App.DPROJ".to_string(), wid).unwrap();
    let p = &s.projects[0];
    assert_eq!(p.name, "App");
    assert_eq!(p.directory, "C:\\work");
    assert_eq!(p.dproj.as_deref(), Some("C:\\work\\App.DPROJ"));
    assert!(p.dpr.is_none() && p.dpk.is_none());
    assert_eq!(s.workspaces[0].project_links.len(), 1);
    assert_eq!(s.workspaces[0].project_links[0].project_id, p.id);
    assert_eq!(s.workspaces[0].project_links[0].sort_rank.to_text(), "1|h");
}

#[test]
fn new_project_rejects_unknown_kinds_and_workspaces() {
    let (mut s, _r, wid) = store_with_workspace();
    assert_eq!(
        s.new_project(&"C:/work/readme.txt".to_string(), wid),
        Err(StoreError::Unsupported)
    );
    assert_eq!(
        s.new_project(&"C:/work/App.dproj".to_string(), wid + 100),
        Err(StoreError::NotFound)
    );
    assert!(s.projects.is_empty());
}

#[test]
fn removing_the_last_link_prunes_the_project() {
    let (mut s, _r, wid) = store_with_workspace();
    s.new_project(&"C:/work/App.dpr".to_string(), wid).unwrap();
    let project_id = s.projects[0].id;
    let link_id = s.workspaces[0].project_links[0].id;
    s.select_project(project_id).unwrap();
    s.remove_project_link(link_id);
    assert!(s.projects.is_empty());
    assert!(s.workspaces[0].project_links.is_empty());
    assert!(s.active_project_id.is_none());
}

#[test]
fn removing_a_non_last_link_keeps_the_project() {
    let (mut s, _r, wid) = store_with_workspace();
    s.new_project(&"C:/work/App.dpk".to_string(), wid).unwrap();
    let project_id = s.projects[0].id;
    s.add_project_link(project_id, wid).unwrap();
    assert_eq!(s.workspaces[0].project_links.len(), 2);
    let first_link = s.workspaces[0].project_links[0].id;
    s.remove_project_link(first_link);
    assert_eq!(s.projects.len(), 1);
    assert_eq!(s.workspaces[0].project_links.len(), 1);
}

#[test]
fn moving_a_link_lands_between_its_neighbours() {
    let (mut s, _r, wid) = store_with_workspace();
    s.new_project(&"C:/a/First.dpr".to_string(), wid).unwrap();
    s.new_project(&"C:/a/Second.dpr".to_string(), wid).unwrap();
    s.new_project(&"C:/a/Third.dpr".to_string(), wid).unwrap();
    // Ranks arrive as h, h, h; give the three links distinct rising ranks.
    let a = LexoRank::from_string("1|b").unwrap();
    let b = LexoRank::from_string("1|m").unwrap();
    let c = LexoRank::from_string("1|x").unwrap();
    let link_ids: Vec<usize> = s.workspaces[0].project_links.iter().map(|l| l.id).collect();
    s.move_project_link(link_ids[0], &a.prev(), &a).unwrap();
    s.move_project_link(link_ids[1], &b.prev(), &b).unwrap();
    s.move_project_link(link_ids[2], &c.prev(), &c).unwrap();
    // Move the last link between the first two, then read back sorted.
    let left = s.workspaces[0].project_links[0].sort_rank.clone();
    let right = s.workspaces[0].project_links[1].sort_rank.clone();
    s.move_project_link(link_ids[2], &left, &right).unwrap();
    s.sort();
    let order: Vec<usize> = s.workspaces[0].project_links.iter().map(|l| l.id).collect();
    assert_eq!(order, vec![link_ids[0], link_ids[2], link_ids[1]]);
}

#[test]
fn moving_an_unknown_link_is_a_distinct_failure() {
    let (mut s, _r, _wid) = store_with_workspace();
    let lo = LexoRank::from_string("1|b").unwrap();
    let hi = LexoRank::from_string("1|c").unwrap();
    assert_eq!(s.move_project_link(9999, &lo, &hi), Err(StoreError::NotFound));
    assert_eq!(s.move_workspace(9999, &lo, &hi), Err(StoreError::NotFound));
}

#[test]
fn moving_between_misordered_neighbours_is_invalid_rank() {
    let (mut s, _r, wid) = store_with_workspace();
    s.new_project(&"C:/a/App.dpr".to_string(), wid).unwrap();
    let link_id = s.workspaces[0].project_links[0].id;
    let lo = LexoRank::from_string("1|b").unwrap();
    let hi = LexoRank::from_string("1|c").unwrap();
    assert_eq!(s.move_project_link(link_id, &hi, &lo), Err(StoreError::InvalidRank));
    assert_eq!(s.move_workspace(wid, &lo, &lo), Err(StoreError::InvalidRank));
}

#[test]
fn removing_a_workspace_cascades_orphan_cleanup() {
    let (mut s, r, wid) = store_with_workspace();
    s.new_workspace(&"Other".to_string(), &"23.0".to_string(), &r).unwrap();
    let other = s.workspaces[1].id;
    s.new_project(&"C:/a/Solo.dpr".to_string(), wid).unwrap();
    s.new_project(&"C:/a/Shared.dpr".to_string(), wid).unwrap();
    let shared = s.projects[1].id;
    s.add_project_link(shared, other).unwrap();
    s.remove_workspace(wid);
    assert_eq!(s.workspaces.len(), 1);
    assert_eq!(s.projects.len(), 1);
    assert_eq!(s.projects[0].id, shared);
}

#[test]
fn update_workspace_applies_partial_fields() {
    let (mut s, mut r, wid) = store_with_workspace();
    r.add_key("12.0".to_string()).unwrap();
    let data = WorkspaceUpdateData { name: Some("Renamed".to_string()), compiler: None };
    s.update_workspace(wid, &data, &r).unwrap();
    assert_eq!(s.workspaces[0].name, "Renamed");
    assert_eq!(s.workspaces[0].compiler_id, "23.0");
    let data = WorkspaceUpdateData { name: None, compiler: Some("12.0".to_string()) };
    s.update_workspace(wid, &data, &r).unwrap();
    assert_eq!(s.workspaces[0].compiler_id, "12.0");
    let bad = WorkspaceUpdateData { name: Some("X".to_string()), compiler: Some("no".to_string()) };
    assert_eq!(s.update_workspace(wid, &bad, &r), Err(StoreError::NotFound));
    assert_eq!(s.workspaces[0].name, "Renamed");
}

#[test]
fn group_reconciliation_reuses_matching_projects() {
    let (mut s, r, wid) = store_with_workspace();
    s.new_project(&"C:/g/Alpha.dproj".to_string(), wid).unwrap();
    let existing = s.projects[0].id;
    let members = vec![
        GroupMember {
            dproj: "C:/g/Alpha.dproj".to_string(),
            dpr: None,
            dpk: None,
            exe: None,
            ini: None,
        },
        GroupMember {
            dproj: "C:/g/Beta.dproj".to_string(),
            dpr: Some("C:/g/Beta.dpr".to_string()),
            dpk: None,
            exe: None,
            ini: None,
        },
    ];
    s.set_group_project(&"C:/g/All.groupproj".to_string(), &"23.0".to_string(), &members, &r)
        .unwrap();
    let group = s.group_project.as_ref().unwrap();
    assert_eq!(group.name, "All");
    assert_eq!(group.project_links.len(), 2);
    assert_eq!(group.project_links[0].project_id, existing);
    assert_eq!(s.projects.len(), 2);
    let count_after_first = s.projects.len();
    // The same member list again: no duplicate projects appear.
    s.set_group_project(&"C:/g/All.groupproj".to_string(), &"23.0".to_string(), &members, &r)
        .unwrap();
    assert_eq!(s.projects.len(), count_after_first);
}

#[test]
fn reconciliation_links_the_first_project_sharing_a_path() {
    let (mut s, r, wid) = store_with_workspace();
    s.new_workspace(&"Other".to_string(), &"23.0".to_string(), &r).unwrap();
    let other = s.workspaces[1].id;
    // Two projects carry the same description path; the earlier one wins.
    s.new_project(&"C:/g/Twin.dproj".to_string(), wid).unwrap();
    s.new_project(&"C:/g/Twin.dproj".to_string(), other).unwrap();
    let first_id = s.projects[0].id;
    assert_eq!(
        s.find_project_by_dproj(&"C:/g/Twin.dproj".to_string()).unwrap().id,
        first_id
    );
    let members = vec![GroupMember {
        dproj: "C:/g/Twin.dproj".to_string(),
        dpr: None,
        dpk: None,
        exe: None,
        ini: None,
    }];
    s.set_group_project(&"C:/g/All.groupproj".to_string(), &"23.0".to_string(), &members, &r)
        .unwrap();
    assert_eq!(s.group_project.as_ref().unwrap().project_links[0].project_id, first_id);
    assert_eq!(s.projects.len(), 2);
}

#[test]
fn group_links_rise_in_member_order() {
    let (mut s, r, _wid) = store_with_workspace();
    let members: Vec<GroupMember> = ["C:/g/A.dproj", "C:/g/B.dproj", "C:/g/C.dproj"]
        .iter()
        .map(|p| GroupMember {
            dproj: p.to_string(),
            dpr: None,
            dpk: None,
            exe: None,
            ini: None,
        })
        .collect();
    s.set_group_project(&"C:/g/All.groupproj".to_string(), &"23.0".to_string(), &members, &r)
        .unwrap();
    let links = &s.group_project.as_ref().unwrap().project_links;
    assert_eq!(links.len(), 3);
    assert!(links[0].sort_rank.lt(&links[1].sort_rank));
    assert!(links[1].sort_rank.lt(&links[2].sort_rank));
}

#[test]
fn removing_the_group_prunes_projects_it_alone_reached() {
    let (mut s, r, wid) = store_with_workspace();
    s.new_project(&"C:/g/Kept.dproj".to_string(), wid).unwrap();
    let members = vec![GroupMember {
        dproj: "C:/g/OnlyGroup.dproj".to_string(),
        dpr: None,
        dpk: None,
        exe: None,
        ini: None,
    }];
    s.set_group_project(&"C:/g/All.groupproj".to_string(), &"23.0".to_string(), &members, &r)
        .unwrap();
    assert_eq!(s.projects.len(), 2);
    s.remove_group_project();
    assert!(s.group_project.is_none());
    assert_eq!(s.projects.len(), 1);
    assert_eq!(s.projects[0].dproj.as_deref(), Some("C:/g/Kept.dproj"));
}

#[test]
fn registry_rejects_duplicates_and_unknown_removals() {
    let mut r = CompilerRegistry::new();
    r.add_key("23.0".to_string()).unwrap();
    assert_eq!(r.add_key("23.0".to_string()), Err(StoreError::AlreadyExists));
    assert_eq!(r.remove_key(&"12.0".to_string()), Err(StoreError::NotFound));
    assert!(compiler_exists(&r, &"23.0".to_string()));
    r.remove_key(&"23.0".to_string()).unwrap();
    assert!(!compiler_exists(&r, &"23.0".to_string()));
}

#[test]
fn lookups_find_entities_by_id() {
    let (mut s, _r, wid) = store_with_workspace();
    s.new_project(&"C:/a/App.dpr".to_string(), wid).unwrap();
    let pid = s.projects[0].id;
    assert_eq!(s.get_project(pid).unwrap().id, pid);
    assert!(s.get_project(pid + 50).is_none());
    assert_eq!(s.get_workspace(wid).unwrap().id, wid);
    assert!(s.get_workspace(wid + 50).is_none());
    assert!(s.find_project_by_dproj(&"C:/a/App.dpr".to_string()).is_none());
    s.select_project(pid).unwrap();
    assert_eq!(s.active_project().unwrap().id, pid);
    let link = s.workspaces[0].project_links[0].clone();
    assert_eq!(link.get_project(&s).unwrap().id, pid);
    assert_eq!(link.get_workspace(&s).unwrap().id, wid);
    let listed = s.projects_of_workspace(&s.workspaces[0].clone());
    assert_eq!(listed.len(), 1);
    assert_eq!(listed[0].id, pid);
}

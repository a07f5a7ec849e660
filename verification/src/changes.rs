//! The closed command set driving the store, and its executor.
//!
//! A `ChangeSet` is an ordered batch of `Change` commands. The executor
//! applies them one at a time to an in-memory store and registry and stops
//! at the first failure, so the surrounding application can load once, apply
//! the whole batch, and persist only when every command succeeded — a
//! mid-batch failure then leaves the persisted store untouched.

use vstd::prelude::*;

use crate::compilers::CompilerRegistry;
use crate::errors::StoreError;
use crate::lexorank::LexoRank;
use crate::project::{project_kind_of, ProjectKind};
use crate::project_data::{
    add_link_shape, add_workspace_shape, has_link_anywhere, has_project, has_workspace,
    link_targets, linked_in_some_workspace, linked_in_some_workspace_pred, move_link_shape,
    move_workspace_shape, new_project_shape, remove_project_link_shape, remove_workspace_shape,
    set_group_shape, update_project_fields_shape, update_workspace_fields_shape, GroupMember,
    ProjectsData,
};
use crate::rank::symbols_lt;

verus! {

/// The fields of a workspace a command may update; absent fields are left
/// as they are.
#[derive(Clone, Debug, PartialEq, Eq)]
pub struct WorkspaceUpdateData {
    /// A new display name, when present.
    pub name: Option<String>,
    /// A new compiler key, when present; validated against the registry.
    pub compiler: Option<String>,
}

/// The fields of a project a command may update; absent fields are left as
/// they are.
#[derive(Clone, Debug, PartialEq, Eq)]
pub struct ProjectUpdateData {
    /// A new display name, when present.
    pub name: Option<String>,
    /// A new directory, when present.
    pub directory: Option<String>,
    /// A new project-description path, when present.
    pub dproj: Option<String>,
    /// A new program main source path, when present.
    pub dpr: Option<String>,
    /// A new package main source path, when present.
    pub dpk: Option<String>,
    /// A new executable path, when present.
    pub exe: Option<String>,
    /// A new settings file path, when present.
    pub ini: Option<String>,
}

/// One mutation command: a closed, tagged variant over the store's whole
/// mutation surface plus the key-level registry mutations.
#[derive(Clone, Debug, PartialEq, Eq)]
pub enum Change {
    /// Create a project from a file path inside a workspace.
    NewProject { file_path: String, workspace_id: usize },
    /// Link an existing project into a workspace.
    AddProject { project_id: usize, workspace_id: usize },
    /// Remove a link, pruning its project when it was the last.
    RemoveProject { project_link_id: usize },
    /// Move a link between the two given neighbour ranks.
    MoveProject { project_link_id: usize, previous: LexoRank, next_rank: LexoRank },
    /// Select a project.
    SelectProject { project_id: usize },
    /// Update fields of a project.
    UpdateProject { project_id: usize, data: ProjectUpdateData },
    /// Append a workspace.
    AddWorkspace { name: String, compiler: String },
    /// Remove a workspace, pruning projects only it reached.
    RemoveWorkspace { workspace_id: usize },
    /// Move a workspace between the two given neighbour ranks.
    MoveWorkspace { workspace_id: usize, previous: LexoRank, next_rank: LexoRank },
    /// Update fields of a workspace.
    UpdateWorkspace { workspace_id: usize, data: WorkspaceUpdateData },
    /// Register a compiler key.
    AddCompiler { key: String },
    /// Unregister a compiler key.
    RemoveCompiler { key: String },
    /// Touch the profile behind a compiler key; the key must exist. The
    /// profile's fields live outside the core, so the command only
    /// validates the reference — the surrounding application merges the
    /// fields on success.
    UpdateCompiler { key: String },
    /// Replace the group project, reconciling its member list.
    SetGroupProject { groupproj_path: String, compiler: String, members: Vec<GroupMember> },
    /// Clear the group project, pruning projects only it reached.
    RemoveGroupProject,
    /// Point the group project at another compiler key.
    SetGroupProjectCompiler { compiler: String },
}

/// How many fresh ids a command can draw from the counter, at most.
pub open spec fn change_counter_need(change: Change) -> int {
    match change {
        Change::NewProject { .. } => 2,
        Change::AddProject { .. } => 1,
        Change::AddWorkspace { .. } => 1,
        Change::SetGroupProject { members, .. } => 2 * members@.len() as int,
        _ => 0,
    }
}

/// How many fresh ids a whole batch can draw from the counter, at most.
pub open spec fn batch_counter_need(changes: Seq<Change>) -> int
    decreases changes.len(),
{
    if changes.len() == 0 {
        0
    } else {
        change_counter_need(changes[0]) + batch_counter_need(changes.skip(1))
    }
}

/// The ranks a command carries are well formed.
pub open spec fn change_ranks_ok(change: Change) -> bool {
    match change {
        Change::MoveProject { previous, next_rank, .. } => previous.wf() && next_rank.wf(),
        Change::MoveWorkspace { previous, next_rank, .. } => previous.wf() && next_rank.wf(),
        _ => true,
    }
}

/// What one command asks of the state it runs on: counter headroom for its
/// fresh ids, and well-formed ranks.
pub open spec fn change_counter_ok(s: ProjectsData, change: Change) -> bool {
    s.id_counter + change_counter_need(change) <= usize::MAX && change_ranks_ok(change)
}

/// What applying one command does: for every variant, exactly the ensures of
/// the store or registry operation it dispatches to.
pub open spec fn change_applied(
    s1: ProjectsData,
    r1: CompilerRegistry,
    s2: ProjectsData,
    r2: CompilerRegistry,
    change: Change,
    result: Result<(), StoreError>,
) -> bool {
    match change {
        Change::NewProject { file_path, workspace_id } => {
            &&& r2 == r1
            &&& (result == Err::<(), StoreError>(StoreError::NotFound) <==> !has_workspace(
                &s1,
                workspace_id,
            ))
            &&& (result == Err::<(), StoreError>(StoreError::Unsupported) <==> has_workspace(
                &s1,
                workspace_id,
            ) && project_kind_of(file_path@) == ProjectKind::Unknown)
            &&& (result is Ok <==> has_workspace(&s1, workspace_id) && project_kind_of(file_path@)
                != ProjectKind::Unknown)
            &&& (result is Err ==> s2 == s1)
            &&& (result is Ok ==> new_project_shape(s1, s2, file_path@, workspace_id))
        },
        Change::AddProject { project_id, workspace_id } => {
            &&& r2 == r1
            &&& (result == Err::<(), StoreError>(StoreError::NotFound) <==> !(has_project(
                &s1,
                project_id,
            ) && has_workspace(&s1, workspace_id)))
            &&& (result is Ok <==> has_project(&s1, project_id) && has_workspace(
                &s1,
                workspace_id,
            ))
            &&& (result is Err ==> s2 == s1)
            &&& (result is Ok ==> add_link_shape(s1, s2, project_id, workspace_id))
        },
        Change::RemoveProject { project_link_id } => {
            &&& r2 == r1
            &&& result is Ok
            &&& (!has_link_anywhere(&s1, project_link_id) ==> s2 == s1)
            &&& forall|pid: usize|
                #[trigger] link_targets(&s1, project_link_id, pid) ==> remove_project_link_shape(
                    s1,
                    s2,
                    project_link_id,
                    pid,
                )
        },
        Change::MoveProject { project_link_id, previous, next_rank } => {
            &&& r2 == r1
            &&& (result is Ok <==> has_link_anywhere(&s1, project_link_id) && symbols_lt(
                previous.spec_rank(),
                next_rank.spec_rank(),
            ))
            &&& (result is Err ==> s2 == s1)
            &&& (result is Ok ==> move_link_shape(s1, s2, project_link_id, previous, next_rank))
        },
        Change::SelectProject { project_id } => {
            &&& r2 == r1
            &&& (result is Ok <==> has_project(&s1, project_id))
            &&& (result is Err ==> s2 == s1)
            &&& (result is Ok ==> s2 == (ProjectsData {
                active_project_id: Some(project_id),
                ..s1
            }))
        },
        Change::UpdateProject { project_id, data } => {
            &&& r2 == r1
            &&& (result is Ok <==> has_project(&s1, project_id))
            &&& (result is Err ==> s2 == s1)
            &&& (result is Ok ==> update_project_fields_shape(s1, s2, project_id, data))
        },
        Change::AddWorkspace { name, compiler } => {
            &&& r2 == r1
            &&& (result is Ok <==> r1.spec_contains(compiler@))
            &&& (result is Err ==> s2 == s1)
            &&& (result is Ok ==> add_workspace_shape(s1, s2, name@, compiler@))
        },
        Change::RemoveWorkspace { workspace_id } => {
            &&& r2 == r1
            &&& result is Ok
            &&& (!has_workspace(&s1, workspace_id) ==> s2 == s1)
            &&& (has_workspace(&s1, workspace_id) ==> remove_workspace_shape(s1, s2, workspace_id))
        },
        Change::MoveWorkspace { workspace_id, previous, next_rank } => {
            &&& r2 == r1
            &&& (result is Ok <==> has_workspace(&s1, workspace_id) && symbols_lt(
                previous.spec_rank(),
                next_rank.spec_rank(),
            ))
            &&& (result is Err ==> s2 == s1)
            &&& (result is Ok ==> move_workspace_shape(s1, s2, workspace_id, previous, next_rank))
        },
        Change::UpdateWorkspace { workspace_id, data } => {
            &&& r2 == r1
            &&& (result is Ok <==> has_workspace(&s1, workspace_id) && (
            data.compiler matches Some(c) ==> r1.spec_contains(c@)))
            &&& (result is Err ==> s2 == s1)
            &&& (result is Ok ==> update_workspace_fields_shape(s1, s2, workspace_id, data))
        },
        Change::AddCompiler { key } => {
            &&& s2 == s1
            &&& (result == Err::<(), StoreError>(StoreError::AlreadyExists) <==> r1.spec_contains(
                key@,
            ))
            &&& (result is Ok <==> !r1.spec_contains(key@))
            &&& (result is Err ==> r2 == r1)
            &&& (result is Ok ==> r2.keys@ == r1.keys@.push(key))
        },
        Change::RemoveCompiler { key } => {
            &&& s2 == s1
            &&& (result == Err::<(), StoreError>(StoreError::NotFound) <==> !r1.spec_contains(
                key@,
            ))
            &&& (result is Ok <==> r1.spec_contains(key@))
            &&& (result is Err ==> r2 == r1)
            &&& (result is Ok ==> {
                &&& r2.keys@.len() == r1.keys@.len() - 1
                &&& !r2.spec_contains(key@)
                &&& forall|k: Seq<char>|
                    k != key@ ==> #[trigger] r2.spec_contains(k) == r1.spec_contains(k)
            })
        },
        Change::UpdateCompiler { key } => {
            &&& s2 == s1
            &&& r2 == r1
            &&& (result is Ok <==> r1.spec_contains(key@))
            &&& (result == Err::<(), StoreError>(StoreError::NotFound) <==> !r1.spec_contains(
                key@,
            ))
        },
        Change::SetGroupProject { groupproj_path, compiler, members } => {
            &&& r2 == r1
            &&& (result == Err::<(), StoreError>(StoreError::NotFound) <==> !r1.spec_contains(
                compiler@,
            ))
            &&& (result is Ok <==> r1.spec_contains(compiler@))
            &&& (result is Err ==> s2 == s1)
            &&& (result is Ok ==> set_group_shape(s1, s2, groupproj_path@, compiler@, members@))
        },
        Change::RemoveGroupProject => {
            &&& r2 == r1
            &&& result is Ok
            &&& s2.id_counter == s1.id_counter
            &&& s2.group_project is None
            &&& s2.workspaces == s1.workspaces
            &&& s2.projects@ == s1.projects@.filter(linked_in_some_workspace_pred(s1))
            &&& s2.active_project_id == if (s1.active_project_id matches Some(a)
                && !linked_in_some_workspace(&s1, a)) {
                None::<usize>
            } else {
                s1.active_project_id
            }
        },
        Change::SetGroupProjectCompiler { compiler } => {
            &&& r2 == r1
            &&& (result is Ok <==> r1.spec_contains(compiler@) && s1.group_project is Some)
            &&& (result is Err ==> s2 == s1)
            &&& (result is Ok ==> match (s1.group_project, s2.group_project) {
                (Some(g1), Some(g2)) => g2.name == g1.name && g2.path == g1.path
                    && g2.project_links == g1.project_links && g2.compiler_id@ == compiler@
                    && s2.workspaces == s1.workspaces && s2.projects == s1.projects
                    && s2.id_counter == s1.id_counter && s2.active_project_id
                    == s1.active_project_id,
                _ => false,
            })
        },
    }
}

/// A run of intermediate store and registry snapshots: one more snapshot
/// than commands, each consecutive pair related by one successfully applied
/// command.
pub open spec fn valid_change_trace(
    states: Seq<(ProjectsData, CompilerRegistry)>,
    changes: Seq<Change>,
) -> bool {
    &&& states.len() == changes.len() + 1
    &&& forall|k: int|
        0 <= k < changes.len() ==> change_applied(
            states[k].0,
            states[k].1,
            states[k + 1].0,
            states[k + 1].1,
            #[trigger] changes[k],
            Ok(()),
        )
}

/// Every command of the batch was applied, in order, and each succeeded:
/// some run of snapshots leads from the first state to the second.
pub open spec fn changes_all_applied(
    s1: ProjectsData,
    r1: CompilerRegistry,
    s2: ProjectsData,
    r2: CompilerRegistry,
    changes: Seq<Change>,
) -> bool {
    exists|states: Seq<(ProjectsData, CompilerRegistry)>|
        #[trigger] valid_change_trace(states, changes) && states[0] == (s1, r1)
            && states[changes.len() as int] == (s2, r2)
}

/// A batch never needs a negative number of fresh ids.
proof fn lemma_batch_need_nonneg(changes: Seq<Change>)
    ensures
        batch_counter_need(changes) >= 0,
    decreases changes.len(),
{
    if changes.len() > 0 {
        lemma_batch_need_nonneg(changes.skip(1));
    }
}

/// The need of a batch tail splits into the next command's need and the
/// rest's.
proof fn lemma_batch_need_unfold(changes: Seq<Change>, i: int)
    requires
        0 <= i < changes.len(),
    ensures
        batch_counter_need(changes.skip(i)) == change_counter_need(changes[i])
            + batch_counter_need(changes.skip(i + 1)),
{
    assert(changes.skip(i)[0] == changes[i]);
    assert(changes.skip(i).skip(1) =~= changes.skip(i + 1));
}

/// One applied command advances the id counter by at most its need.
proof fn lemma_change_applied_counter(
    s1: ProjectsData,
    r1: CompilerRegistry,
    s2: ProjectsData,
    r2: CompilerRegistry,
    change: Change,
    result: Result<(), StoreError>,
)
    requires
        change_applied(s1, r1, s2, r2, change, result),
    ensures
        s2.id_counter <= s1.id_counter + change_counter_need(change),
{
    match change {
        Change::RemoveProject { project_link_id } => {
            if has_link_anywhere(&s1, project_link_id) {
                if exists|wi: int|
                    0 <= wi < s1.workspaces@.len() && (#[trigger] s1.workspaces@[wi]).has_link(
                        project_link_id,
                    ) {
                    let wi = choose|wi: int|
                        0 <= wi < s1.workspaces@.len() && (#[trigger] s1.workspaces@[wi]).has_link(
                            project_link_id,
                        );
                    let li = choose|li: int|
                        0 <= li < s1.workspaces@[wi].project_links@.len()
                            && s1.workspaces@[wi].project_links@[li].id == project_link_id;
                    let pid = s1.workspaces@[wi].project_links@[li].project_id;
                    assert(link_targets(&s1, project_link_id, pid));
                    assert(remove_project_link_shape(s1, s2, project_link_id, pid));
                } else {
                    let g = s1.group_project->Some_0;
                    let li = choose|li: int|
                        0 <= li < g.project_links@.len() && g.project_links@[li].id
                            == project_link_id;
                    let pid = g.project_links@[li].project_id;
                    assert(link_targets(&s1, project_link_id, pid));
                    assert(remove_project_link_shape(s1, s2, project_link_id, pid));
                }
            }
        },
        _ => {},
    }
}

/// An ordered batch of mutation commands submitted together, tagged with
/// the event that requested it.
#[derive(Clone, Debug, PartialEq, Eq)]
pub struct ChangeSet {
    /// The commands, applied in order.
    pub changes: Vec<Change>,
    /// Opaque tag of the request, echoed back by the surrounding protocol
    /// layer when the batch is done.
    pub event_id: String,
}

/// Applies one command to the store and registry, dispatching on its
/// variant; the store invariant survives, and a failing command leaves both
/// untouched.
pub fn apply_change(
    store: &mut ProjectsData,
    registry: &mut CompilerRegistry,
    change: &Change,
) -> (result: Result<(), StoreError>)
    requires
        old(store).wf(),
        old(registry).wf(),
        change_counter_ok(*old(store), *change),
    ensures
        final(store).wf(),
        final(registry).wf(),
        change_applied(*old(store), *old(registry), *final(store), *final(registry), *change, result),
{
    match change {
        Change::NewProject { file_path, workspace_id } => store.new_project(
            file_path,
            *workspace_id,
        ),
        Change::AddProject { project_id, workspace_id } => store.add_project_link(
            *project_id,
            *workspace_id,
        ),
        Change::RemoveProject { project_link_id } => {
            store.remove_project_link(*project_link_id);
            Ok(())
        },
        Change::MoveProject { project_link_id, previous, next_rank } => store.move_project_link(
            *project_link_id,
            previous,
            next_rank,
        ),
        Change::SelectProject { project_id } => store.select_project(*project_id),
        Change::UpdateProject { project_id, data } => store.update_project(*project_id, data),
        Change::AddWorkspace { name, compiler } => store.new_workspace(name, compiler, registry),
        Change::RemoveWorkspace { workspace_id } => {
            store.remove_workspace(*workspace_id);
            Ok(())
        },
        Change::MoveWorkspace { workspace_id, previous, next_rank } => store.move_workspace(
            *workspace_id,
            previous,
            next_rank,
        ),
        Change::UpdateWorkspace { workspace_id, data } => store.update_workspace(
            *workspace_id,
            data,
            registry,
        ),
        Change::AddCompiler { key } => registry.add_key(key.clone()),
        Change::RemoveCompiler { key } => registry.remove_key(key),
        Change::UpdateCompiler { key } => {
            if registry.contains(key) {
                Ok(())
            } else {
                Err(StoreError::NotFound)
            }
        },
        Change::SetGroupProject { groupproj_path, compiler, members } => store.set_group_project(
            groupproj_path,
            compiler,
            members,
            registry,
        ),
        Change::RemoveGroupProject => {
            store.remove_group_project();
            Ok(())
        },
        Change::SetGroupProjectCompiler { compiler } => store.set_group_project_compiler(
            compiler,
            registry,
        ),
    }
}

impl ChangeSet {
    /// Applies the whole batch in order, stopping at the first failing
    /// command: on success every command was applied; on failure the
    /// commands before the failing one were applied, the failing one
    /// changed nothing, and the rest were never tried. The caller persists
    /// the store only on success, which makes the batch atomic on disk.
    pub fn execute(
        &self,
        store: &mut ProjectsData,
        registry: &mut CompilerRegistry,
    ) -> (result: Result<(), StoreError>)
        requires
            old(store).wf(),
            old(registry).wf(),
            old(store).id_counter + batch_counter_need(self.changes@) <= usize::MAX,
            forall|i: int| 0 <= i < self.changes@.len() ==> change_ranks_ok(
                #[trigger] self.changes@[i],
            ),
        ensures
            final(store).wf(),
            final(registry).wf(),
            result is Ok ==> changes_all_applied(
                *old(store),
                *old(registry),
                *final(store),
                *final(registry),
                self.changes@,
            ),
            result matches Err(e) ==> exists|k: int, sm: ProjectsData, rm: CompilerRegistry|
                0 <= k < self.changes@.len() && #[trigger] changes_all_applied(
                    *old(store),
                    *old(registry),
                    sm,
                    rm,
                    self.changes@.take(k),
                ) && change_applied(
                    sm,
                    rm,
                    *final(store),
                    *final(registry),
                    self.changes@[k],
                    Err(e),
                ),
    {
        let ghost s1 = *old(store);
        let ghost r1 = *old(registry);
        let ghost mut states: Seq<(ProjectsData, CompilerRegistry)> = seq![(s1, r1)];
        let mut i: usize = 0;
        proof {
            assert(self.changes@.skip(0) =~= self.changes@);
        }
        while i < self.changes.len()
            invariant
                s1 == *old(store),
                r1 == *old(registry),
                store.wf(),
                registry.wf(),
                i <= self.changes@.len(),
                store.id_counter + batch_counter_need(self.changes@.skip(i as int))
                    <= usize::MAX,
                forall|k: int| 0 <= k < self.changes@.len() ==> change_ranks_ok(
                    #[trigger] self.changes@[k],
                ),
                states.len() == i + 1,
                states[0] == (s1, r1),
                states[i as int] == (*store, *registry),
                valid_change_trace(states, self.changes@.take(i as int)),
            decreases self.changes@.len() - i,
        {
            let ghost sm = *store;
            let ghost rm = *registry;
            proof {
                lemma_batch_need_unfold(self.changes@, i as int);
                lemma_batch_need_nonneg(self.changes@.skip(i + 1));
                assert(change_counter_ok(*store, self.changes@[i as int]));
            }
            let step = apply_change(store, registry, &self.changes[i]);
            match step {
                Ok(()) => {
                    proof {
                        let pre = self.changes@.take(i + 1);
                        let grown = states.push((*store, *registry));
                        assert forall|k: int|
                            0 <= k < pre.len() implies change_applied(
                            grown[k].0,
                            grown[k].1,
                            grown[k + 1].0,
                            grown[k + 1].1,
                            #[trigger] pre[k],
                            Ok(()),
                        ) by {
                            if k < i {
                                assert(pre[k] == self.changes@.take(i as int)[k]);
                                assert(grown[k] == states[k] && grown[k + 1] == states[k + 1]);
                            } else {
                                assert(grown[k] == (sm, rm));
                                assert(pre[k] == self.changes@[i as int]);
                            }
                        }
                        assert(valid_change_trace(grown, pre));
                        states = grown;
                        lemma_change_applied_counter(
                            sm,
                            rm,
                            *store,
                            *registry,
                            self.changes@[i as int],
                            Ok(()),
                        );
                    }
                },
                Err(e) => {
                    proof {
                        let k = i as int;
                        assert(changes_all_applied(
                            *old(store),
                            *old(registry),
                            sm,
                            rm,
                            self.changes@.take(k),
                        )) by {
                            assert(valid_change_trace(states, self.changes@.take(k)));
                            assert(states[0] == (*old(store), *old(registry)));
                            assert(states[self.changes@.take(k).len() as int] == (sm, rm));
                        }
                        assert(change_applied(
                            sm,
                            rm,
                            *store,
                            *registry,
                            self.changes@[k],
                            Err(e),
                        ));
                    }
                    return Err(e);
                },
            }
            i += 1;
        }
        proof {
            assert(self.changes@.take(self.changes@.len() as int) =~= self.changes@);
            assert(valid_change_trace(states, self.changes@));
            assert(states[0] == (*old(store), *old(registry)));
            assert(states[self.changes@.len() as int] == (*final(store), *final(registry)));
        }
        Ok(())
    }
}

} // verus!

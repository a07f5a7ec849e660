//! Projects and the links that place them in containers.
//!
//! A `Project` is owned by the store alone; a `ProjectLink` is a non-owning
//! back-reference that puts a project into a workspace or into the group
//! project, carrying the rank that orders it there. A project with no link
//! anywhere is orphaned and gets pruned by the store's mutation operations.

use vstd::prelude::*;

use crate::lexorank::LexoRank;
use crate::paths::extension_text;
use crate::paths::file_extension;
use crate::project_data::{has_project, ProjectsData};
use crate::text::{lower_text, to_lower};
use crate::workspace::Workspace;

verus! {

/// What kind of file a project path names, judged by its extension with
/// ASCII case ignored.
#[derive(Clone, Copy, Debug, PartialEq, Eq, Structural)]
pub enum ProjectKind {
    /// A project-description file.
    Description,
    /// A program main source.
    Program,
    /// A package main source.
    Package,
    /// None of the recognized kinds.
    Unknown,
}

/// The kind named by a path: `dproj`, `dpr` or `dpk`, in any letter case;
/// anything else — another extension or none — is unknown.
pub open spec fn project_kind_of(path: Seq<char>) -> ProjectKind {
    match extension_text(path) {
        Some(e) => {
            let l = lower_text(e);
            if l == "dproj"@ {
                ProjectKind::Description
            } else if l == "dpr"@ {
                ProjectKind::Program
            } else if l == "dpk"@ {
                ProjectKind::Package
            } else {
                ProjectKind::Unknown
            }
        },
        None => ProjectKind::Unknown,
    }
}

/// Classifies a project path by its extension.
pub fn classify_project_path(path: &str) -> (result: ProjectKind)
    ensures
        result == project_kind_of(path@),
{
    match file_extension(path) {
        Some(e) => {
            let l = to_lower(e.as_str());
            if l == String::from_str("dproj") {
                ProjectKind::Description
            } else if l == String::from_str("dpr") {
                ProjectKind::Program
            } else if l == String::from_str("dpk") {
                ProjectKind::Package
            } else {
                ProjectKind::Unknown
            }
        },
        None => ProjectKind::Unknown,
    }
}

/// A build target: its display name, directory and the classified paths of
/// its description, source and outputs.
#[derive(Clone, Debug, PartialEq, Eq)]
pub struct Project {
    /// Store-unique id drawn from the shared id counter.
    pub id: usize,
    /// Display name, from the file stem of the project path.
    pub name: String,
    /// Directory holding the project file.
    pub directory: String,
    /// Path of the project-description file, when known.
    pub dproj: Option<String>,
    /// Path of a program main source, when known.
    pub dpr: Option<String>,
    /// Path of a package main source, when known.
    pub dpk: Option<String>,
    /// Path of the built executable, when known.
    pub exe: Option<String>,
    /// Path of the settings file beside the executable, when known.
    pub ini: Option<String>,
}

/// A placement of a project inside a workspace or the group project: a
/// reference by id, ordered by its rank.
#[derive(Clone, Debug, PartialEq, Eq)]
pub struct ProjectLink {
    /// Store-unique id of the link itself.
    pub id: usize,
    /// Id of the project the link places; the project must exist while the
    /// link does.
    pub project_id: usize,
    /// Position of the link among its siblings; order is defined solely by
    /// this rank, never by list position.
    pub sort_rank: LexoRank,
}

impl ProjectLink {
    /// The rank that orders this link among its siblings.
    pub fn get_lexorank(&self) -> (result: &LexoRank)
        ensures
            result == self.sort_rank,
    {
        &self.sort_rank
    }

    /// Replaces the rank that orders this link among its siblings.
    pub fn set_lexorank(&mut self, lexorank: LexoRank)
        ensures
            *final(self) == (ProjectLink { sort_rank: lexorank, ..*old(self) }),
    {
        self.sort_rank = lexorank;
    }

    /// The project this link places, looked up by id in the store.
    pub fn get_project<'a>(&self, projects_data: &'a ProjectsData) -> (result: Option<&'a Project>)
        ensures
            result is Some <==> has_project(projects_data, self.project_id),
            result matches Some(p) ==> p.id == self.project_id
                && projects_data.projects@.contains(*p),
    {
        projects_data.get_project(self.project_id)
    }

    /// The workspace holding this link, found by scanning all workspaces for
    /// the link id; the group project is no workspace, so a link held there
    /// yields nothing.
    pub fn get_workspace<'a>(&self, projects_data: &'a ProjectsData) -> (result: Option<
        &'a Workspace,
    >)
        ensures
            result is Some <==> exists|wi: int|
                0 <= wi < projects_data.workspaces@.len()
                    && projects_data.workspaces@[wi].has_link(self.id),
            result matches Some(w) ==> projects_data.workspaces@.contains(*w) && w.has_link(
                self.id,
            ),
    {
        let mut wi: usize = 0;
        while wi < projects_data.workspaces.len()
            invariant
                wi <= projects_data.workspaces@.len(),
                forall|j: int|
                    0 <= j < wi ==> !projects_data.workspaces@[j].has_link(self.id),
            decreases projects_data.workspaces@.len() - wi,
        {
            let workspace = &projects_data.workspaces[wi];
            let mut li: usize = 0;
            while li < workspace.project_links.len()
                invariant
                    workspace == &projects_data.workspaces@[wi as int],
                    wi < projects_data.workspaces@.len(),
                    li <= workspace.project_links@.len(),
                    forall|l: int| 0 <= l < li ==> workspace.project_links@[l].id != self.id,
                decreases workspace.project_links@.len() - li,
            {
                if workspace.project_links[li].id == self.id {
                    return Some(workspace);
                }
                li += 1;
            }
            proof {
                assert(!projects_data.workspaces@[wi as int].has_link(self.id));
            }
            wi += 1;
        }
        None
    }
}

} // verus!

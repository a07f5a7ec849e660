//! Workspaces: user-ordered groups of project links.

use vstd::prelude::*;

use crate::lexorank::LexoRank;
use crate::project::ProjectLink;
use crate::rank::next_symbols;

verus! {

/// A user-reorderable group of project links, itself ordered among its
/// sibling workspaces by its rank.
#[derive(Clone, Debug, PartialEq, Eq)]
pub struct Workspace {
    /// Store-unique id drawn from the shared id counter.
    pub id: usize,
    /// Display name.
    pub name: String,
    /// Key into the compiler registry; validated whenever it is set.
    pub compiler_id: String,
    /// The links placing projects in this workspace; their order is defined
    /// solely by their ranks, never by list position.
    pub project_links: Vec<ProjectLink>,
    /// Position of the workspace among its siblings.
    pub sort_rank: LexoRank,
}

impl Workspace {
    /// True when some link of this workspace has the given id.
    pub open spec fn has_link(&self, link_id: usize) -> bool {
        exists|li: int|
            0 <= li < self.project_links@.len() && self.project_links@[li].id == link_id
    }

    /// True when some link of this workspace references the given project.
    pub open spec fn links_project(&self, project_id: usize) -> bool {
        exists|li: int|
            0 <= li < self.project_links@.len() && self.project_links@[li].project_id == project_id
    }

    /// Every rank carried by this workspace and its links is well formed.
    pub open spec fn ranks_wf(&self) -> bool {
        &&& self.sort_rank.wf()
        &&& forall|li: int|
            0 <= li < self.project_links@.len() ==> (#[trigger] self.project_links@[li]).sort_rank.wf()
    }

    /// A fresh workspace with no links yet.
    pub fn new(id: usize, name: String, compiler_id: String, lexo_rank: LexoRank) -> (result:
        Workspace)
        ensures
            result.id == id,
            result.name == name,
            result.compiler_id == compiler_id,
            result.project_links@ =~= Seq::<ProjectLink>::empty(),
            result.sort_rank == lexo_rank,
    {
        Workspace { id, name, compiler_id, project_links: Vec::new(), sort_rank: lexo_rank }
    }

    /// The rank that orders this workspace among its siblings.
    pub fn get_lexorank(&self) -> (result: &LexoRank)
        ensures
            result == self.sort_rank,
    {
        &self.sort_rank
    }

    /// Replaces the rank that orders this workspace among its siblings.
    pub fn set_lexorank(&mut self, lexorank: LexoRank)
        ensures
            *final(self) == (Workspace { sort_rank: lexorank, ..*old(self) }),
    {
        self.sort_rank = lexorank;
    }

    /// Appends a link to the given project at the end of this workspace: its
    /// rank is the successor of the last link's rank, or the default middle
    /// rank for a workspace still empty.
    pub fn new_project_link(&mut self, id: usize, project_id: usize)
        requires
            old(self).ranks_wf(),
        ensures
            final(self).id == old(self).id,
            final(self).name == old(self).name,
            final(self).compiler_id == old(self).compiler_id,
            final(self).sort_rank == old(self).sort_rank,
            final(self).project_links@.len() == old(self).project_links@.len() + 1,
            final(self).project_links@.take(old(self).project_links@.len() as int) == old(
                self,
            ).project_links@,
            ({
                let link = final(self).project_links@.last();
                &&& link.id == id
                &&& link.project_id == project_id
                &&& link.sort_rank.wf()
                &&& if old(self).project_links@.len() == 0 {
                    crate::lexorank::is_middle_key(link.sort_rank)
                } else {
                    link.sort_rank.spec_bucket() == old(
                        self,
                    ).project_links@.last().sort_rank.spec_bucket()
                        && link.sort_rank.spec_rank() == next_symbols(
                        old(self).project_links@.last().sort_rank.spec_rank(),
                    )
                }
            }),
            final(self).ranks_wf(),
    {
        let sort_rank = if self.project_links.len() > 0 {
            let last = &self.project_links[self.project_links.len() - 1];
            last.sort_rank.next()
        } else {
            LexoRank::default()
        };
        let ghost before = self.project_links@;
        self.project_links.push(ProjectLink { id, project_id, sort_rank });
        proof {
            assert(self.project_links@.take(before.len() as int) =~= before);
        }
    }
}

} // verus!

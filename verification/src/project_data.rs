//! The hierarchical store: workspaces, projects, links and the optional
//! group project, with mutation operations that preserve its invariants.
//!
//! The store owns every entity. Ids come from one shared counter and are
//! unique per entity kind; every link references an existing project; a
//! project that loses its last link is pruned; the active project, when set,
//! exists. These facts together form the store's well-formedness, which
//! every mutation operation preserves.

use vstd::prelude::*;

use crate::changes::{ProjectUpdateData, WorkspaceUpdateData};
use crate::compilers::CompilerRegistry;
use crate::errors::StoreError;
use crate::rank::{next_symbols, symbols_lt};
use crate::lexorank::{is_middle_key, lemma_key_order_irrefl, lemma_key_order_trans, LexoRank};
use crate::paths::{file_stem, parent_dir, parent_text, stem_text};
use crate::project::{classify_project_path, project_kind_of, Project, ProjectKind, ProjectLink};
use crate::workspace::Workspace;

verus! {

/// The optional, externally sourced aggregate of projects, reconciled into
/// the store by matching project-file paths.
#[derive(Clone, Debug, PartialEq, Eq)]
pub struct GroupProject {
    /// Display name, from the file stem of the group file path.
    pub name: String,
    /// Path of the group file this aggregate was read from.
    pub path: String,
    /// Key into the compiler registry; validated whenever it is set.
    pub compiler_id: String,
    /// The links placing member projects in the group; ordered by rank.
    pub project_links: Vec<ProjectLink>,
}

impl GroupProject {
    /// True when some link of the group has the given id.
    pub open spec fn has_link(&self, link_id: usize) -> bool {
        exists|li: int|
            0 <= li < self.project_links@.len() && self.project_links@[li].id == link_id
    }

    /// True when some link of the group references the given project.
    pub open spec fn links_project(&self, project_id: usize) -> bool {
        exists|li: int|
            0 <= li < self.project_links@.len() && self.project_links@[li].project_id == project_id
    }

    /// Every rank carried by the group's links is well formed.
    pub open spec fn ranks_wf(&self) -> bool {
        forall|li: int|
            0 <= li < self.project_links@.len() ==> (#[trigger] self.project_links@[li]).sort_rank.wf()
    }

    /// Appends a link to the given project at the end of the group: its rank
    /// is the successor of the last link's rank, or the default middle rank
    /// for a group still empty.
    pub fn new_project_link(&mut self, id: usize, project_id: usize)
        requires
            old(self).ranks_wf(),
        ensures
            final(self).name == old(self).name,
            final(self).path == old(self).path,
            final(self).compiler_id == old(self).compiler_id,
            final(self).project_links@.len() == old(self).project_links@.len() + 1,
            final(self).project_links@.take(old(self).project_links@.len() as int) == old(
                self,
            ).project_links@,
            ({
                let link = final(self).project_links@.last();
                &&& link.id == id
                &&& link.project_id == project_id
                &&& link.sort_rank.wf()
                &&& if old(self).project_links@.len() == 0 {
                    crate::lexorank::is_middle_key(link.sort_rank)
                } else {
                    link.sort_rank.spec_bucket() == old(
                        self,
                    ).project_links@.last().sort_rank.spec_bucket()
                        && link.sort_rank.spec_rank() == crate::rank::next_symbols(
                        old(self).project_links@.last().sort_rank.spec_rank(),
                    )
                }
            }),
            final(self).ranks_wf(),
    {
        let sort_rank = if self.project_links.len() > 0 {
            let last = &self.project_links[self.project_links.len() - 1];
            last.sort_rank.next()
        } else {
            LexoRank::default()
        };
        let ghost before = self.project_links@;
        self.project_links.push(ProjectLink { id, project_id, sort_rank });
        proof {
            assert(self.project_links@.take(before.len() as int) =~= before);
        }
    }
}

/// The whole persisted state: the single id counter, the optional active
/// project, and the owned workspaces, projects and group project.
#[derive(Clone, Debug, PartialEq, Eq)]
pub struct ProjectsData {
    /// Source of every id in the store; never decreases.
    pub id_counter: usize,
    /// The project currently selected, when any; always an existing one.
    pub active_project_id: Option<usize>,
    /// The workspaces, ordered among themselves by their ranks.
    pub workspaces: Vec<Workspace>,
    /// The projects, each referenced by at least one link somewhere.
    pub projects: Vec<Project>,
    /// The optional externally sourced group of projects.
    pub group_project: Option<GroupProject>,
}

/// Some project in the store has the given id.
pub open spec fn has_project(s: &ProjectsData, project_id: usize) -> bool {
    exists|i: int| 0 <= i < s.projects@.len() && s.projects@[i].id == project_id
}

/// Some workspace in the store has the given id.
pub open spec fn has_workspace(s: &ProjectsData, workspace_id: usize) -> bool {
    exists|i: int| 0 <= i < s.workspaces@.len() && s.workspaces@[i].id == workspace_id
}

/// Some link somewhere in the store — in a workspace or in the group — has
/// the given id.
pub open spec fn has_link_anywhere(s: &ProjectsData, link_id: usize) -> bool {
    ||| exists|wi: int|
        0 <= wi < s.workspaces@.len() && (#[trigger] s.workspaces@[wi]).has_link(link_id)
    ||| (s.group_project matches Some(g) && g.has_link(link_id))
}

/// Some link somewhere in the store references the given project: the exact
/// condition under which the project must be kept.
pub open spec fn spec_can_find_any_links(s: &ProjectsData, project_id: usize) -> bool {
    ||| exists|wi: int|
        0 <= wi < s.workspaces@.len() && (#[trigger] s.workspaces@[wi]).links_project(project_id)
    ||| (s.group_project matches Some(g) && g.links_project(project_id))
}

/// Distinct projects carry distinct ids.
pub open spec fn projects_unique(s: &ProjectsData) -> bool {
    forall|i: int, j: int|
        0 <= i < j < s.projects@.len() ==> (#[trigger] s.projects@[i]).id != (
        #[trigger] s.projects@[j]).id
}

/// Distinct workspaces carry distinct ids.
pub open spec fn workspaces_unique(s: &ProjectsData) -> bool {
    forall|i: int, j: int|
        0 <= i < j < s.workspaces@.len() ==> (#[trigger] s.workspaces@[i]).id != (
        #[trigger] s.workspaces@[j]).id
}

/// Distinct links carry distinct ids, across the whole store: within and
/// between workspaces, within the group, and between the two kinds of
/// container.
pub open spec fn links_unique(s: &ProjectsData) -> bool {
    &&& forall|wi: int, li: int, wj: int, lj: int|
        0 <= wi < s.workspaces@.len() && 0 <= li < s.workspaces@[wi].project_links@.len() && 0 <= wj
            < s.workspaces@.len() && 0 <= lj < s.workspaces@[wj].project_links@.len() && (wi != wj
            || li != lj) ==> (#[trigger] s.workspaces@[wi].project_links@[li]).id != (
        #[trigger] s.workspaces@[wj].project_links@[lj]).id
    &&& (s.group_project matches Some(g) ==> {
        &&& forall|li: int, lj: int|
            0 <= li < lj < g.project_links@.len() ==> (#[trigger] g.project_links@[li]).id != (
            #[trigger] g.project_links@[lj]).id
        &&& forall|wi: int, li: int, lj: int|
            0 <= wi < s.workspaces@.len() && 0 <= li < s.workspaces@[wi].project_links@.len() && 0
                <= lj < g.project_links@.len() ==> (
            #[trigger] s.workspaces@[wi].project_links@[li]).id != (
            #[trigger] g.project_links@[lj]).id
    })
}

/// Every link references a project that exists.
pub open spec fn links_valid(s: &ProjectsData) -> bool {
    &&& forall|wi: int, li: int|
        0 <= wi < s.workspaces@.len() && 0 <= li < s.workspaces@[wi].project_links@.len()
            ==> has_project(s, (#[trigger] s.workspaces@[wi].project_links@[li]).project_id)
    &&& (s.group_project matches Some(g) ==> forall|li: int|
        0 <= li < g.project_links@.len() ==> has_project(
            s,
            (#[trigger] g.project_links@[li]).project_id,
        ))
}

/// Every project is referenced by at least one link: orphans are pruned as
/// soon as they arise.
pub open spec fn no_orphans(s: &ProjectsData) -> bool {
    forall|pi: int|
        0 <= pi < s.projects@.len() ==> spec_can_find_any_links(
            s,
            (#[trigger] s.projects@[pi]).id,
        )
}

/// Every id in the store was drawn from the counter: none exceeds it.
pub open spec fn ids_bounded(s: &ProjectsData) -> bool {
    &&& forall|pi: int| 0 <= pi < s.projects@.len() ==> (#[trigger] s.projects@[pi]).id
        <= s.id_counter
    &&& forall|wi: int| 0 <= wi < s.workspaces@.len() ==> (#[trigger] s.workspaces@[wi]).id
        <= s.id_counter
    &&& forall|wi: int, li: int|
        0 <= wi < s.workspaces@.len() && 0 <= li < s.workspaces@[wi].project_links@.len() ==> (
        #[trigger] s.workspaces@[wi].project_links@[li]).id <= s.id_counter
    &&& (s.group_project matches Some(g) ==> forall|li: int|
        0 <= li < g.project_links@.len() ==> (#[trigger] g.project_links@[li]).id <= s.id_counter)
}

/// The active project, when set, exists (and is then linked, as every
/// project is).
pub open spec fn active_valid(s: &ProjectsData) -> bool {
    s.active_project_id matches Some(pid) ==> has_project(s, pid)
}

/// Every rank carried anywhere in the store is well formed.
pub open spec fn ranks_wf(s: &ProjectsData) -> bool {
    &&& forall|wi: int| 0 <= wi < s.workspaces@.len() ==> (#[trigger] s.workspaces@[wi]).ranks_wf()
    &&& (s.group_project matches Some(g) ==> g.ranks_wf())
}

/// Every structural invariant except the pruning of orphans: what holds of
/// the store in the middle of a removal, before the orphan check has run.
pub open spec fn wf_core(s: &ProjectsData) -> bool {
    &&& projects_unique(s)
    &&& workspaces_unique(s)
    &&& links_unique(s)
    &&& links_valid(s)
    &&& ids_bounded(s)
    &&& active_valid(s)
    &&& ranks_wf(s)
}

impl ProjectsData {
    /// Well-formedness of the whole store: what every mutation operation
    /// requires and preserves.
    pub open spec fn wf(&self) -> bool {
        wf_core(self) && no_orphans(self)
    }

    /// Returns the next fresh id, advancing the counter: the sole id source
    /// for every entity kind.
    pub fn next_id(&mut self) -> (result: usize)
        requires
            old(self).id_counter < usize::MAX,
        ensures
            final(self).id_counter == old(self).id_counter + 1,
            result == final(self).id_counter,
            final(self).active_project_id == old(self).active_project_id,
            final(self).workspaces == old(self).workspaces,
            final(self).projects == old(self).projects,
            final(self).group_project == old(self).group_project,
    {
        self.id_counter += 1;
        self.id_counter
    }

    /// True when some link anywhere still references the project: the
    /// project is a deletion candidate exactly when this returns false.
    pub fn can_find_any_links(&self, project_id: usize) -> (result: bool)
        ensures
            result == spec_can_find_any_links(self, project_id),
    {
        let mut wi: usize = 0;
        while wi < self.workspaces.len()
            invariant
                wi <= self.workspaces@.len(),
                forall|j: int|
                    0 <= j < wi ==> !(#[trigger] self.workspaces@[j]).links_project(project_id),
            decreases self.workspaces@.len() - wi,
        {
            let workspace = &self.workspaces[wi];
            let mut li: usize = 0;
            while li < workspace.project_links.len()
                invariant
                    workspace == &self.workspaces@[wi as int],
                    wi < self.workspaces@.len(),
                    li <= workspace.project_links@.len(),
                    forall|l: int|
                        0 <= l < li ==> workspace.project_links@[l].project_id != project_id,
                decreases workspace.project_links@.len() - li,
            {
                if workspace.project_links[li].project_id == project_id {
                    return true;
                }
                li += 1;
            }
            proof {
                assert(!self.workspaces@[wi as int].links_project(project_id));
            }
            wi += 1;
        }
        match &self.group_project {
            Some(group) => {
                let mut li: usize = 0;
                while li < group.project_links.len()
                    invariant
                        self.group_project matches Some(g) && g == group,
                        li <= group.project_links@.len(),
                        forall|l: int|
                            0 <= l < li ==> group.project_links@[l].project_id != project_id,
                    decreases group.project_links@.len() - li,
                {
                    if group.project_links[li].project_id == project_id {
                        return true;
                    }
                    li += 1;
                }
                false
            },
            None => false,
        }
    }

    /// The project with the given id, when it exists.
    pub fn get_project(&self, project_id: usize) -> (result: Option<&Project>)
        ensures
            result is Some <==> has_project(self, project_id),
            result matches Some(p) ==> p.id == project_id && self.projects@.contains(*p),
    {
        let mut i: usize = 0;
        while i < self.projects.len()
            invariant
                i <= self.projects@.len(),
                forall|j: int| 0 <= j < i ==> self.projects@[j].id != project_id,
            decreases self.projects@.len() - i,
        {
            if self.projects[i].id == project_id {
                return Some(&self.projects[i]);
            }
            i += 1;
        }
        None
    }

    /// The workspace with the given id, when it exists.
    pub fn get_workspace(&self, workspace_id: usize) -> (result: Option<&Workspace>)
        ensures
            result is Some <==> has_workspace(self, workspace_id),
            result matches Some(w) ==> w.id == workspace_id && self.workspaces@.contains(*w),
    {
        let mut i: usize = 0;
        while i < self.workspaces.len()
            invariant
                i <= self.workspaces@.len(),
                forall|j: int| 0 <= j < i ==> self.workspaces@[j].id != workspace_id,
            decreases self.workspaces@.len() - i,
        {
            if self.workspaces[i].id == workspace_id {
                return Some(&self.workspaces[i]);
            }
            i += 1;
        }
        None
    }

    /// The position of the project with the given id, when it exists.
    fn find_project_index(&self, project_id: usize) -> (result: Option<usize>)
        ensures
            result is Some <==> has_project(self, project_id),
            result matches Some(i) ==> i < self.projects@.len() && self.projects@[i as int].id
                == project_id,
    {
        let mut i: usize = 0;
        while i < self.projects.len()
            invariant
                i <= self.projects@.len(),
                forall|j: int| 0 <= j < i ==> self.projects@[j].id != project_id,
            decreases self.projects@.len() - i,
        {
            if self.projects[i].id == project_id {
                return Some(i);
            }
            i += 1;
        }
        None
    }

    /// The position of the workspace with the given id, when it exists.
    fn find_workspace_index(&self, workspace_id: usize) -> (result: Option<usize>)
        ensures
            result is Some <==> has_workspace(self, workspace_id),
            result matches Some(i) ==> i < self.workspaces@.len() && self.workspaces@[i as int].id
                == workspace_id,
    {
        let mut i: usize = 0;
        while i < self.workspaces.len()
            invariant
                i <= self.workspaces@.len(),
                forall|j: int| 0 <= j < i ==> self.workspaces@[j].id != workspace_id,
            decreases self.workspaces@.len() - i,
        {
            if self.workspaces[i].id == workspace_id {
                return Some(i);
            }
            i += 1;
        }
        None
    }

    /// The project whose description file is the given path, when any.
    pub fn find_project_by_dproj(&self, dproj: &String) -> (result: Option<&Project>)
        ensures
            result is Some <==> exists|i: int|
                0 <= i < self.projects@.len() && ((#[trigger] self.projects@[i]).dproj matches Some(
                    d,
                ) && d@ == dproj@),
            result matches Some(p) ==> self.projects@.contains(*p) && (p.dproj matches Some(d)
                && d@ == dproj@),
            result matches Some(p) ==> exists|i: int|
                0 <= i < self.projects@.len() && #[trigger] self.projects@[i] == *p && forall|
                    j: int,
                |
                    0 <= j < i ==> !((#[trigger] self.projects@[j]).dproj matches Some(d) && d@
                        == dproj@),
    {
        let mut i: usize = 0;
        while i < self.projects.len()
            invariant
                i <= self.projects@.len(),
                forall|j: int|
                    0 <= j < i ==> !((#[trigger] self.projects@[j]).dproj matches Some(d) && d@
                        == dproj@),
            decreases self.projects@.len() - i,
        {
            let candidate = &self.projects[i];
            proof {
                assert(*candidate == self.projects@[i as int]);
            }
            match &candidate.dproj {
                Some(d) => {
                    if *d == *dproj {
                        proof {
                            assert(candidate.dproj matches Some(dd) && dd@ == dproj@);
                            assert(self.projects@.contains(self.projects@[i as int]));
                            assert(self.projects@[i as int] == *candidate);
                        }
                        return Some(candidate);
                    }
                },
                None => {},
            }
            i += 1;
        }
        None
    }

    /// The selected project, when one is selected; it always exists in a
    /// well-formed store.
    pub fn active_project(&self) -> (result: Option<&Project>)
        ensures
            result is Some <==> (self.active_project_id matches Some(pid) && has_project(
                self,
                pid,
            )),
            result matches Some(p) ==> self.active_project_id == Some(p.id)
                && self.projects@.contains(*p),
    {
        match self.active_project_id {
            Some(active_id) => self.get_project(active_id),
            None => None,
        }
    }
}

/// Keeps every project but the one with the given id.
pub open spec fn other_project(project_id: usize) -> spec_fn(Project) -> bool {
    |p: Project| p.id != project_id
}

/// Keeps every link but those referencing the given project.
pub open spec fn link_to_other(project_id: usize) -> spec_fn(ProjectLink) -> bool {
    |l: ProjectLink| l.project_id != project_id
}

/// Keeps every link but the one with the given id.
pub open spec fn other_link(link_id: usize) -> spec_fn(ProjectLink) -> bool {
    |l: ProjectLink| l.id != link_id
}

/// One step of filtering a prefix: taking one more element either appends it
/// to the filtered prefix or leaves the filtered prefix unchanged.
pub proof fn lemma_filter_take_step<A>(s: Seq<A>, pred: spec_fn(A) -> bool, i: int)
    requires
        0 <= i < s.len(),
    ensures
        s.take(i + 1).filter(pred) == if pred(s[i]) {
            s.take(i).filter(pred).push(s[i])
        } else {
            s.take(i).filter(pred)
        },
{
    reveal(Seq::filter);
    assert(s.take(i + 1).drop_last() =~= s.take(i));
    assert(s.take(i + 1).last() == s[i]);
}

/// Filtering keeps a subsequence: every kept element stands somewhere in the
/// source, and two kept elements stand at two source positions in order.
pub proof fn lemma_filter_subsequence<A>(s: Seq<A>, pred: spec_fn(A) -> bool)
    ensures
        forall|k: int|
            0 <= k < s.filter(pred).len() ==> exists|j: int|
                0 <= j < s.len() && #[trigger] s.filter(pred)[k] == s[j],
        forall|k1: int, k2: int|
            0 <= k1 < k2 < s.filter(pred).len() ==> exists|j1: int, j2: int|
                0 <= j1 < j2 < s.len() && #[trigger] s.filter(pred)[k1] == s[j1] && #[trigger] s.filter(
                    pred,
                )[k2] == s[j2],
    decreases s.len(),
{
    reveal(Seq::filter);
    if s.len() > 0 {
        let dl = s.drop_last();
        lemma_filter_subsequence(dl, pred);
        assert(forall|j: int| 0 <= j < dl.len() ==> dl[j] == s[j]);
        let f = s.filter(pred);
        let fdl = dl.filter(pred);
        if pred(s.last()) {
            assert(f == fdl.push(s.last()));
            assert forall|k: int| 0 <= k < f.len() implies exists|j: int|
                0 <= j < s.len() && #[trigger] f[k] == s[j] by {
                if k < fdl.len() {
                    assert(f[k] == fdl[k]);
                    let j = choose|j: int| 0 <= j < dl.len() && fdl[k] == dl[j];
                    assert(f[k] == s[j]);
                } else {
                    assert(f[k] == s[s.len() - 1]);
                }
            }
            assert forall|k1: int, k2: int| 0 <= k1 < k2 < f.len() implies exists|j1: int, j2: int|
                0 <= j1 < j2 < s.len() && #[trigger] f[k1] == s[j1] && #[trigger] f[k2] == s[j2] by {
                if k2 < fdl.len() {
                    let (j1, j2) = choose|j1: int, j2: int|
                        0 <= j1 < j2 < dl.len() && fdl[k1] == dl[j1] && fdl[k2] == dl[j2];
                    assert(f[k1] == s[j1] && f[k2] == s[j2]);
                } else {
                    assert(f[k2] == s[s.len() - 1]);
                    let j1 = choose|j: int| 0 <= j < dl.len() && fdl[k1] == dl[j];
                    assert(f[k1] == s[j1] && j1 < s.len() - 1);
                }
            }
        } else {
            assert(f == fdl);
        }
    }
}

/// Filtering with a predicate that holds everywhere changes nothing.
pub proof fn lemma_filter_identity<A>(s: Seq<A>, pred: spec_fn(A) -> bool)
    requires
        forall|i: int| 0 <= i < s.len() ==> pred(#[trigger] s[i]),
    ensures
        s.filter(pred) == s,
    decreases s.len(),
{
    reveal(Seq::filter);
    if s.len() > 0 {
        let dl = s.drop_last();
        assert(forall|i: int| 0 <= i < dl.len() ==> dl[i] == s[i]);
        lemma_filter_identity(dl, pred);
        assert(s.filter(pred) =~= s);
    } else {
        assert(s.filter(pred) =~= s);
    }
}

/// Drops, in place, every project with the given id.
fn retain_other_projects(v: &mut Vec<Project>, project_id: usize)
    ensures
        final(v)@ == old(v)@.filter(other_project(project_id)),
{
    let ghost orig = old(v)@;
    let ghost pred = other_project(project_id);
    proof {
        reveal(Seq::filter);
        assert(orig.take(0) =~= Seq::<Project>::empty());
    }
    let mut i: usize = 0;
    let ghost mut j: int = 0;
    while i < v.len()
        invariant
            0 <= j <= orig.len(),
            pred == other_project(project_id),
            v@ == orig.take(j).filter(pred) + orig.skip(j),
            i == orig.take(j).filter(pred).len(),
        decreases v@.len() - i,
    {
        proof {
            lemma_filter_take_step(orig, pred, j);
            assert(v@[i as int] == orig.skip(j)[0]);
            assert(orig.skip(j)[0] == orig[j]);
        }
        if v[i].id == project_id {
            let ghost before = v@;
            v.remove(i);
            proof {
                assert(v@ =~= orig.take(j + 1).filter(pred) + orig.skip(j + 1));
                j = j + 1;
            }
        } else {
            proof {
                assert(v@ =~= orig.take(j + 1).filter(pred) + orig.skip(j + 1));
                j = j + 1;
            }
            i += 1;
        }
    }
    proof {
        assert(orig.skip(j).len() == 0);
        assert(j == orig.len());
        assert(orig.take(j) =~= orig);
        assert(v@ =~= orig.filter(pred));
    }
}

/// Drops, in place, every link referencing the given project.
fn retain_links_to_other(v: &mut Vec<ProjectLink>, project_id: usize)
    ensures
        final(v)@ == old(v)@.filter(link_to_other(project_id)),
{
    let ghost orig = old(v)@;
    let ghost pred = link_to_other(project_id);
    proof {
        reveal(Seq::filter);
        assert(orig.take(0) =~= Seq::<ProjectLink>::empty());
    }
    let mut i: usize = 0;
    let ghost mut j: int = 0;
    while i < v.len()
        invariant
            0 <= j <= orig.len(),
            pred == link_to_other(project_id),
            v@ == orig.take(j).filter(pred) + orig.skip(j),
            i == orig.take(j).filter(pred).len(),
        decreases v@.len() - i,
    {
        proof {
            lemma_filter_take_step(orig, pred, j);
            assert(v@[i as int] == orig.skip(j)[0]);
            assert(orig.skip(j)[0] == orig[j]);
        }
        if v[i].project_id == project_id {
            v.remove(i);
            proof {
                assert(v@ =~= orig.take(j + 1).filter(pred) + orig.skip(j + 1));
                j = j + 1;
            }
        } else {
            proof {
                assert(v@ =~= orig.take(j + 1).filter(pred) + orig.skip(j + 1));
                j = j + 1;
            }
            i += 1;
        }
    }
    proof {
        assert(orig.skip(j).len() == 0);
        assert(orig.take(j) =~= orig);
        assert(v@ =~= orig.filter(pred));
    }
}

/// Drops, in place, the link with the given id.
fn retain_other_links(v: &mut Vec<ProjectLink>, link_id: usize)
    ensures
        final(v)@ == old(v)@.filter(other_link(link_id)),
{
    let ghost orig = old(v)@;
    let ghost pred = other_link(link_id);
    proof {
        reveal(Seq::filter);
        assert(orig.take(0) =~= Seq::<ProjectLink>::empty());
    }
    let mut i: usize = 0;
    let ghost mut j: int = 0;
    while i < v.len()
        invariant
            0 <= j <= orig.len(),
            pred == other_link(link_id),
            v@ == orig.take(j).filter(pred) + orig.skip(j),
            i == orig.take(j).filter(pred).len(),
        decreases v@.len() - i,
    {
        proof {
            lemma_filter_take_step(orig, pred, j);
            assert(v@[i as int] == orig.skip(j)[0]);
            assert(orig.skip(j)[0] == orig[j]);
        }
        if v[i].id == link_id {
            v.remove(i);
            proof {
                assert(v@ =~= orig.take(j + 1).filter(pred) + orig.skip(j + 1));
                j = j + 1;
            }
        } else {
            proof {
                assert(v@ =~= orig.take(j + 1).filter(pred) + orig.skip(j + 1));
                j = j + 1;
            }
            i += 1;
        }
    }
    proof {
        assert(orig.skip(j).len() == 0);
        assert(orig.take(j) =~= orig);
        assert(v@ =~= orig.filter(pred));
    }
}

/// `w2` is `w1` with its link list replaced by `links`.
pub open spec fn same_workspace_with_links(w1: Workspace, w2: Workspace, links: Seq<ProjectLink>) -> bool {
    &&& w2.id == w1.id
    &&& w2.name == w1.name
    &&& w2.compiler_id == w1.compiler_id
    &&& w2.sort_rank == w1.sort_rank
    &&& w2.project_links@ == links
}

/// `g2` is `g1` with its link list replaced by `links`.
pub open spec fn same_group_with_links(g1: GroupProject, g2: GroupProject, links: Seq<ProjectLink>) -> bool {
    &&& g2.name == g1.name
    &&& g2.path == g1.path
    &&& g2.compiler_id == g1.compiler_id
    &&& g2.project_links@ == links
}

/// How `remove_project` transforms the store: the project is filtered out of
/// the project list, the selection is cleared when it was the removed
/// project, and, when asked, every link referencing the project is filtered
/// out of every container.
pub open spec fn remove_project_shape(
    s1: ProjectsData,
    s2: ProjectsData,
    project_id: usize,
    remove_links: bool,
) -> bool {
    &&& s2.id_counter == s1.id_counter
    &&& s2.projects@ == s1.projects@.filter(other_project(project_id))
    &&& s2.active_project_id == if s1.active_project_id == Some(project_id) {
        None::<usize>
    } else {
        s1.active_project_id
    }
    &&& if remove_links {
        &&& s2.workspaces@.len() == s1.workspaces@.len()
        &&& forall|wi: int|
            0 <= wi < s1.workspaces@.len() ==> same_workspace_with_links(
                #[trigger] s1.workspaces@[wi],
                #[trigger] s2.workspaces@[wi],
                s1.workspaces@[wi].project_links@.filter(link_to_other(project_id)),
            )
        &&& match s1.group_project {
            Some(g1) => s2.group_project matches Some(g2) && same_group_with_links(
                g1,
                g2,
                g1.project_links@.filter(link_to_other(project_id)),
            ),
            None => s2.group_project is None,
        }
    } else {
        s2.workspaces == s1.workspaces && s2.group_project == s1.group_project
    }
}

/// Well-formedness with one exception allowed: the project with the given
/// id may be orphaned. The intermediate state of link removal, before the
/// orphan check has run, looks like this.
pub open spec fn wf_except_orphan(s: &ProjectsData, project_id: usize) -> bool {
    &&& wf_core(s)
    &&& forall|pi: int|
        0 <= pi < s.projects@.len() && (#[trigger] s.projects@[pi]).id != project_id
            ==> spec_can_find_any_links(s, s.projects@[pi].id)
}

/// The link with the given id, somewhere in the store, references the given
/// project.
pub open spec fn link_targets(s: &ProjectsData, link_id: usize, project_id: usize) -> bool {
    ||| exists|wi: int, li: int|
        0 <= wi < s.workspaces@.len() && 0 <= li < s.workspaces@[wi].project_links@.len() && (
        #[trigger] s.workspaces@[wi].project_links@[li]).id == link_id
            && s.workspaces@[wi].project_links@[li].project_id == project_id
    ||| (s.group_project matches Some(g) && exists|li: int|
        0 <= li < g.project_links@.len() && (#[trigger] g.project_links@[li]).id == link_id
            && g.project_links@[li].project_id == project_id)
}

/// Some link other than the one with the given id references the project.
pub open spec fn has_other_link_to(s: &ProjectsData, link_id: usize, project_id: usize) -> bool {
    ||| exists|wi: int, li: int|
        0 <= wi < s.workspaces@.len() && 0 <= li < s.workspaces@[wi].project_links@.len() && (
        #[trigger] s.workspaces@[wi].project_links@[li]).id != link_id
            && s.workspaces@[wi].project_links@[li].project_id == project_id
    ||| (s.group_project matches Some(g) && exists|li: int|
        0 <= li < g.project_links@.len() && (#[trigger] g.project_links@[li]).id != link_id
            && g.project_links@[li].project_id == project_id)
}

/// Removing a project preserves well-formedness, as long as either its links
/// are removed with it or none existed.
proof fn lemma_remove_project_preserves(
    s1: ProjectsData,
    s2: ProjectsData,
    project_id: usize,
    remove_links: bool,
)
    requires
        remove_project_shape(s1, s2, project_id, remove_links),
        wf_except_orphan(&s1, project_id),
        remove_links || !spec_can_find_any_links(&s1, project_id),
    ensures
        s2.wf(),
{
    let pp = other_project(project_id);
    let lp = link_to_other(project_id);
    let ops = s1.projects@;
    let nps = s2.projects@;
    lemma_filter_subsequence(ops, pp);
    // Projects that survive keep distinct ids and their bound on the counter.
    assert forall|i: int, j: int| 0 <= i < j < nps.len() implies (#[trigger] nps[i]).id != (
    #[trigger] nps[j]).id by {
        assert(ops.filter(pp)[i] == nps[i]);
        assert(ops.filter(pp)[j] == nps[j]);
        let (j1, j2) = choose|j1: int, j2: int|
            0 <= j1 < j2 < ops.len() && ops.filter(pp)[i] == ops[j1] && ops.filter(pp)[j]
                == ops[j2];
        assert(ops[j1].id != ops[j2].id);
    }
    assert forall|i: int| 0 <= i < nps.len() implies (#[trigger] nps[i]).id <= s2.id_counter by {
        assert(ops.filter(pp)[i] == nps[i]);
        let j = choose|j: int| 0 <= j < ops.len() && ops.filter(pp)[i] == ops[j];
        assert(ops[j].id <= s1.id_counter);
    }
    // A survivor never carries the removed id, and every project other than
    // the removed one survives.
    assert forall|i: int| 0 <= i < nps.len() implies (#[trigger] nps[i]).id != project_id by {
        ops.lemma_filter_pred(pp, i);
    }
    assert forall|pid: usize| pid != project_id && has_project(&s1, pid) implies has_project(
        &s2,
        pid,
    ) by {
        let j = choose|j: int| 0 <= j < ops.len() && ops[j].id == pid;
        ops.lemma_filter_contains(pp, j);
        assert(nps.contains(ops[j]));
        let k = choose|k: int| 0 <= k < nps.len() && nps[k] == ops[j];
        assert(nps[k].id == pid);
    }
    if remove_links {
        // Workspaces keep their identity; only their link lists shrink.
        assert forall|wi: int| 0 <= wi < s2.workspaces@.len() implies (
        #[trigger] s2.workspaces@[wi]).id == s1.workspaces@[wi].id && s2.workspaces@[wi].sort_rank
            == s1.workspaces@[wi].sort_rank by {
            assert(same_workspace_with_links(
                s1.workspaces@[wi],
                s2.workspaces@[wi],
                s1.workspaces@[wi].project_links@.filter(lp),
            ));
        }
        // Each container's links shrink to a subsequence that avoids the
        // removed project.
        assert forall|wi: int, li: int|
            0 <= wi < s2.workspaces@.len() && 0 <= li
                < s2.workspaces@[wi].project_links@.len() implies {
            let l = #[trigger] s2.workspaces@[wi].project_links@[li];
            exists|lj: int|
                0 <= lj < s1.workspaces@[wi].project_links@.len()
                    && s1.workspaces@[wi].project_links@[lj] == l
        } by {
            let o = s1.workspaces@[wi].project_links@;
            lemma_filter_subsequence(o, lp);
            assert(o.filter(lp)[li] == s2.workspaces@[wi].project_links@[li]);
        }
        // Pairwise distinct link ids, inside and across containers.
        assert forall|wi: int, li: int, wj: int, lj: int|
            0 <= wi < s2.workspaces@.len() && 0 <= li < s2.workspaces@[wi].project_links@.len() && 0
                <= wj < s2.workspaces@.len() && 0 <= lj < s2.workspaces@[wj].project_links@.len()
                && (wi != wj || li != lj) implies (
        #[trigger] s2.workspaces@[wi].project_links@[li]).id != (
        #[trigger] s2.workspaces@[wj].project_links@[lj]).id by {
            let oi = s1.workspaces@[wi].project_links@;
            let oj = s1.workspaces@[wj].project_links@;
            lemma_filter_subsequence(oi, lp);
            lemma_filter_subsequence(oj, lp);
            if wi == wj {
                if li < lj {
                    assert(oi.filter(lp)[li] == s2.workspaces@[wi].project_links@[li]);
                    assert(oi.filter(lp)[lj] == s2.workspaces@[wj].project_links@[lj]);
                    let (p1, p2) = choose|p1: int, p2: int|
                        0 <= p1 < p2 < oi.len() && oi.filter(lp)[li] == oi[p1] && oi.filter(
                            lp,
                        )[lj] == oi[p2];
                    assert(oi[p1].id != oi[p2].id);
                } else {
                    assert(oi.filter(lp)[lj] == s2.workspaces@[wj].project_links@[lj]);
                    assert(oi.filter(lp)[li] == s2.workspaces@[wi].project_links@[li]);
                    let (p1, p2) = choose|p1: int, p2: int|
                        0 <= p1 < p2 < oi.len() && oi.filter(lp)[lj] == oi[p1] && oi.filter(
                            lp,
                        )[li] == oi[p2];
                    assert(oi[p1].id != oi[p2].id);
                }
            } else {
                assert(oi.filter(lp)[li] == s2.workspaces@[wi].project_links@[li]);
                assert(oj.filter(lp)[lj] == s2.workspaces@[wj].project_links@[lj]);
                let p1 = choose|p1: int| 0 <= p1 < oi.len() && oi.filter(lp)[li] == oi[p1];
                let p2 = choose|p2: int| 0 <= p2 < oj.len() && oj.filter(lp)[lj] == oj[p2];
                assert(oi[p1].id != oj[p2].id);
            }
        }
        match s1.group_project {
            Some(g1) => {
                let g2 = s2.group_project->Some_0;
                let og = g1.project_links@;
                let ng = g2.project_links@;
                lemma_filter_subsequence(og, lp);
                assert forall|li: int, lj: int| 0 <= li < lj < ng.len() implies (
                #[trigger] ng[li]).id != (#[trigger] ng[lj]).id by {
                    assert(og.filter(lp)[li] == ng[li]);
                    assert(og.filter(lp)[lj] == ng[lj]);
                    let (p1, p2) = choose|p1: int, p2: int|
                        0 <= p1 < p2 < og.len() && og.filter(lp)[li] == og[p1] && og.filter(
                            lp,
                        )[lj] == og[p2];
                    assert(og[p1].id != og[p2].id);
                }
                assert forall|wi: int, li: int, lj: int|
                    0 <= wi < s2.workspaces@.len() && 0 <= li
                        < s2.workspaces@[wi].project_links@.len() && 0 <= lj < ng.len() implies (
                #[trigger] s2.workspaces@[wi].project_links@[li]).id != (#[trigger] ng[lj]).id by {
                    let oi = s1.workspaces@[wi].project_links@;
                    lemma_filter_subsequence(oi, lp);
                    assert(oi.filter(lp)[li] == s2.workspaces@[wi].project_links@[li]);
                    assert(og.filter(lp)[lj] == ng[lj]);
                    let p1 = choose|p1: int| 0 <= p1 < oi.len() && oi.filter(lp)[li] == oi[p1];
                    let p2 = choose|p2: int| 0 <= p2 < og.len() && og.filter(lp)[lj] == og[p2];
                    assert(oi[p1].id != og[p2].id);
                }
            },
            None => {},
        }
        // Remaining links reference remaining projects, ranks stay well
        // formed, ids stay bounded.
        assert forall|wi: int, li: int|
            0 <= wi < s2.workspaces@.len() && 0 <= li
                < s2.workspaces@[wi].project_links@.len() implies has_project(
            &s2,
            (#[trigger] s2.workspaces@[wi].project_links@[li]).project_id,
        ) && s2.workspaces@[wi].project_links@[li].id <= s2.id_counter
            && s2.workspaces@[wi].project_links@[li].sort_rank.wf() by {
            let o = s1.workspaces@[wi].project_links@;
            lemma_filter_subsequence(o, lp);
            assert(o.filter(lp)[li] == s2.workspaces@[wi].project_links@[li]);
            o.lemma_filter_pred(lp, li);
            let p = choose|p: int| 0 <= p < o.len() && o.filter(lp)[li] == o[p];
            assert(o[p] == s1.workspaces@[wi].project_links@[p]);
            assert(has_project(&s1, o[p].project_id));
            assert(s1.workspaces@[wi].ranks_wf());
        }
        match s1.group_project {
            Some(g1) => {
                let g2 = s2.group_project->Some_0;
                let og = g1.project_links@;
                let ng = g2.project_links@;
                lemma_filter_subsequence(og, lp);
                assert forall|li: int| 0 <= li < ng.len() implies has_project(
                    &s2,
                    (#[trigger] ng[li]).project_id,
                ) && ng[li].id <= s2.id_counter && ng[li].sort_rank.wf() by {
                    assert(og.filter(lp)[li] == ng[li]);
                    og.lemma_filter_pred(lp, li);
                    let p = choose|p: int| 0 <= p < og.len() && og.filter(lp)[li] == og[p];
                    assert(has_project(&s1, og[p].project_id));
                    assert(g1.ranks_wf());
                }
            },
            None => {},
        }
        // No survivor is orphaned: its old link avoided the removed project
        // and so survives the filtering of its container.
        assert forall|pi: int| 0 <= pi < nps.len() implies spec_can_find_any_links(
            &s2,
            (#[trigger] nps[pi]).id,
        ) by {
            let pid = nps[pi].id;
            assert(ops.filter(pp)[pi] == nps[pi]);
            let j = choose|j: int| 0 <= j < ops.len() && ops.filter(pp)[pi] == ops[j];
            assert(spec_can_find_any_links(&s1, pid));
            if exists|wi: int|
                0 <= wi < s1.workspaces@.len() && (#[trigger] s1.workspaces@[wi]).links_project(
                    pid,
                ) {
                let wi = choose|wi: int|
                    0 <= wi < s1.workspaces@.len() && (
                    #[trigger] s1.workspaces@[wi]).links_project(pid);
                let o = s1.workspaces@[wi].project_links@;
                let li = choose|li: int| 0 <= li < o.len() && o[li].project_id == pid;
                assert(lp(o[li]));
                o.lemma_filter_contains(lp, li);
                assert(s2.workspaces@[wi].project_links@.contains(o[li]));
                let k = choose|k: int|
                    0 <= k < s2.workspaces@[wi].project_links@.len()
                        && s2.workspaces@[wi].project_links@[k] == o[li];
                assert(s2.workspaces@[wi].links_project(pid));
            } else {
                let g1 = s1.group_project->Some_0;
                let og = g1.project_links@;
                let li = choose|li: int| 0 <= li < og.len() && og[li].project_id == pid;
                assert(lp(og[li]));
                og.lemma_filter_contains(lp, li);
                let g2 = s2.group_project->Some_0;
                assert(g2.project_links@.contains(og[li]));
                let k = choose|k: int|
                    0 <= k < g2.project_links@.len() && g2.project_links@[k] == og[li];
                assert(g2.links_project(pid));
            }
        }
    } else {
        // Containers are untouched; the removed project had no links, so
        // every link still references a surviving project, and every
        // survivor keeps its links.
        assert forall|wi: int, li: int|
            0 <= wi < s2.workspaces@.len() && 0 <= li
                < s2.workspaces@[wi].project_links@.len() implies has_project(
            &s2,
            (#[trigger] s2.workspaces@[wi].project_links@[li]).project_id,
        ) by {
            let l = s2.workspaces@[wi].project_links@[li];
            assert(s1.workspaces@[wi].project_links@[li] == l);
            assert(has_project(&s1, l.project_id));
            if l.project_id == project_id {
                assert(s1.workspaces@[wi].links_project(project_id));
            }
            assert(l.project_id != project_id);
        }
        match s2.group_project {
            Some(g2) => {
                assert forall|li: int| 0 <= li < g2.project_links@.len() implies has_project(
                    &s2,
                    (#[trigger] g2.project_links@[li]).project_id,
                ) by {
                    let l = g2.project_links@[li];
                    let g1 = s1.group_project->Some_0;
                    assert(g1.project_links@[li] == l);
                    assert(has_project(&s1, l.project_id));
                    if l.project_id == project_id {
                        assert(g1.links_project(project_id));
                    }
                    assert(l.project_id != project_id);
                }
            },
            None => {},
        }
        assert forall|pi: int| 0 <= pi < nps.len() implies spec_can_find_any_links(
            &s2,
            (#[trigger] nps[pi]).id,
        ) by {
            let pid = nps[pi].id;
            assert(ops.filter(pp)[pi] == nps[pi]);
            let j = choose|j: int| 0 <= j < ops.len() && ops.filter(pp)[pi] == ops[j];
            assert(spec_can_find_any_links(&s1, pid));
        }
    }
    // The surviving selection still points at a surviving project.
    match s2.active_project_id {
        Some(x) => {
            assert(s1.active_project_id == Some(x));
            assert(x != project_id);
            assert(has_project(&s1, x));
            assert(has_project(&s2, x));
        },
        None => {},
    }
    assert(projects_unique(&s2));
    assert(workspaces_unique(&s2));
    assert(links_unique(&s2));
    assert(links_valid(&s2));
    assert(no_orphans(&s2));
    assert(ids_bounded(&s2));
    assert(active_valid(&s2));
    assert(ranks_wf(&s2));
}

impl ProjectsData {
    /// Where the link with the given id sits, if anywhere.
    fn find_link_location(&self, link_id: usize) -> (result: LinkLocation)
        ensures
            result matches LinkLocation::InWorkspace(wi, li) ==> (wi as int)
                < self.workspaces@.len() && (li as int)
                < self.workspaces@[wi as int].project_links@.len()
                && self.workspaces@[wi as int].project_links@[li as int].id == link_id,
            result matches LinkLocation::InGroup(li) ==> (self.group_project matches Some(g) && (
            li as int) < g.project_links@.len() && g.project_links@[li as int].id == link_id),
            result is Nowhere ==> !has_link_anywhere(self, link_id),
    {
        let mut wi: usize = 0;
        while wi < self.workspaces.len()
            invariant
                wi <= self.workspaces@.len(),
                forall|j: int| 0 <= j < wi ==> !(#[trigger] self.workspaces@[j]).has_link(link_id),
            decreases self.workspaces@.len() - wi,
        {
            match find_link_index(&self.workspaces[wi].project_links, link_id) {
                Some(li) => {
                    return LinkLocation::InWorkspace(wi, li);
                },
                None => {
                    proof {
                        assert(!self.workspaces@[wi as int].has_link(link_id));
                    }
                },
            }
            wi += 1;
        }
        match &self.group_project {
            Some(group) => {
                match find_link_index(&group.project_links, link_id) {
                    Some(li) => LinkLocation::InGroup(li),
                    None => {
                        proof {
                            assert(!self.group_project->Some_0.has_link(link_id));
                        }
                        LinkLocation::Nowhere
                    },
                }
            },
            None => LinkLocation::Nowhere,
        }
    }

    /// Removes the workspace with the given id and cascades orphan cleanup
    /// over every project that was only reachable through it. A workspace id
    /// the store lacks leaves it untouched.
    pub fn remove_workspace(&mut self, workspace_id: usize)
        requires
            old(self).wf(),
        ensures
            final(self).wf(),
            !has_workspace(old(self), workspace_id) ==> *final(self) == *old(self),
            has_workspace(old(self), workspace_id) ==> remove_workspace_shape(
                *old(self),
                *final(self),
                workspace_id,
            ),
    {
        let ghost s1 = *old(self);
        let wsi = match self.find_workspace_index(workspace_id) {
            Some(wsi) => wsi,
            None => {
                return ;
            },
        };
        self.workspaces.remove(wsi);
        let ghost mid = *self;
        proof {
            let ws1 = s1.workspaces@;
            let wp = other_workspace(workspace_id);
            assert forall|k: int| 0 <= k < ws1.len() && k != wsi implies wp(#[trigger] ws1[k]) by {
                if k < wsi {
                    assert(ws1[k].id != ws1[wsi as int].id);
                } else {
                    assert(ws1[wsi as int].id != ws1[k].id);
                }
            }
            lemma_filter_skips_one(ws1, wp, wsi as int);
            assert(mid.workspaces@ == ws1.remove(wsi as int));
            // Index mapping between the shrunk list and the full one.
            assert forall|k: int| 0 <= k < mid.workspaces@.len() implies #[trigger] mid.workspaces@[k]
                == if k < wsi {
                ws1[k]
            } else {
                ws1[k + 1]
            } by {
                assert(ws1.remove(wsi as int)[k] == if k < wsi {
                    ws1[k]
                } else {
                    ws1[k + 1]
                });
            }
            // The structural invariants survive dropping a workspace.
            assert forall|i: int, j: int| 0 <= i < j < mid.workspaces@.len() implies (
            #[trigger] mid.workspaces@[i]).id != (#[trigger] mid.workspaces@[j]).id by {
                let i1 = if i < wsi { i } else { i + 1 };
                let j1 = if j < wsi { j } else { j + 1 };
                assert(ws1[i1].id != ws1[j1].id);
            }
            assert forall|wi: int, li: int, wj: int, lj: int|
                0 <= wi < mid.workspaces@.len() && 0 <= li
                    < mid.workspaces@[wi].project_links@.len() && 0 <= wj < mid.workspaces@.len()
                    && 0 <= lj < mid.workspaces@[wj].project_links@.len() && (wi != wj || li != lj)
                    implies (#[trigger] mid.workspaces@[wi].project_links@[li]).id != (
            #[trigger] mid.workspaces@[wj].project_links@[lj]).id by {
                let i1 = if wi < wsi { wi } else { wi + 1 };
                let j1 = if wj < wsi { wj } else { wj + 1 };
                assert(ws1[i1].project_links@[li].id != ws1[j1].project_links@[lj].id);
            }
            assert forall|wi: int, li: int|
                0 <= wi < mid.workspaces@.len() && 0 <= li
                    < mid.workspaces@[wi].project_links@.len() implies has_project(
                &mid,
                (#[trigger] mid.workspaces@[wi].project_links@[li]).project_id,
            ) && mid.workspaces@[wi].project_links@[li].id <= mid.id_counter by {
                let i1 = if wi < wsi { wi } else { wi + 1 };
                assert(has_project(&s1, ws1[i1].project_links@[li].project_id));
            }
            match mid.group_project {
                Some(g) => {
                    assert forall|wi: int, li: int, lj: int|
                        0 <= wi < mid.workspaces@.len() && 0 <= li
                            < mid.workspaces@[wi].project_links@.len() && 0 <= lj
                            < g.project_links@.len() implies (
                    #[trigger] mid.workspaces@[wi].project_links@[li]).id != (
                    #[trigger] g.project_links@[lj]).id by {
                        let i1 = if wi < wsi { wi } else { wi + 1 };
                        assert(ws1[i1].project_links@[li].id != g.project_links@[lj].id);
                    }
                },
                None => {},
            }
            assert forall|wi: int| 0 <= wi < mid.workspaces@.len() implies (
            #[trigger] mid.workspaces@[wi]).ranks_wf() && mid.workspaces@[wi].id
                <= mid.id_counter by {
                let i1 = if wi < wsi { wi } else { wi + 1 };
                assert(ws1[i1].ranks_wf());
            }
            assert(wf_core(&mid));
            // Being linked in the shrunk store is being linked outside the
            // removed workspace.
            assert forall|pid: usize| #[trigger] spec_can_find_any_links(&mid, pid)
                == linked_outside_workspace(&s1, workspace_id, pid) by {
                if spec_can_find_any_links(&mid, pid) {
                    if exists|wi: int|
                        0 <= wi < mid.workspaces@.len() && (
                        #[trigger] mid.workspaces@[wi]).links_project(pid) {
                        let wi = choose|wi: int|
                            0 <= wi < mid.workspaces@.len() && (
                            #[trigger] mid.workspaces@[wi]).links_project(pid);
                        let i1 = if wi < wsi { wi } else { wi + 1 };
                        assert(ws1[i1].id != workspace_id);
                        assert(ws1[i1].links_project(pid));
                        assert(linked_outside_workspace(&s1, workspace_id, pid));
                    }
                }
                if linked_outside_workspace(&s1, workspace_id, pid) {
                    if exists|wi: int|
                        0 <= wi < ws1.len() && (#[trigger] ws1[wi]).id != workspace_id
                            && ws1[wi].links_project(pid) {
                        let wi = choose|wi: int|
                            0 <= wi < ws1.len() && (#[trigger] ws1[wi]).id != workspace_id
                                && ws1[wi].links_project(pid);
                        assert(wi != wsi);
                        let k = if wi < wsi { wi } else { wi - 1 };
                        assert(mid.workspaces@[k] == ws1[wi]);
                        assert(mid.workspaces@[k].links_project(pid));
                        assert(spec_can_find_any_links(&mid, pid));
                    }
                }
            }
        }
        self.prune_orphans();
        proof {
            lemma_filter_congruence(
                mid.projects@,
                linked_project(mid),
                linked_outside_workspace_pred(s1, workspace_id),
            );
        }
    }

    /// Clears the optional group project and prunes every project now
    /// unreachable from any workspace, clearing the selection when its
    /// project went.
    pub fn remove_group_project(&mut self)
        requires
            old(self).wf(),
        ensures
            final(self).wf(),
            final(self).id_counter == old(self).id_counter,
            final(self).workspaces == old(self).workspaces,
            final(self).group_project is None,
            final(self).projects@ == old(self).projects@.filter(
                linked_in_some_workspace_pred(*old(self)),
            ),
            final(self).active_project_id == if (old(self).active_project_id matches Some(a)
                && !linked_in_some_workspace(old(self), a)) {
                None::<usize>
            } else {
                old(self).active_project_id
            },
    {
        let ghost s1 = *old(self);
        self.group_project = None;
        let ghost mid = *self;
        proof {
            assert(wf_core(&mid));
            assert forall|pid: usize| #[trigger] spec_can_find_any_links(&mid, pid)
                == linked_in_some_workspace(&s1, pid) by {
                if spec_can_find_any_links(&mid, pid) {
                    let wi = choose|wi: int|
                        0 <= wi < mid.workspaces@.len() && (
                        #[trigger] mid.workspaces@[wi]).links_project(pid);
                    assert(s1.workspaces@[wi].links_project(pid));
                }
                if linked_in_some_workspace(&s1, pid) {
                    let wi = choose|wi: int|
                        0 <= wi < s1.workspaces@.len() && (
                        #[trigger] s1.workspaces@[wi]).links_project(pid);
                    assert(mid.workspaces@[wi].links_project(pid));
                }
            }
        }
        self.prune_orphans();
        proof {
            lemma_filter_congruence(
                mid.projects@,
                linked_project(mid),
                linked_in_some_workspace_pred(s1),
            );
        }
    }

    /// Deletes every project that no link anywhere references, clearing the
    /// selection when its project goes: the orphan garbage collection shared
    /// by the removal operations.
    fn prune_orphans(&mut self)
        ensures
            final(self).id_counter == old(self).id_counter,
            final(self).workspaces == old(self).workspaces,
            final(self).group_project == old(self).group_project,
            final(self).projects@ == old(self).projects@.filter(linked_project(*old(self))),
            final(self).active_project_id == if (old(self).active_project_id matches Some(a)
                && !spec_can_find_any_links(old(self), a)) {
                None::<usize>
            } else {
                old(self).active_project_id
            },
            wf_core(old(self)) ==> final(self).wf(),
    {
        let ghost s1 = *old(self);
        let ghost orig = old(self).projects@;
        let ghost pred = linked_project(s1);
        proof {
            reveal(Seq::filter);
            assert(orig.take(0) =~= Seq::<Project>::empty());
        }
        let mut i: usize = 0;
        let ghost mut j: int = 0;
        while i < self.projects.len()
            invariant
                0 <= j <= orig.len(),
                pred == linked_project(s1),
                orig == s1.projects@,
                self.id_counter == s1.id_counter,
                self.workspaces == s1.workspaces,
                self.group_project == s1.group_project,
                self.active_project_id == s1.active_project_id,
                self.projects@ == orig.take(j).filter(pred) + orig.skip(j),
                i == orig.take(j).filter(pred).len(),
            decreases self.projects@.len() - i,
        {
            proof {
                lemma_filter_take_step(orig, pred, j);
                assert(self.projects@[i as int] == orig.skip(j)[0]);
                assert(orig.skip(j)[0] == orig[j]);
            }
            let pid = self.projects[i].id;
            if !can_find_links_in(&self.workspaces, &self.group_project, pid) {
                proof {
                    assert(!spec_can_find_any_links(&s1, pid));
                    assert(!pred(orig[j]));
                }
                self.projects.remove(i);
                proof {
                    assert(self.projects@ =~= orig.take(j + 1).filter(pred) + orig.skip(j + 1));
                    j = j + 1;
                }
            } else {
                proof {
                    assert(spec_can_find_any_links(&s1, pid));
                    assert(pred(orig[j]));
                    assert(self.projects@ =~= orig.take(j + 1).filter(pred) + orig.skip(j + 1));
                    j = j + 1;
                }
                i += 1;
            }
        }
        proof {
            assert(orig.skip(j).len() == 0);
            assert(orig.take(j) =~= orig);
            assert(self.projects@ =~= orig.filter(pred));
        }
        match self.active_project_id {
            Some(active) => {
                if !can_find_links_in(&self.workspaces, &self.group_project, active) {
                    self.active_project_id = None;
                }
            },
            None => {},
        }
        proof {
            if wf_core(&s1) {
                let f = self.projects@;
                lemma_filter_subsequence(orig, pred);
                assert forall|a: int, b: int| 0 <= a < b < f.len() implies (#[trigger] f[a]).id != (
                #[trigger] f[b]).id by {
                    assert(orig.filter(pred)[a] == f[a]);
                    assert(orig.filter(pred)[b] == f[b]);
                    let (j1, j2) = choose|j1: int, j2: int|
                        0 <= j1 < j2 < orig.len() && orig.filter(pred)[a] == orig[j1]
                            && orig.filter(pred)[b] == orig[j2];
                    assert(orig[j1].id != orig[j2].id);
                }
                assert forall|a: int| 0 <= a < f.len() implies (#[trigger] f[a]).id
                    <= self.id_counter by {
                    assert(orig.filter(pred)[a] == f[a]);
                    let j1 = choose|j1: int| 0 <= j1 < orig.len() && orig.filter(pred)[a] == orig[j1];
                    assert(orig[j1].id <= s1.id_counter);
                }
                // Every project that some link references was kept.
                assert forall|pid: usize| spec_can_find_any_links(&s1, pid) && has_project(
                    &s1,
                    pid,
                ) implies has_project(self, pid) by {
                    let j1 = choose|j1: int| 0 <= j1 < orig.len() && orig[j1].id == pid;
                    assert(pred(orig[j1]));
                    orig.lemma_filter_contains(pred, j1);
                    assert(f.contains(orig[j1]));
                    let k = choose|k: int| 0 <= k < f.len() && f[k] == orig[j1];
                }
                assert forall|wi: int, li: int|
                    0 <= wi < self.workspaces@.len() && 0 <= li
                        < self.workspaces@[wi].project_links@.len() implies has_project(
                    self,
                    (#[trigger] self.workspaces@[wi].project_links@[li]).project_id,
                ) by {
                    let q = self.workspaces@[wi].project_links@[li].project_id;
                    assert(s1.workspaces@[wi].project_links@[li].project_id == q);
                    assert(has_project(&s1, q));
                    assert(s1.workspaces@[wi].links_project(q));
                    assert(spec_can_find_any_links(&s1, q));
                }
                match &self.group_project {
                    Some(g) => {
                        assert forall|li: int| 0 <= li < g.project_links@.len() implies has_project(
                            self,
                            (#[trigger] g.project_links@[li]).project_id,
                        ) by {
                            let q = g.project_links@[li].project_id;
                            assert(s1.group_project->Some_0.project_links@[li].project_id == q);
                            assert(has_project(&s1, q));
                            assert(s1.group_project->Some_0.links_project(q));
                            assert(spec_can_find_any_links(&s1, q));
                        }
                    },
                    None => {},
                }
                assert forall|pi: int| 0 <= pi < f.len() implies spec_can_find_any_links(
                    self,
                    (#[trigger] f[pi]).id,
                ) by {
                    orig.lemma_filter_pred(pred, pi);
                    assert(spec_can_find_any_links(&s1, f[pi].id));
                }
                match self.active_project_id {
                    Some(a) => {
                        assert(spec_can_find_any_links(&s1, a));
                        assert(has_project(&s1, a));
                        assert(has_project(self, a));
                    },
                    None => {},
                }
                assert(self.wf());
            }
        }
    }

    /// Creates a project from the given file path inside the given
    /// workspace: the path is classified by its extension, the project
    /// appended, and a link to it appended to the workspace with the
    /// default rank. Fails with `NotFound` for an unknown workspace and
    /// with `Unsupported` for an unrecognized file kind, leaving the store
    /// untouched either way.
    pub fn new_project(&mut self, file_path: &String, workspace_id: usize) -> (result: Result<
        (),
        StoreError,
    >)
        requires
            old(self).wf(),
            old(self).id_counter + 2 <= usize::MAX,
        ensures
            final(self).wf(),
            result == Err::<(), StoreError>(StoreError::NotFound) <==> !has_workspace(
                old(self),
                workspace_id,
            ),
            result == Err::<(), StoreError>(StoreError::Unsupported) <==> has_workspace(
                old(self),
                workspace_id,
            ) && project_kind_of(file_path@) == ProjectKind::Unknown,
            result is Ok <==> has_workspace(old(self), workspace_id) && project_kind_of(file_path@)
                != ProjectKind::Unknown,
            result is Err ==> *final(self) == *old(self),
            result is Ok ==> new_project_shape(*old(self), *final(self), file_path@, workspace_id),
    {
        let ghost s1 = *old(self);
        let project_id = self.id_counter + 1;
        let link_id = self.id_counter + 2;
        let wsi = match self.find_workspace_index(workspace_id) {
            Some(wsi) => wsi,
            None => {
                return Err(StoreError::NotFound);
            },
        };
        let kind = classify_project_path(file_path.as_str());
        let name = file_stem(file_path.as_str());
        let directory = parent_dir(file_path.as_str());
        let project = match kind {
            ProjectKind::Description => Project {
                id: project_id,
                name,
                directory,
                dproj: Some(file_path.clone()),
                dpr: None,
                dpk: None,
                exe: None,
                ini: None,
            },
            ProjectKind::Program => Project {
                id: project_id,
                name,
                directory,
                dproj: None,
                dpr: Some(file_path.clone()),
                dpk: None,
                exe: None,
                ini: None,
            },
            ProjectKind::Package => Project {
                id: project_id,
                name,
                directory,
                dproj: None,
                dpr: None,
                dpk: Some(file_path.clone()),
                exe: None,
                ini: None,
            },
            ProjectKind::Unknown => {
                return Err(StoreError::Unsupported);
            },
        };
        self.projects.push(project);
        let workspace = &mut self.workspaces[wsi];
        let ghost w1 = *workspace;
        workspace.project_links.push(
            ProjectLink { id: link_id, project_id, sort_rank: LexoRank::default() },
        );
        self.id_counter = self.id_counter + 2;
        proof {
            assert(self.projects@.take(s1.projects@.len() as int) =~= s1.projects@);
            assert(self.workspaces@[wsi as int].project_links@.take(
                w1.project_links@.len() as int,
            ) =~= w1.project_links@);
            assert forall|wi: int|
                0 <= wi < s1.workspaces@.len() && (#[trigger] s1.workspaces@[wi]).id
                    == workspace_id implies wi == wsi by {
                if wi != wsi {
                    assert(s1.workspaces@[wi].id != s1.workspaces@[wsi as int].id);
                }
            }
            assert(new_project_shape(s1, *self, file_path@, workspace_id));
            lemma_new_project_preserves(s1, *self, file_path@, workspace_id);
        }
        Ok(())
    }

    /// Selects the project with the given id; an id the store lacks fails
    /// with `NotFound` and changes nothing.
    pub fn select_project(&mut self, project_id: usize) -> (result: Result<(), StoreError>)
        requires
            old(self).wf(),
        ensures
            final(self).wf(),
            result == Err::<(), StoreError>(StoreError::NotFound) <==> !has_project(
                old(self),
                project_id,
            ),
            result is Ok <==> has_project(old(self), project_id),
            result is Err ==> *final(self) == *old(self),
            result is Ok ==> *final(self) == (ProjectsData {
                active_project_id: Some(project_id),
                ..*old(self)
            }),
    {
        match self.find_project_index(project_id) {
            Some(i) => {
                self.active_project_id = Some(project_id);
                proof {
                    assert(self.projects@[i as int].id == project_id);
                    assert(has_project(self, project_id));
                }
                Ok(())
            },
            None => Err(StoreError::NotFound),
        }
    }

    /// Applies the present fields of the partial update to the project with
    /// the given id; an id the store lacks fails with `NotFound` and
    /// changes nothing.
    pub fn update_project(&mut self, project_id: usize, data: &ProjectUpdateData) -> (result:
        Result<(), StoreError>)
        requires
            old(self).wf(),
        ensures
            final(self).wf(),
            result == Err::<(), StoreError>(StoreError::NotFound) <==> !has_project(
                old(self),
                project_id,
            ),
            result is Ok <==> has_project(old(self), project_id),
            result is Err ==> *final(self) == *old(self),
            result is Ok ==> update_project_fields_shape(
                *old(self),
                *final(self),
                project_id,
                *data,
            ),
    {
        let pi = match self.find_project_index(project_id) {
            Some(pi) => pi,
            None => {
                return Err(StoreError::NotFound);
            },
        };
        let ghost s1 = *old(self);
        let project = &mut self.projects[pi];
        match &data.name {
            Some(name) => {
                project.name = name.clone();
            },
            None => {},
        }
        match &data.directory {
            Some(directory) => {
                project.directory = directory.clone();
            },
            None => {},
        }
        match &data.dproj {
            Some(dproj) => {
                project.dproj = Some(dproj.clone());
            },
            None => {},
        }
        match &data.dpr {
            Some(dpr) => {
                project.dpr = Some(dpr.clone());
            },
            None => {},
        }
        match &data.dpk {
            Some(dpk) => {
                project.dpk = Some(dpk.clone());
            },
            None => {},
        }
        match &data.exe {
            Some(exe) => {
                project.exe = Some(exe.clone());
            },
            None => {},
        }
        match &data.ini {
            Some(ini) => {
                project.ini = Some(ini.clone());
            },
            None => {},
        }
        proof {
            assert forall|i: int|
                0 <= i < s1.projects@.len() && (#[trigger] s1.projects@[i]).id
                    == project_id implies i == pi by {
                if i != pi {
                    if i < pi {
                        assert(s1.projects@[i].id != s1.projects@[pi as int].id);
                    } else {
                        assert(s1.projects@[pi as int].id != s1.projects@[i].id);
                    }
                }
            }
            lemma_same_project_ids_wf(s1, *self);
        }
        Ok(())
    }

    /// Places an existing project in an existing workspace through a fresh
    /// link appended at the end; a missing project or workspace fails with
    /// `NotFound` and changes nothing.
    pub fn add_project_link(&mut self, project_id: usize, workspace_id: usize) -> (result: Result<
        (),
        StoreError,
    >)
        requires
            old(self).wf(),
            old(self).id_counter < usize::MAX,
        ensures
            final(self).wf(),
            result == Err::<(), StoreError>(StoreError::NotFound) <==> !(has_project(
                old(self),
                project_id,
            ) && has_workspace(old(self), workspace_id)),
            result is Ok <==> has_project(old(self), project_id) && has_workspace(
                old(self),
                workspace_id,
            ),
            result is Err ==> *final(self) == *old(self),
            result is Ok ==> add_link_shape(*old(self), *final(self), project_id, workspace_id),
    {
        let ghost s1 = *old(self);
        if self.find_project_index(project_id).is_none() {
            return Err(StoreError::NotFound);
        }
        let wsi = match self.find_workspace_index(workspace_id) {
            Some(wsi) => wsi,
            None => {
                return Err(StoreError::NotFound);
            },
        };
        let link_id = self.next_id();
        let workspace = &mut self.workspaces[wsi];
        proof {
            assert(s1.workspaces@[wsi as int].ranks_wf());
        }
        workspace.new_project_link(link_id, project_id);
        proof {
            assert forall|wi: int|
                0 <= wi < s1.workspaces@.len() && (#[trigger] s1.workspaces@[wi]).id
                    == workspace_id implies wi == wsi by {
                if wi != wsi {
                    assert(s1.workspaces@[wi].id != s1.workspaces@[wsi as int].id);
                }
            }
            lemma_add_link_preserves(s1, *self, project_id, workspace_id, wsi as int);
        }
        Ok(())
    }

    /// Appends a new workspace named for the given compiler key: its rank is
    /// the successor of the current last workspace's rank, or the default
    /// middle rank for a store without workspaces — new workspaces go to the
    /// end. An unknown compiler key fails with `NotFound` and changes
    /// nothing.
    pub fn new_workspace(
        &mut self,
        name: &String,
        compiler: &String,
        registry: &CompilerRegistry,
    ) -> (result: Result<(), StoreError>)
        requires
            old(self).wf(),
            old(self).id_counter < usize::MAX,
        ensures
            final(self).wf(),
            result == Err::<(), StoreError>(StoreError::NotFound) <==> !registry.spec_contains(
                compiler@,
            ),
            result is Ok <==> registry.spec_contains(compiler@),
            result is Err ==> *final(self) == *old(self),
            result is Ok ==> add_workspace_shape(*old(self), *final(self), name@, compiler@),
    {
        let ghost s1 = *old(self);
        if !registry.contains(compiler) {
            return Err(StoreError::NotFound);
        }
        let workspace_id = self.next_id();
        let sort_rank = if self.workspaces.len() > 0 {
            let last = &self.workspaces[self.workspaces.len() - 1];
            proof {
                assert(s1.workspaces@.last().ranks_wf());
            }
            last.sort_rank.next()
        } else {
            LexoRank::default()
        };
        let workspace = Workspace {
            id: workspace_id,
            name: name.clone(),
            compiler_id: compiler.clone(),
            project_links: Vec::new(),
            sort_rank,
        };
        self.workspaces.push(workspace);
        proof {
            assert(self.workspaces@.take(s1.workspaces@.len() as int) =~= s1.workspaces@);
            lemma_append_workspace_preserves(s1, *self);
        }
        Ok(())
    }

    /// Applies the present fields of the partial update to the workspace
    /// with the given id, re-validating the compiler key when it changes. A
    /// missing workspace or unknown key fails with `NotFound` and changes
    /// nothing.
    pub fn update_workspace(
        &mut self,
        workspace_id: usize,
        data: &WorkspaceUpdateData,
        registry: &CompilerRegistry,
    ) -> (result: Result<(), StoreError>)
        requires
            old(self).wf(),
        ensures
            final(self).wf(),
            result == Err::<(), StoreError>(StoreError::NotFound) <==> !(has_workspace(
                old(self),
                workspace_id,
            ) && (data.compiler matches Some(c) ==> registry.spec_contains(c@))),
            result is Ok <==> has_workspace(old(self), workspace_id) && (
            data.compiler matches Some(c) ==> registry.spec_contains(c@)),
            result is Err ==> *final(self) == *old(self),
            result is Ok ==> update_workspace_fields_shape(
                *old(self),
                *final(self),
                workspace_id,
                *data,
            ),
    {
        let ghost s1 = *old(self);
        let wsi = match self.find_workspace_index(workspace_id) {
            Some(wsi) => wsi,
            None => {
                return Err(StoreError::NotFound);
            },
        };
        match &data.compiler {
            Some(compiler) => {
                if !registry.contains(compiler) {
                    return Err(StoreError::NotFound);
                }
            },
            None => {},
        }
        let workspace = &mut self.workspaces[wsi];
        match &data.name {
            Some(name) => {
                workspace.name = name.clone();
            },
            None => {},
        }
        match &data.compiler {
            Some(compiler) => {
                workspace.compiler_id = compiler.clone();
            },
            None => {},
        }
        proof {
            assert forall|wi: int|
                0 <= wi < s1.workspaces@.len() && (#[trigger] s1.workspaces@[wi]).id
                    == workspace_id implies wi == wsi by {
                if wi != wsi {
                    assert(s1.workspaces@[wi].id != s1.workspaces@[wsi as int].id);
                }
            }
            assert forall|wi: int| 0 <= wi < s1.workspaces@.len() implies (
            #[trigger] self.workspaces@[wi]).sort_rank.wf() by {
                if wi != wsi {
                    assert(self.workspaces@[wi] == s1.workspaces@[wi]);
                }
                assert(s1.workspaces@[wi].ranks_wf());
                assert(self.workspaces@[wi].sort_rank == s1.workspaces@[wi].sort_rank);
            }
            lemma_same_workspace_structure_wf(s1, *self);
        }
        Ok(())
    }

    /// Moves the link with the given id to a position strictly between the
    /// two given neighbour ranks, wherever the link sits. A link id no
    /// container holds fails with `NotFound`; misordered or equal
    /// neighbours fail with `InvalidRank`; either failure changes nothing.
    pub fn move_project_link(
        &mut self,
        project_link_id: usize,
        previous: &LexoRank,
        next_rank: &LexoRank,
    ) -> (result: Result<(), StoreError>)
        requires
            old(self).wf(),
            previous.wf(),
            next_rank.wf(),
        ensures
            final(self).wf(),
            result == Err::<(), StoreError>(StoreError::NotFound) <==> !has_link_anywhere(
                old(self),
                project_link_id,
            ),
            result == Err::<(), StoreError>(StoreError::InvalidRank) <==> has_link_anywhere(
                old(self),
                project_link_id,
            ) && !symbols_lt(previous.spec_rank(), next_rank.spec_rank()),
            result is Ok <==> has_link_anywhere(old(self), project_link_id) && symbols_lt(
                previous.spec_rank(),
                next_rank.spec_rank(),
            ),
            result is Err ==> *final(self) == *old(self),
            result is Ok ==> move_link_shape(
                *old(self),
                *final(self),
                project_link_id,
                *previous,
                *next_rank,
            ),
    {
        let ghost s1 = *old(self);
        match self.find_link_location(project_link_id) {
            LinkLocation::InWorkspace(wi, li) => {
                let between = match previous.between(next_rank) {
                    Some(between) => between,
                    None => {
                        return Err(StoreError::InvalidRank);
                    },
                };
                let workspace = &mut self.workspaces[wi];
                let link = &mut workspace.project_links[li];
                link.sort_rank = between;
                proof {
                    lemma_move_link_wf(s1, *self, project_link_id, *previous, *next_rank);
                }
                Ok(())
            },
            LinkLocation::InGroup(li) => {
                let between = match previous.between(next_rank) {
                    Some(between) => between,
                    None => {
                        return Err(StoreError::InvalidRank);
                    },
                };
                match &mut self.group_project {
                    Some(group) => {
                        let link = &mut group.project_links[li];
                        link.sort_rank = between;
                    },
                    None => {
                        proof {
                            assert(false);
                        }
                    },
                }
                proof {
                    lemma_move_link_wf(s1, *self, project_link_id, *previous, *next_rank);
                }
                Ok(())
            },
            LinkLocation::Nowhere => Err(StoreError::NotFound),
        }
    }

    /// Moves the workspace with the given id to a position strictly between
    /// the two given neighbour ranks. A workspace id the store lacks fails
    /// with `NotFound`; misordered or equal neighbours fail with
    /// `InvalidRank`; either failure changes nothing.
    pub fn move_workspace(
        &mut self,
        workspace_id: usize,
        previous: &LexoRank,
        next_rank: &LexoRank,
    ) -> (result: Result<(), StoreError>)
        requires
            old(self).wf(),
            previous.wf(),
            next_rank.wf(),
        ensures
            final(self).wf(),
            result == Err::<(), StoreError>(StoreError::NotFound) <==> !has_workspace(
                old(self),
                workspace_id,
            ),
            result == Err::<(), StoreError>(StoreError::InvalidRank) <==> has_workspace(
                old(self),
                workspace_id,
            ) && !symbols_lt(previous.spec_rank(), next_rank.spec_rank()),
            result is Ok <==> has_workspace(old(self), workspace_id) && symbols_lt(
                previous.spec_rank(),
                next_rank.spec_rank(),
            ),
            result is Err ==> *final(self) == *old(self),
            result is Ok ==> move_workspace_shape(
                *old(self),
                *final(self),
                workspace_id,
                *previous,
                *next_rank,
            ),
    {
        let ghost s1 = *old(self);
        let wsi = match self.find_workspace_index(workspace_id) {
            Some(wsi) => wsi,
            None => {
                return Err(StoreError::NotFound);
            },
        };
        let between = match previous.between(next_rank) {
            Some(between) => between,
            None => {
                return Err(StoreError::InvalidRank);
            },
        };
        let workspace = &mut self.workspaces[wsi];
        workspace.sort_rank = between;
        proof {
            assert forall|wi: int|
                0 <= wi < s1.workspaces@.len() && wi != wsi implies #[trigger] self.workspaces@[wi]
                    == s1.workspaces@[wi] by {}
            assert forall|wi: int|
                0 <= wi < s1.workspaces@.len() && (#[trigger] s1.workspaces@[wi]).id
                    == workspace_id implies wi == wsi by {
                if wi != wsi {
                    assert(s1.workspaces@[wi].id != s1.workspaces@[wsi as int].id);
                }
            }
            assert forall|wi: int| 0 <= wi < s1.workspaces@.len() implies (
            #[trigger] self.workspaces@[wi]).sort_rank.wf() by {
                if wi != wsi {
                    assert(self.workspaces@[wi] == s1.workspaces@[wi]);
                    assert(s1.workspaces@[wi].ranks_wf());
                }
            }
            lemma_same_workspace_structure_wf(s1, *self);
        }
        Ok(())
    }

    /// Replaces the optional group project by one read from the given group
    /// file path, reconciling the member list against the store: a member
    /// whose description path matches an existing project only gains a
    /// link; an unmatched member gains a fresh project built from the
    /// discovered paths. Projects that were only reachable through the old
    /// group and match no member are pruned. An unknown compiler key fails
    /// with `NotFound` and changes nothing; that the group file exists is
    /// the caller's concern, checked where the file is read.
    #[verifier::rlimit(100)]
    pub fn set_group_project(
        &mut self,
        groupproj_path: &String,
        compiler: &String,
        members: &Vec<GroupMember>,
        registry: &CompilerRegistry,
    ) -> (result: Result<(), StoreError>)
        requires
            old(self).wf(),
            old(self).id_counter + 2 * members@.len() <= usize::MAX,
        ensures
            final(self).wf(),
            result == Err::<(), StoreError>(StoreError::NotFound) <==> !registry.spec_contains(
                compiler@,
            ),
            result is Ok <==> registry.spec_contains(compiler@),
            result is Err ==> *final(self) == *old(self),
            result is Ok ==> set_group_shape(
                *old(self),
                *final(self),
                groupproj_path@,
                compiler@,
                members@,
            ),
    {
        let ghost s1 = *old(self);
        if !registry.contains(compiler) {
            return Err(StoreError::NotFound);
        }
        let mut group = GroupProject {
            name: file_stem(groupproj_path.as_str()),
            path: groupproj_path.clone(),
            compiler_id: compiler.clone(),
            project_links: Vec::new(),
        };
        let ghost n1 = s1.projects@.len() as int;
        let ghost mut targets: Seq<int> = Seq::empty();
        let mut k: usize = 0;
        while k < members.len()
            invariant
                s1.id_counter + 2 * members@.len() <= usize::MAX,
                k <= members@.len(),
                // The store: only projects and the counter move.
                self.workspaces == s1.workspaces,
                self.group_project == s1.group_project,
                self.active_project_id == s1.active_project_id,
                n1 == s1.projects@.len(),
                self.projects@.len() >= n1,
                self.projects@.take(n1) == s1.projects@,
                s1.id_counter <= self.id_counter <= s1.id_counter + 2 * k,
                // Project ids stay unique and bounded.
                forall|i: int, j: int|
                    0 <= i < j < self.projects@.len() ==> (#[trigger] self.projects@[i]).id != (
                    #[trigger] self.projects@[j]).id,
                forall|i: int|
                    0 <= i < self.projects@.len() ==> (#[trigger] self.projects@[i]).id
                        <= self.id_counter,
                // The group built so far: fixed identity, one link per
                // member, fresh strictly increasing link ids, each link to a
                // project carrying that member's path.
                group.name@ == stem_text(groupproj_path@),
                group.path@ == groupproj_path@,
                group.compiler_id@ == compiler@,
                group.ranks_wf(),
                group.project_links@.len() == k,
                forall|j: int|
                    0 <= j < k ==> s1.id_counter < (#[trigger] group.project_links@[j]).id
                        <= self.id_counter,
                forall|j1: int, j2: int|
                    0 <= j1 < j2 < k ==> (#[trigger] group.project_links@[j1]).id < (
                    #[trigger] group.project_links@[j2]).id,
                forall|pi: int|
                    n1 <= pi < self.projects@.len() ==> (#[trigger] self.projects@[pi]).id
                        > s1.id_counter,
                targets.len() == k,
                link_targets_ok(self.projects@, group.project_links@, members@, targets, k as int),
                group_links_rank_sorted(group.project_links@, k as int),
                matched_targets_ok(s1.projects@, members@, targets, k as int),
                new_projects_ok(s1.projects@, self.projects@, members@, k as int),
                // A member list matched throughout creates nothing.
                (forall|j: int|
                    0 <= j < k ==> projects_have_dproj(
                        s1.projects@,
                        (#[trigger] members@[j]).dproj@,
                    )) ==> self.projects@ == s1.projects@,
            decreases members@.len() - k,
        {
            let member = &members[k];
            let ghost gl_before = group.project_links@;
            let ghost counter_before = self.id_counter;
            let ghost mut first_idx: int = 0;
            let existing_id: Option<usize>;
            match self.find_project_by_dproj(&member.dproj) {
                Some(found) => {
                    proof {
                        first_idx = choose|i: int|
                            0 <= i < self.projects@.len() && #[trigger] self.projects@[i]
                                == *found && forall|j: int|
                                0 <= j < i ==> !((#[trigger] self.projects@[j]).dproj matches Some(
                                    d,
                                ) && d@ == member.dproj@);
                    }
                    existing_id = Some(found.id);
                },
                None => {
                    existing_id = None;
                },
            }
            match existing_id {
                Some(pid) => {
                    let ghost pi0 = first_idx;
                    proof {
                        assert(0 <= pi0 < self.projects@.len());
                        assert(self.projects@[pi0].id == pid);
                        assert(self.projects@[pi0].dproj matches Some(d) && d@
                            == members@[k as int].dproj@);
                    }
                    let ghost ps_before = self.projects@;
                    let link_id = self.next_id();
                    group.new_project_link(link_id, pid);
                    proof {
                        let gl = group.project_links@;
                        assert forall|j: int| 0 <= j < k implies #[trigger] gl[j]
                            == gl_before[j] by {
                            assert(gl.take(k as int)[j] == gl[j]);
                        }
                        assert(gl[k as int].id == link_id && gl[k as int].project_id == pid);
                        assert(self.projects@[pi0].id == pid);
                        let ghost targets_before = targets;
                        targets = targets.push(pi0);
                        assert(link_targets_ok(
                            self.projects@,
                            group.project_links@,
                            members@,
                            targets,
                            k + 1,
                        )) by {
                            assert forall|j: int| 0 <= j < k + 1 implies {
                                &&& 0 <= #[trigger] targets[j] < self.projects@.len()
                                &&& self.projects@[targets[j]].id
                                    == group.project_links@[j].project_id
                                &&& (self.projects@[targets[j]].dproj matches Some(d) && d@
                                    == members@[j].dproj@)
                            } by {
                                assert(group.project_links@ == gl);
                                if j < k {
                                    assert(targets[j] == targets_before[j]);
                                    assert(self.projects@[targets[j]]
                                        == ps_before[targets[j]]);
                                    assert(gl[j] == gl_before[j]);
                                } else {
                                    assert(targets[j] == pi0);
                                }
                            }
                        }
                        assert(group_links_rank_sorted(gl, k + 1)) by {
                            assert forall|j1: int, j2: int|
                                0 <= j1 < j2 < k + 1 implies (
                            #[trigger] gl[j1]).sort_rank.spec_lt(
                                &(#[trigger] gl[j2]).sort_rank,
                            ) by {
                                if j2 < k {
                                    assert(gl[j1] == gl_before[j1]);
                                    assert(gl[j2] == gl_before[j2]);
                                } else {
                                    assert(gl_before[k - 1].sort_rank.wf());
                                    crate::rank::lemma_next_above(
                                        gl_before[k - 1].sort_rank.spec_rank(),
                                    );
                                    assert(gl_before[k - 1].sort_rank.spec_lt(
                                        &gl[k as int].sort_rank,
                                    ));
                                    if j1 < k - 1 {
                                        assert(gl[j1] == gl_before[j1]);
                                        lemma_key_order_trans(
                                            gl_before[j1].sort_rank,
                                            gl_before[k - 1].sort_rank,
                                            gl[k as int].sort_rank,
                                        );
                                    } else {
                                        assert(gl[j1] == gl_before[k - 1]);
                                    }
                                }
                            }
                        }
                        assert(matched_targets_ok(s1.projects@, members@, targets, k + 1)) by {
                            assert forall|j: int|
                                0 <= j < k + 1 && projects_have_dproj(
                                    s1.projects@,
                                    (#[trigger] members@[j]).dproj@,
                                ) implies 0 <= targets[j] < s1.projects@.len()
                                && first_dproj_match(
                                s1.projects@,
                                members@[j].dproj@,
                                targets[j],
                            ) by {
                                if j < k {
                                    assert(targets[j] == targets_before[j]);
                                } else {
                                    let m = choose|m: int|
                                        0 <= m < s1.projects@.len() && ((
                                        #[trigger] s1.projects@[m]).dproj matches Some(d) && d@
                                            == members@[j].dproj@);
                                    assert(ps_before.take(n1)[m] == s1.projects@[m]);
                                    assert(ps_before[m].dproj matches Some(d) && d@
                                        == members@[j].dproj@);
                                    assert(pi0 <= m);
                                    assert forall|jj: int|
                                        0 <= jj < pi0 implies !((
                                    #[trigger] s1.projects@[jj]).dproj matches Some(d) && d@
                                        == members@[j].dproj@) by {
                                        assert(s1.projects@[jj] == ps_before.take(n1)[jj]);
                                    }
                                    assert(s1.projects@[pi0] == ps_before.take(n1)[pi0]);
                                    assert(targets[j] == pi0);
                                }
                            }
                        }
                        assert(new_projects_ok(s1.projects@, self.projects@, members@, k + 1)) by {
                            assert forall|pi: int|
                                n1 <= pi < self.projects@.len() implies ((
                            #[trigger] self.projects@[pi]).dproj matches Some(d)
                                && !projects_have_dproj(s1.projects@, d@) && exists|j: int|
                                0 <= j < k + 1 && (#[trigger] members@[j]).dproj@ == d@) by {
                                assert(self.projects@ == ps_before);
                                let j = choose|j: int|
                                    0 <= j < k && (#[trigger] members@[j]).dproj@
                                        == (ps_before[pi].dproj->Some_0)@;
                                assert(members@[j].dproj@ == (self.projects@[pi].dproj->Some_0)@);
                            }
                        }
                    }
                },
                None => {
                    proof {
                        assert(!projects_have_dproj(self.projects@, members@[k as int].dproj@));
                    }
                    let project_id = self.next_id();
                    let project = Project {
                        id: project_id,
                        name: file_stem(member.dproj.as_str()),
                        directory: parent_dir(member.dproj.as_str()),
                        dproj: Some(member.dproj.clone()),
                        dpr: member.dpr.clone(),
                        dpk: member.dpk.clone(),
                        exe: member.exe.clone(),
                        ini: member.ini.clone(),
                    };
                    let ghost ps_before = self.projects@;
                    self.projects.push(project);
                    let link_id = self.next_id();
                    group.new_project_link(link_id, project_id);
                    proof {
                        assert(self.projects@.take(n1) =~= s1.projects@);
                        let gl = group.project_links@;
                        assert forall|j: int| 0 <= j < k implies #[trigger] gl[j]
                            == gl_before[j] by {
                            assert(gl.take(k as int)[j] == gl[j]);
                        }
                        assert(gl[k as int].id == link_id && gl[k as int].project_id
                            == project_id);
                        assert forall|i: int|
                            0 <= i < self.projects@.len() - 1 implies #[trigger] self.projects@[i]
                                == ps_before[i] by {}
                        assert(self.projects@[self.projects@.len() - 1].id == project_id);
                        assert(self.projects@[self.projects@.len() - 1].dproj matches Some(d)
                            && d@ == members@[k as int].dproj@);
                        assert forall|i: int|
                            0 <= i < self.projects@.len() - 1 implies (
                        #[trigger] self.projects@[i]).id < project_id by {
                            assert(self.projects@[i] == ps_before[i]);
                            assert(ps_before[i].id <= counter_before);
                        }
                        assert forall|pi: int|
                            n1 <= pi < self.projects@.len() implies (
                        #[trigger] self.projects@[pi]).id > s1.id_counter by {
                            if pi < self.projects@.len() - 1 {
                                assert(self.projects@[pi] == ps_before[pi]);
                            } else {
                                assert(self.projects@[pi].id == project_id);
                            }
                        }
                        let ghost targets_before = targets;
                        targets = targets.push(self.projects@.len() - 1);
                        assert(link_targets_ok(
                            self.projects@,
                            group.project_links@,
                            members@,
                            targets,
                            k + 1,
                        )) by {
                            assert forall|j: int| 0 <= j < k + 1 implies {
                                &&& 0 <= #[trigger] targets[j] < self.projects@.len()
                                &&& self.projects@[targets[j]].id
                                    == group.project_links@[j].project_id
                                &&& (self.projects@[targets[j]].dproj matches Some(d) && d@
                                    == members@[j].dproj@)
                            } by {
                                assert(group.project_links@ == gl);
                                if j < k {
                                    assert(targets[j] == targets_before[j]);
                                    assert(0 <= targets[j] < ps_before.len());
                                    assert(self.projects@[targets[j]]
                                        == ps_before[targets[j]]);
                                    assert(gl[j] == gl_before[j]);
                                } else {
                                    assert(targets[j] == self.projects@.len() - 1);
                                }
                            }
                        }
                        assert(!projects_have_dproj(s1.projects@, members@[k as int].dproj@)) by {
                            if projects_have_dproj(s1.projects@, members@[k as int].dproj@) {
                                let pi = choose|pi: int|
                                    0 <= pi < s1.projects@.len() && ((
                                    #[trigger] s1.projects@[pi]).dproj matches Some(d) && d@
                                        == members@[k as int].dproj@);
                                assert(ps_before.take(n1)[pi] == s1.projects@[pi]);
                                assert(projects_have_dproj(ps_before, members@[k as int].dproj@));
                                assert(false);
                            }
                        }
                        assert(group_links_rank_sorted(gl, k + 1)) by {
                            assert forall|j1: int, j2: int|
                                0 <= j1 < j2 < k + 1 implies (
                            #[trigger] gl[j1]).sort_rank.spec_lt(
                                &(#[trigger] gl[j2]).sort_rank,
                            ) by {
                                if j2 < k {
                                    assert(gl[j1] == gl_before[j1]);
                                    assert(gl[j2] == gl_before[j2]);
                                } else {
                                    assert(gl_before[k - 1].sort_rank.wf());
                                    crate::rank::lemma_next_above(
                                        gl_before[k - 1].sort_rank.spec_rank(),
                                    );
                                    assert(gl_before[k - 1].sort_rank.spec_lt(
                                        &gl[k as int].sort_rank,
                                    ));
                                    if j1 < k - 1 {
                                        assert(gl[j1] == gl_before[j1]);
                                        lemma_key_order_trans(
                                            gl_before[j1].sort_rank,
                                            gl_before[k - 1].sort_rank,
                                            gl[k as int].sort_rank,
                                        );
                                    } else {
                                        assert(gl[j1] == gl_before[k - 1]);
                                    }
                                }
                            }
                        }
                        assert(matched_targets_ok(s1.projects@, members@, targets, k + 1)) by {
                            assert forall|j: int|
                                0 <= j < k + 1 && projects_have_dproj(
                                    s1.projects@,
                                    (#[trigger] members@[j]).dproj@,
                                ) implies 0 <= targets[j] < s1.projects@.len()
                                && first_dproj_match(
                                s1.projects@,
                                members@[j].dproj@,
                                targets[j],
                            ) by {
                                if j < k {
                                    assert(targets[j] == targets_before[j]);
                                } else {
                                    assert(!projects_have_dproj(
                                        s1.projects@,
                                        members@[j].dproj@,
                                    ));
                                }
                            }
                        }
                        assert(new_projects_ok(s1.projects@, self.projects@, members@, k + 1)) by {
                            let last = self.projects@.len() - 1;
                            assert forall|pi: int|
                                n1 <= pi < self.projects@.len() implies ((
                            #[trigger] self.projects@[pi]).dproj matches Some(d)
                                && !projects_have_dproj(s1.projects@, d@) && exists|j: int|
                                0 <= j < k + 1 && (#[trigger] members@[j]).dproj@ == d@) by {
                                if pi < last {
                                    assert(self.projects@[pi] == ps_before[pi]);
                                    let j = choose|j: int|
                                        0 <= j < k && (#[trigger] members@[j]).dproj@
                                            == (ps_before[pi].dproj->Some_0)@;
                                    assert(members@[j].dproj@
                                        == (self.projects@[pi].dproj->Some_0)@);
                                } else {
                                    assert(self.projects@[last].dproj matches Some(d) && d@
                                        == members@[k as int].dproj@);
                                    assert(members@[k as int].dproj@
                                        == (self.projects@[last].dproj->Some_0)@);
                                }
                            }
                            assert forall|pi: int, pj: int|
                                n1 <= pi < pj < self.projects@.len() implies match ((
                            #[trigger] self.projects@[pi]).dproj, (
                            #[trigger] self.projects@[pj]).dproj) {
                                (Some(d1), Some(d2)) => d1@ != d2@,
                                _ => true,
                            } by {
                                if pj < last {
                                    assert(self.projects@[pi] == ps_before[pi]);
                                    assert(self.projects@[pj] == ps_before[pj]);
                                } else {
                                    assert(self.projects@[pi] == ps_before[pi]);
                                    assert(self.projects@[pj].dproj matches Some(d) && d@
                                        == members@[k as int].dproj@);
                                    if ps_before[pi].dproj matches Some(d1) && d1@
                                        == members@[k as int].dproj@ {
                                        assert(projects_have_dproj(
                                            ps_before,
                                            members@[k as int].dproj@,
                                        ));
                                        assert(false);
                                    }
                                }
                            }
                        }
                    }
                },
            }
            k += 1;
        }
        self.attach_group_and_prune(
            group,
            groupproj_path,
            compiler,
            members,
            Ghost(s1),
            Ghost(targets),
        );
        Ok(())
    }

    /// Installs the freshly reconciled group and prunes the projects the
    /// replaced group alone was keeping alive: the second half of
    /// `set_group_project`.
    fn attach_group_and_prune(
        &mut self,
        group: GroupProject,
        groupproj_path: &String,
        compiler: &String,
        members: &Vec<GroupMember>,
        Ghost(s1): Ghost<ProjectsData>,
        Ghost(targets): Ghost<Seq<int>>,
    )
        requires
            s1.wf(),
            old(self).workspaces == s1.workspaces,
            old(self).active_project_id == s1.active_project_id,
            old(self).id_counter >= s1.id_counter,
            old(self).projects@.len() >= s1.projects@.len(),
            old(self).projects@.take(s1.projects@.len() as int) == s1.projects@,
            forall|i: int, j: int|
                0 <= i < j < old(self).projects@.len() ==> (#[trigger] old(
                    self,
                ).projects@[i]).id != (#[trigger] old(self).projects@[j]).id,
            forall|i: int|
                0 <= i < old(self).projects@.len() ==> (#[trigger] old(self).projects@[i]).id
                    <= old(self).id_counter,
            group.name@ == stem_text(groupproj_path@),
            group.path@ == groupproj_path@,
            group.compiler_id@ == compiler@,
            group.ranks_wf(),
            group.project_links@.len() == members@.len(),
            forall|j: int|
                0 <= j < members@.len() ==> s1.id_counter < (
                #[trigger] group.project_links@[j]).id <= old(self).id_counter,
            forall|j1: int, j2: int|
                0 <= j1 < j2 < members@.len() ==> (#[trigger] group.project_links@[j1]).id != (
                #[trigger] group.project_links@[j2]).id,
            targets.len() == members@.len(),
            link_targets_ok(
                old(self).projects@,
                group.project_links@,
                members@,
                targets,
                members@.len() as int,
            ),
            (all_members_matched(s1.projects@, members@) ==> old(self).projects@ == s1.projects@),
            old(self).id_counter <= s1.id_counter + 2 * members@.len(),
            forall|pi: int|
                s1.projects@.len() <= pi < old(self).projects@.len() ==> (#[trigger] old(
                    self,
                ).projects@[pi]).id > s1.id_counter,
            group_links_rank_sorted(group.project_links@, members@.len() as int),
            matched_targets_ok(s1.projects@, members@, targets, members@.len() as int),
            new_projects_ok(s1.projects@, old(self).projects@, members@, members@.len() as int),
        ensures
            final(self).wf(),
            set_group_shape(s1, *final(self), groupproj_path@, compiler@, members@),
    {
        let ghost gfinal = group;
        self.group_project = Some(group);
        let ghost mid = *self;
        proof {
            assert(mid.projects@ == old(self).projects@);
            lemma_attach_group_wf_core(s1, mid, gfinal, members@, targets);
        }
        self.prune_orphans();
        proof {
            lemma_set_group_final_shape(
                s1,
                mid,
                *self,
                gfinal,
                groupproj_path@,
                compiler@,
                members@,
                targets,
            );
        }
    }

    /// Orders every sibling list by rank, in place: the workspaces among
    /// themselves, each workspace's links, and the group's links. Order is
    /// presentation only — every entity keeps its fields, and no list gains
    /// or loses a member.
    pub fn sort(&mut self)
        ensures
            final(self).id_counter == old(self).id_counter,
            final(self).active_project_id == old(self).active_project_id,
            final(self).projects == old(self).projects,
            final(self).workspaces@.len() == old(self).workspaces@.len(),
            workspace_ids(final(self).workspaces@).to_multiset() == workspace_ids(
                old(self).workspaces@,
            ).to_multiset(),
            workspaces_sorted(final(self).workspaces@),
            forall|wi: int|
                0 <= wi < final(self).workspaces@.len() ==> links_sorted(
                    (#[trigger] final(self).workspaces@[wi]).project_links@,
                ),
            sorted_correspondence(old(self).workspaces@, final(self).workspaces@),
            match old(self).group_project {
                Some(g1) => final(self).group_project matches Some(g2) && g2.name == g1.name
                    && g2.path == g1.path && g2.compiler_id == g1.compiler_id
                    && g2.project_links@.to_multiset() == g1.project_links@.to_multiset()
                    && links_sorted(g2.project_links@),
                None => final(self).group_project is None,
            },
    {
        let ghost s1 = *old(self);
        sort_workspaces_by_rank(&mut self.workspaces);
        let ghost midws = self.workspaces@;
        proof {
            lemma_permutation_membership(s1.workspaces@, midws);
        }
        let mut wi: usize = 0;
        while wi < self.workspaces.len()
            invariant
                midws.len() == s1.workspaces@.len(),
                forall|k: int| 0 <= k < midws.len() ==> s1.workspaces@.contains(#[trigger] midws[k]),
                wi <= self.workspaces@.len(),
                self.workspaces@.len() == midws.len(),
                self.id_counter == s1.id_counter,
                self.active_project_id == s1.active_project_id,
                self.projects == s1.projects,
                self.group_project == s1.group_project,
                workspaces_sorted(midws),
                forall|k: int|
                    0 <= k < midws.len() ==> same_workspace_up_to_link_order(
                        midws[k],
                        #[trigger] self.workspaces@[k],
                    ),
                forall|k: int| wi <= k < midws.len() ==> #[trigger] self.workspaces@[k] == midws[k],
                forall|k: int|
                    0 <= k < wi ==> links_sorted((#[trigger] self.workspaces@[k]).project_links@),
            decreases midws.len() - wi,
        {
            let workspace = &mut self.workspaces[wi];
            sort_links_by_rank(&mut workspace.project_links);
            wi += 1;
        }
        match &mut self.group_project {
            Some(group) => {
                sort_links_by_rank(&mut group.project_links);
            },
            None => {},
        }
        proof {
            assert(sorted_correspondence(s1.workspaces@, self.workspaces@)) by {
                assert forall|k: int| 0 <= k < self.workspaces@.len() implies corresponds_to_one_of(
                    s1.workspaces@,
                    #[trigger] self.workspaces@[k],
                ) by {
                    assert(s1.workspaces@.contains(midws[k]));
                    let wj = choose|wj: int|
                        0 <= wj < s1.workspaces@.len() && s1.workspaces@[wj] == midws[k];
                    assert(same_workspace_up_to_link_order(midws[k], self.workspaces@[k]));
                    assert(same_workspace_up_to_link_order(
                        s1.workspaces@[wj],
                        self.workspaces@[k],
                    ));
                }
            }
            assert forall|a: int, b: int|
                0 <= a < b < self.workspaces@.len() implies !(
            #[trigger] self.workspaces@[b]).sort_rank.spec_lt(
                &(#[trigger] self.workspaces@[a]).sort_rank,
            ) by {
                assert(same_workspace_up_to_link_order(midws[a], self.workspaces@[a]));
                assert(same_workspace_up_to_link_order(midws[b], self.workspaces@[b]));
            }
            lemma_to_multiset_map(s1.workspaces@, midws, |w: Workspace| w.id);
            assert(workspace_ids(self.workspaces@) =~= workspace_ids(midws)) by {
                assert forall|k: int|
                    0 <= k < midws.len() implies workspace_ids(self.workspaces@)[k]
                    == workspace_ids(midws)[k] by {
                    assert(same_workspace_up_to_link_order(midws[k], self.workspaces@[k]));
                }
            }
        }
    }

    /// The projects placed in the given workspace, one per link and in link
    /// order; the workspace must be one of this store's.
    pub fn projects_of_workspace<'a>(&'a self, workspace: &Workspace) -> (result: Vec<
        &'a Project,
    >)
        requires
            self.wf(),
            self.workspaces@.contains(*workspace),
        ensures
            result@.len() == workspace.project_links@.len(),
            forall|i: int|
                0 <= i < result@.len() ==> (#[trigger] result@[i]).id
                    == workspace.project_links@[i].project_id && self.projects@.contains(
                    *result@[i],
                ),
    {
        let ghost wi = choose|wi: int|
            0 <= wi < self.workspaces@.len() && self.workspaces@[wi] == *workspace;
        let mut result: Vec<&'a Project> = Vec::new();
        let mut li: usize = 0;
        while li < workspace.project_links.len()
            invariant
                self.wf(),
                0 <= wi < self.workspaces@.len() && self.workspaces@[wi] == *workspace,
                li <= workspace.project_links@.len(),
                result@.len() == li,
                forall|i: int|
                    0 <= i < li ==> (#[trigger] result@[i]).id
                        == workspace.project_links@[i].project_id && self.projects@.contains(
                        *result@[i],
                    ),
            decreases workspace.project_links@.len() - li,
        {
            proof {
                assert(self.workspaces@[wi].project_links@[li as int]
                    == workspace.project_links@[li as int]);
                assert(has_project(self, workspace.project_links@[li as int].project_id));
            }
            match self.get_project(workspace.project_links[li].project_id) {
                Some(project) => {
                    result.push(project);
                },
                None => {
                    proof {
                        assert(false);
                    }
                },
            }
            li += 1;
        }
        result
    }

    /// The projects placed in the given group, one per link and in link
    /// order; the group must be this store's.
    pub fn projects_of_group_project<'a>(&'a self, group_project: &GroupProject) -> (result: Vec<
        &'a Project,
    >)
        requires
            self.wf(),
            self.group_project matches Some(g) && g == *group_project,
        ensures
            result@.len() == group_project.project_links@.len(),
            forall|i: int|
                0 <= i < result@.len() ==> (#[trigger] result@[i]).id
                    == group_project.project_links@[i].project_id && self.projects@.contains(
                    *result@[i],
                ),
    {
        let mut result: Vec<&'a Project> = Vec::new();
        let mut li: usize = 0;
        while li < group_project.project_links.len()
            invariant
                self.wf(),
                self.group_project matches Some(g) && g == *group_project,
                li <= group_project.project_links@.len(),
                result@.len() == li,
                forall|i: int|
                    0 <= i < li ==> (#[trigger] result@[i]).id
                        == group_project.project_links@[i].project_id && self.projects@.contains(
                        *result@[i],
                    ),
            decreases group_project.project_links@.len() - li,
        {
            proof {
                assert(has_project(self, group_project.project_links@[li as int].project_id));
            }
            match self.get_project(group_project.project_links[li].project_id) {
                Some(project) => {
                    result.push(project);
                },
                None => {
                    proof {
                        assert(false);
                    }
                },
            }
            li += 1;
        }
        result
    }

    /// Points the group project at another compiler key. Fails with
    /// `NotFound`, changing nothing, when the key is unknown or no group
    /// project is set.
    pub fn set_group_project_compiler(
        &mut self,
        compiler: &String,
        registry: &CompilerRegistry,
    ) -> (result: Result<(), StoreError>)
        requires
            old(self).wf(),
        ensures
            final(self).wf(),
            result is Ok <==> registry.spec_contains(compiler@) && old(self).group_project is Some,
            result == Err::<(), StoreError>(StoreError::NotFound) <==> !(registry.spec_contains(
                compiler@,
            ) && old(self).group_project is Some),
            result is Err ==> *final(self) == *old(self),
            result is Ok ==> {
                &&& old(self).group_project matches Some(g1)
                &&& final(self).group_project matches Some(g2)
                &&& g2.name == old(self).group_project->Some_0.name
                &&& g2.path == old(self).group_project->Some_0.path
                &&& g2.project_links == old(self).group_project->Some_0.project_links
                &&& g2.compiler_id@ == compiler@
                &&& final(self).workspaces == old(self).workspaces
                &&& final(self).projects == old(self).projects
                &&& final(self).id_counter == old(self).id_counter
                &&& final(self).active_project_id == old(self).active_project_id
            },
    {
        let ghost s1 = *old(self);
        if !registry.contains(compiler) {
            return Err(StoreError::NotFound);
        }
        match &mut self.group_project {
            Some(group) => {
                group.compiler_id = compiler.clone();
            },
            None => {
                return Err(StoreError::NotFound);
            },
        }
        proof {
            lemma_move_link_wf(s1, *self, 0, arbitrary(), arbitrary());
            assert(self.wf());
        }
        Ok(())
    }

    /// Removes the link with the given id from whichever container holds it;
    /// when the referenced project thereby loses its last link anywhere, the
    /// project is deleted too, and the selection cleared if it was that
    /// project. A link id no container holds leaves the store untouched.
    pub fn remove_project_link(&mut self, project_link_id: usize)
        requires
            old(self).wf(),
        ensures
            final(self).wf(),
            !has_link_anywhere(old(self), project_link_id) ==> *final(self) == *old(self),
            forall|pid: usize|
                #[trigger] link_targets(old(self), project_link_id, pid)
                    ==> remove_project_link_shape(*old(self), *final(self), project_link_id, pid),
    {
        let ghost s1 = *old(self);
        match self.find_link_location(project_link_id) {
            LinkLocation::InWorkspace(wi, li) => {
                let pid = self.workspaces[wi].project_links[li].project_id;
                proof {
                    assert(link_targets(&s1, project_link_id, pid));
                }
                let workspace = &mut self.workspaces[wi];
                retain_other_links(&mut workspace.project_links, project_link_id);
                proof {
                    let lp = other_link(project_link_id);
                    assert forall|k: int|
                        0 <= k < s1.workspaces@.len() implies same_workspace_with_links(
                        #[trigger] s1.workspaces@[k],
                        #[trigger] self.workspaces@[k],
                        s1.workspaces@[k].project_links@.filter(lp),
                    ) by {
                        if k != wi {
                            assert forall|l: int|
                                0 <= l < s1.workspaces@[k].project_links@.len() implies lp(
                                #[trigger] s1.workspaces@[k].project_links@[l],
                            ) by {
                                assert(s1.workspaces@[k].project_links@[l].id
                                    != s1.workspaces@[wi as int].project_links@[li as int].id);
                            }
                            lemma_filter_identity(s1.workspaces@[k].project_links@, lp);
                        }
                    }
                    match s1.group_project {
                        Some(g1) => {
                            assert forall|l: int|
                                0 <= l < g1.project_links@.len() implies lp(
                                #[trigger] g1.project_links@[l],
                            ) by {
                                assert(g1.project_links@[l].id
                                    != s1.workspaces@[wi as int].project_links@[li as int].id);
                            }
                            lemma_filter_identity(g1.project_links@, lp);
                        },
                        None => {},
                    }
                    assert(remove_link_containers_shape(s1, *self, project_link_id));
                    lemma_remove_link_preserves(s1, *self, project_link_id, pid);
                    assert forall|pid2: usize|
                        #[trigger] link_targets(&s1, project_link_id, pid2) implies pid2 == pid by {
                        lemma_unique_link_targets(s1, project_link_id, pid2, wi as int, li as int);
                    }
                }
                let ghost mid = *self;
                if !self.can_find_any_links(pid) {
                    self.remove_project(pid, false);
                } else {
                    proof {
                        assert(self.wf());
                    }
                }
            },
            LinkLocation::InGroup(li) => {
                let pid = match &self.group_project {
                    Some(group) => group.project_links[li].project_id,
                    None => {
                        proof {
                            assert(false);
                        }
                        0
                    },
                };
                proof {
                    assert(link_targets(&s1, project_link_id, pid));
                }
                match &mut self.group_project {
                    Some(group) => {
                        retain_other_links(&mut group.project_links, project_link_id);
                    },
                    None => {},
                }
                proof {
                    let lp = other_link(project_link_id);
                    let g1 = s1.group_project->Some_0;
                    assert forall|k: int|
                        0 <= k < s1.workspaces@.len() implies same_workspace_with_links(
                        #[trigger] s1.workspaces@[k],
                        #[trigger] self.workspaces@[k],
                        s1.workspaces@[k].project_links@.filter(lp),
                    ) by {
                        assert forall|l: int|
                            0 <= l < s1.workspaces@[k].project_links@.len() implies lp(
                            #[trigger] s1.workspaces@[k].project_links@[l],
                        ) by {
                            assert(s1.workspaces@[k].project_links@[l].id
                                != g1.project_links@[li as int].id);
                        }
                        lemma_filter_identity(s1.workspaces@[k].project_links@, lp);
                    }
                    assert(remove_link_containers_shape(s1, *self, project_link_id));
                    lemma_remove_link_preserves(s1, *self, project_link_id, pid);
                    assert forall|pid2: usize|
                        #[trigger] link_targets(&s1, project_link_id, pid2) implies pid2 == pid by {
                        lemma_unique_group_link_targets(s1, project_link_id, pid2, li as int);
                    }
                }
                let ghost mid = *self;
                if !self.can_find_any_links(pid) {
                    self.remove_project(pid, false);
                } else {
                    proof {
                        assert(self.wf());
                    }
                }
            },
            LinkLocation::Nowhere => {},
        }
    }

    /// Removes the project with the given id, clearing the selection when it
    /// was selected. With `remove_links` every link referencing the project
    /// goes with it; without, the caller vouches that none exists — only
    /// then does the store stay well formed.
    pub fn remove_project(&mut self, project_id: usize, remove_links: bool)
        ensures
            remove_project_shape(*old(self), *final(self), project_id, remove_links),
            wf_except_orphan(old(self), project_id) && (remove_links
                || !spec_can_find_any_links(old(self), project_id)) ==> final(self).wf(),
    {
        retain_other_projects(&mut self.projects, project_id);
        match self.active_project_id {
            Some(active) => {
                if active == project_id {
                    self.active_project_id = None;
                }
            },
            None => {},
        }
        if remove_links {
            let ghost mid = *self;
            let mut wi: usize = 0;
            while wi < self.workspaces.len()
                invariant
                    wi <= self.workspaces@.len(),
                    self.workspaces@.len() == mid.workspaces@.len(),
                    forall|k: int|
                        0 <= k < wi ==> same_workspace_with_links(
                            #[trigger] mid.workspaces@[k],
                            #[trigger] self.workspaces@[k],
                            mid.workspaces@[k].project_links@.filter(link_to_other(project_id)),
                        ),
                    forall|k: int|
                        wi <= k < mid.workspaces@.len() ==> #[trigger] self.workspaces@[k]
                            == mid.workspaces@[k],
                    self.id_counter == mid.id_counter,
                    self.projects == mid.projects,
                    self.active_project_id == mid.active_project_id,
                    self.group_project == mid.group_project,
                decreases mid.workspaces@.len() - wi,
            {
                let workspace = &mut self.workspaces[wi];
                retain_links_to_other(&mut workspace.project_links, project_id);
                wi += 1;
            }
            match &mut self.group_project {
                Some(group) => {
                    retain_links_to_other(&mut group.project_links, project_id);
                },
                None => {},
            }
        }
        proof {
            if wf_except_orphan(old(self), project_id) && (remove_links
                || !spec_can_find_any_links(old(self), project_id)) {
                lemma_remove_project_preserves(*old(self), *self, project_id, remove_links);
            }
        }
    }
}

/// How removing one link transforms the containers: every container's link
/// list is filtered of the link id; the counter, projects and selection are
/// untouched at this stage.
pub open spec fn remove_link_containers_shape(
    s1: ProjectsData,
    m: ProjectsData,
    link_id: usize,
) -> bool {
    &&& m.id_counter == s1.id_counter
    &&& m.projects == s1.projects
    &&& m.active_project_id == s1.active_project_id
    &&& m.workspaces@.len() == s1.workspaces@.len()
    &&& forall|wi: int|
        0 <= wi < s1.workspaces@.len() ==> same_workspace_with_links(
            #[trigger] s1.workspaces@[wi],
            #[trigger] m.workspaces@[wi],
            s1.workspaces@[wi].project_links@.filter(other_link(link_id)),
        )
    &&& match s1.group_project {
        Some(g1) => m.group_project matches Some(g2) && same_group_with_links(
            g1,
            g2,
            g1.project_links@.filter(other_link(link_id)),
        ),
        None => m.group_project is None,
    }
}

/// After the link is filtered out of every container, the store is well
/// formed except that the link's target project may now be orphaned, and it
/// is orphaned exactly when no other link referenced it.
proof fn lemma_remove_link_preserves(s1: ProjectsData, m: ProjectsData, link_id: usize, pid: usize)
    requires
        s1.wf(),
        link_targets(&s1, link_id, pid),
        remove_link_containers_shape(s1, m, link_id),
    ensures
        wf_except_orphan(&m, pid),
        spec_can_find_any_links(&m, pid) <==> has_other_link_to(&s1, link_id, pid),
{
    let lp = other_link(link_id);
    assert forall|wi: int| 0 <= wi < m.workspaces@.len() implies (#[trigger] m.workspaces@[wi]).id
        == s1.workspaces@[wi].id && m.workspaces@[wi].sort_rank == s1.workspaces@[wi].sort_rank by {
        assert(same_workspace_with_links(
            s1.workspaces@[wi],
            m.workspaces@[wi],
            s1.workspaces@[wi].project_links@.filter(lp),
        ));
    }
    // Each remaining link stands in its old container, keeps a valid target
    // and rank, and its id is not the removed one.
    assert forall|wi: int, li: int|
        0 <= wi < m.workspaces@.len() && 0 <= li < m.workspaces@[wi].project_links@.len() implies {
        let l = #[trigger] m.workspaces@[wi].project_links@[li];
        &&& exists|p: int|
            0 <= p < s1.workspaces@[wi].project_links@.len()
                && s1.workspaces@[wi].project_links@[p] == l
        &&& l.id != link_id
        &&& has_project(&m, l.project_id)
        &&& l.id <= m.id_counter
        &&& l.sort_rank.wf()
    } by {
        let o = s1.workspaces@[wi].project_links@;
        lemma_filter_subsequence(o, lp);
        assert(o.filter(lp)[li] == m.workspaces@[wi].project_links@[li]);
        o.lemma_filter_pred(lp, li);
        let p = choose|p: int| 0 <= p < o.len() && o.filter(lp)[li] == o[p];
        assert(o[p] == s1.workspaces@[wi].project_links@[p]);
        assert(has_project(&s1, o[p].project_id));
        assert(s1.workspaces@[wi].ranks_wf());
    }
    match s1.group_project {
        Some(g1) => {
            let g2 = m.group_project->Some_0;
            let og = g1.project_links@;
            let ng = g2.project_links@;
            lemma_filter_subsequence(og, lp);
            assert forall|li: int| 0 <= li < ng.len() implies {
                let l = #[trigger] ng[li];
                &&& exists|p: int| 0 <= p < og.len() && og[p] == l
                &&& l.id != link_id
                &&& has_project(&m, l.project_id)
                &&& l.id <= m.id_counter
                &&& l.sort_rank.wf()
            } by {
                assert(og.filter(lp)[li] == ng[li]);
                og.lemma_filter_pred(lp, li);
                let p = choose|p: int| 0 <= p < og.len() && og.filter(lp)[li] == og[p];
                assert(has_project(&s1, og[p].project_id));
                assert(g1.ranks_wf());
            }
            assert forall|li: int, lj: int| 0 <= li < lj < ng.len() implies (
            #[trigger] ng[li]).id != (#[trigger] ng[lj]).id by {
                assert(og.filter(lp)[li] == ng[li]);
                assert(og.filter(lp)[lj] == ng[lj]);
                let (p1, p2) = choose|p1: int, p2: int|
                    0 <= p1 < p2 < og.len() && og.filter(lp)[li] == og[p1] && og.filter(lp)[lj]
                        == og[p2];
                assert(og[p1].id != og[p2].id);
            }
            assert forall|wi: int, li: int, lj: int|
                0 <= wi < m.workspaces@.len() && 0 <= li < m.workspaces@[wi].project_links@.len()
                    && 0 <= lj < ng.len() implies (
            #[trigger] m.workspaces@[wi].project_links@[li]).id != (#[trigger] ng[lj]).id by {
                let oi = s1.workspaces@[wi].project_links@;
                lemma_filter_subsequence(oi, lp);
                assert(oi.filter(lp)[li] == m.workspaces@[wi].project_links@[li]);
                assert(og.filter(lp)[lj] == ng[lj]);
                let p1 = choose|p1: int| 0 <= p1 < oi.len() && oi.filter(lp)[li] == oi[p1];
                let p2 = choose|p2: int| 0 <= p2 < og.len() && og.filter(lp)[lj] == og[p2];
                assert(oi[p1].id != og[p2].id);
            }
        },
        None => {},
    }
    assert forall|wi: int, li: int, wj: int, lj: int|
        0 <= wi < m.workspaces@.len() && 0 <= li < m.workspaces@[wi].project_links@.len() && 0 <= wj
            < m.workspaces@.len() && 0 <= lj < m.workspaces@[wj].project_links@.len() && (wi != wj
            || li != lj) implies (#[trigger] m.workspaces@[wi].project_links@[li]).id != (
    #[trigger] m.workspaces@[wj].project_links@[lj]).id by {
        let oi = s1.workspaces@[wi].project_links@;
        let oj = s1.workspaces@[wj].project_links@;
        lemma_filter_subsequence(oi, lp);
        lemma_filter_subsequence(oj, lp);
        if wi == wj {
            if li < lj {
                assert(oi.filter(lp)[li] == m.workspaces@[wi].project_links@[li]);
                assert(oi.filter(lp)[lj] == m.workspaces@[wj].project_links@[lj]);
                let (p1, p2) = choose|p1: int, p2: int|
                    0 <= p1 < p2 < oi.len() && oi.filter(lp)[li] == oi[p1] && oi.filter(lp)[lj]
                        == oi[p2];
                assert(oi[p1].id != oi[p2].id);
            } else {
                assert(oi.filter(lp)[lj] == m.workspaces@[wj].project_links@[lj]);
                assert(oi.filter(lp)[li] == m.workspaces@[wi].project_links@[li]);
                let (p1, p2) = choose|p1: int, p2: int|
                    0 <= p1 < p2 < oi.len() && oi.filter(lp)[lj] == oi[p1] && oi.filter(lp)[li]
                        == oi[p2];
                assert(oi[p1].id != oi[p2].id);
            }
        } else {
            assert(oi.filter(lp)[li] == m.workspaces@[wi].project_links@[li]);
            assert(oj.filter(lp)[lj] == m.workspaces@[wj].project_links@[lj]);
            let p1 = choose|p1: int| 0 <= p1 < oi.len() && oi.filter(lp)[li] == oi[p1];
            let p2 = choose|p2: int| 0 <= p2 < oj.len() && oj.filter(lp)[lj] == oj[p2];
            assert(oi[p1].id != oj[p2].id);
        }
    }
    // A project other than the target keeps a link: its old witness link is
    // not the removed one, because the removed id, being unique, belongs to
    // the link that references the target.
    assert forall|pi: int|
        0 <= pi < m.projects@.len() && (#[trigger] m.projects@[pi]).id != pid
            implies spec_can_find_any_links(&m, m.projects@[pi].id) by {
        let q = m.projects@[pi].id;
        assert(spec_can_find_any_links(&s1, q));
        if exists|wi: int|
            0 <= wi < s1.workspaces@.len() && (#[trigger] s1.workspaces@[wi]).links_project(q) {
            let wi = choose|wi: int|
                0 <= wi < s1.workspaces@.len() && (#[trigger] s1.workspaces@[wi]).links_project(q);
            let o = s1.workspaces@[wi].project_links@;
            let li = choose|li: int| 0 <= li < o.len() && o[li].project_id == q;
            assert(o[li].id != link_id) by {
                if o[li].id == link_id {
                    lemma_unique_link_targets(s1, link_id, pid, wi, li);
                }
            }
            assert(lp(o[li]));
            o.lemma_filter_contains(lp, li);
            assert(m.workspaces@[wi].project_links@.contains(o[li]));
            let k = choose|k: int|
                0 <= k < m.workspaces@[wi].project_links@.len()
                    && m.workspaces@[wi].project_links@[k] == o[li];
            assert(m.workspaces@[wi].links_project(q));
        } else {
            let g1 = s1.group_project->Some_0;
            let og = g1.project_links@;
            let li = choose|li: int| 0 <= li < og.len() && og[li].project_id == q;
            assert(og[li].id != link_id) by {
                if og[li].id == link_id {
                    lemma_unique_group_link_targets(s1, link_id, pid, li);
                }
            }
            assert(lp(og[li]));
            og.lemma_filter_contains(lp, li);
            let g2 = m.group_project->Some_0;
            assert(g2.project_links@.contains(og[li]));
            let k = choose|k: int|
                0 <= k < g2.project_links@.len() && g2.project_links@[k] == og[li];
            assert(g2.links_project(q));
        }
    }
    // The target stays linked exactly when another link referenced it.
    if has_other_link_to(&s1, link_id, pid) {
        if exists|wi: int, li: int|
            0 <= wi < s1.workspaces@.len() && 0 <= li < s1.workspaces@[wi].project_links@.len() && (
            #[trigger] s1.workspaces@[wi].project_links@[li]).id != link_id
                && s1.workspaces@[wi].project_links@[li].project_id == pid {
            let (wi, li) = choose|wi: int, li: int|
                0 <= wi < s1.workspaces@.len() && 0 <= li < s1.workspaces@[wi].project_links@.len()
                    && (#[trigger] s1.workspaces@[wi].project_links@[li]).id != link_id
                    && s1.workspaces@[wi].project_links@[li].project_id == pid;
            let o = s1.workspaces@[wi].project_links@;
            assert(lp(o[li]));
            o.lemma_filter_contains(lp, li);
            assert(m.workspaces@[wi].project_links@.contains(o[li]));
            let k = choose|k: int|
                0 <= k < m.workspaces@[wi].project_links@.len()
                    && m.workspaces@[wi].project_links@[k] == o[li];
            assert(m.workspaces@[wi].links_project(pid));
        } else {
            let g1 = s1.group_project->Some_0;
            let og = g1.project_links@;
            let li = choose|li: int|
                0 <= li < og.len() && (#[trigger] og[li]).id != link_id && og[li].project_id
                    == pid;
            assert(lp(og[li]));
            og.lemma_filter_contains(lp, li);
            let g2 = m.group_project->Some_0;
            let k = choose|k: int|
                0 <= k < g2.project_links@.len() && g2.project_links@[k] == og[li];
            assert(g2.links_project(pid));
        }
    }
    if spec_can_find_any_links(&m, pid) {
        if exists|wi: int|
            0 <= wi < m.workspaces@.len() && (#[trigger] m.workspaces@[wi]).links_project(pid) {
            let wi = choose|wi: int|
                0 <= wi < m.workspaces@.len() && (#[trigger] m.workspaces@[wi]).links_project(pid);
            let n = m.workspaces@[wi].project_links@;
            let li = choose|li: int| 0 <= li < n.len() && n[li].project_id == pid;
            let o = s1.workspaces@[wi].project_links@;
            lemma_filter_subsequence(o, lp);
            assert(o.filter(lp)[li] == n[li]);
            o.lemma_filter_pred(lp, li);
            let p = choose|p: int| 0 <= p < o.len() && o.filter(lp)[li] == o[p];
            assert(o[p].id != link_id && o[p].project_id == pid);
        } else {
            let g2 = m.group_project->Some_0;
            let g1 = s1.group_project->Some_0;
            let ng = g2.project_links@;
            let og = g1.project_links@;
            let li = choose|li: int| 0 <= li < ng.len() && ng[li].project_id == pid;
            lemma_filter_subsequence(og, lp);
            assert(og.filter(lp)[li] == ng[li]);
            og.lemma_filter_pred(lp, li);
            let p = choose|p: int| 0 <= p < og.len() && og.filter(lp)[li] == og[p];
            assert(og[p].id != link_id && og[p].project_id == pid);
        }
    }
}

/// In a well-formed store, a workspace link carrying the id of the link that
/// targets `pid` is itself that link.
proof fn lemma_unique_link_targets(
    s1: ProjectsData,
    link_id: usize,
    pid: usize,
    wi: int,
    li: int,
)
    requires
        s1.wf(),
        link_targets(&s1, link_id, pid),
        0 <= wi < s1.workspaces@.len(),
        0 <= li < s1.workspaces@[wi].project_links@.len(),
        s1.workspaces@[wi].project_links@[li].id == link_id,
    ensures
        s1.workspaces@[wi].project_links@[li].project_id == pid,
{
    if exists|wj: int, lj: int|
        0 <= wj < s1.workspaces@.len() && 0 <= lj < s1.workspaces@[wj].project_links@.len() && (
        #[trigger] s1.workspaces@[wj].project_links@[lj]).id == link_id
            && s1.workspaces@[wj].project_links@[lj].project_id == pid {
        let (wj, lj) = choose|wj: int, lj: int|
            0 <= wj < s1.workspaces@.len() && 0 <= lj < s1.workspaces@[wj].project_links@.len() && (
            #[trigger] s1.workspaces@[wj].project_links@[lj]).id == link_id
                && s1.workspaces@[wj].project_links@[lj].project_id == pid;
        if wi != wj || li != lj {
            assert(s1.workspaces@[wi].project_links@[li].id
                != s1.workspaces@[wj].project_links@[lj].id);
        }
    } else {
        let g = s1.group_project->Some_0;
        let lj = choose|lj: int|
            0 <= lj < g.project_links@.len() && (#[trigger] g.project_links@[lj]).id == link_id
                && g.project_links@[lj].project_id == pid;
        assert(s1.workspaces@[wi].project_links@[li].id != g.project_links@[lj].id);
        assert(false);
    }
}

/// In a well-formed store, a group link carrying the id of the link that
/// targets `pid` is itself that link.
proof fn lemma_unique_group_link_targets(s1: ProjectsData, link_id: usize, pid: usize, li: int)
    requires
        s1.wf(),
        link_targets(&s1, link_id, pid),
        s1.group_project matches Some(g) && 0 <= li < g.project_links@.len()
            && g.project_links@[li].id == link_id,
    ensures
        s1.group_project matches Some(g) && g.project_links@[li].project_id == pid,
{
    let g = s1.group_project->Some_0;
    if exists|wj: int, lj: int|
        0 <= wj < s1.workspaces@.len() && 0 <= lj < s1.workspaces@[wj].project_links@.len() && (
        #[trigger] s1.workspaces@[wj].project_links@[lj]).id == link_id
            && s1.workspaces@[wj].project_links@[lj].project_id == pid {
        let (wj, lj) = choose|wj: int, lj: int|
            0 <= wj < s1.workspaces@.len() && 0 <= lj < s1.workspaces@[wj].project_links@.len() && (
            #[trigger] s1.workspaces@[wj].project_links@[lj]).id == link_id
                && s1.workspaces@[wj].project_links@[lj].project_id == pid;
        assert(s1.workspaces@[wj].project_links@[lj].id != g.project_links@[li].id);
        assert(false);
    } else {
        let lj = choose|lj: int|
            0 <= lj < g.project_links@.len() && (#[trigger] g.project_links@[lj]).id == link_id
                && g.project_links@[lj].project_id == pid;
        if li != lj {
            assert(g.project_links@[li].id != g.project_links@[lj].id);
        }
    }
}

/// The position of the link with the given id in a link list, when present.
fn find_link_index(links: &Vec<ProjectLink>, link_id: usize) -> (result: Option<usize>)
    ensures
        result matches Some(i) ==> i < links@.len() && links@[i as int].id == link_id,
        result is None ==> forall|l: int| 0 <= l < links@.len() ==> links@[l].id != link_id,
{
    let mut i: usize = 0;
    while i < links.len()
        invariant
            i <= links@.len(),
            forall|l: int| 0 <= l < i ==> links@[l].id != link_id,
        decreases links@.len() - i,
    {
        if links[i].id == link_id {
            return Some(i);
        }
        i += 1;
    }
    None
}

/// Keeps every workspace but the one with the given id.
pub open spec fn other_workspace(workspace_id: usize) -> spec_fn(Workspace) -> bool {
    |w: Workspace| w.id != workspace_id
}

/// Keeps every project that some link in the given containers references.
pub open spec fn linked_project(s: ProjectsData) -> spec_fn(Project) -> bool {
    |p: Project| spec_can_find_any_links(&s, p.id)
}

/// Some link in a workspace other than the given one, or in the group,
/// references the project: whether the project survives that workspace's
/// removal.
pub open spec fn linked_outside_workspace(
    s: &ProjectsData,
    workspace_id: usize,
    project_id: usize,
) -> bool {
    ||| exists|wi: int|
        0 <= wi < s.workspaces@.len() && (#[trigger] s.workspaces@[wi]).id != workspace_id
            && s.workspaces@[wi].links_project(project_id)
    ||| (s.group_project matches Some(g) && g.links_project(project_id))
}

/// Some workspace link references the project: whether the project survives
/// the group project's removal.
pub open spec fn linked_in_some_workspace(s: &ProjectsData, project_id: usize) -> bool {
    exists|wi: int|
        0 <= wi < s.workspaces@.len() && (#[trigger] s.workspaces@[wi]).links_project(project_id)
}

/// Filtering with a predicate false at exactly one position removes exactly
/// that element.
pub proof fn lemma_filter_skips_one<A>(s: Seq<A>, pred: spec_fn(A) -> bool, i: int)
    requires
        0 <= i < s.len(),
        !pred(s[i]),
        forall|j: int| 0 <= j < s.len() && j != i ==> pred(#[trigger] s[j]),
    ensures
        s.filter(pred) == s.remove(i),
    decreases s.len(),
{
    reveal(Seq::filter);
    let dl = s.drop_last();
    assert(forall|j: int| 0 <= j < dl.len() ==> dl[j] == s[j]);
    if i == s.len() - 1 {
        lemma_filter_identity(dl, pred);
        assert(s.remove(i) =~= dl);
    } else {
        lemma_filter_skips_one(dl, pred, i);
        assert(pred(s.last()));
        assert(s.filter(pred) == dl.remove(i).push(s.last()));
        assert(s.remove(i) =~= dl.remove(i).push(s.last()));
    }
}

/// True when some link in the given containers references the project.
fn can_find_links_in(
    workspaces: &Vec<Workspace>,
    group_project: &Option<GroupProject>,
    project_id: usize,
) -> (result: bool)
    ensures
        result == ({
            ||| exists|wi: int|
                0 <= wi < workspaces@.len() && (#[trigger] workspaces@[wi]).links_project(
                    project_id,
                )
            ||| (group_project matches Some(g) && g.links_project(project_id))
        }),
{
    let mut wi: usize = 0;
    while wi < workspaces.len()
        invariant
            wi <= workspaces@.len(),
            forall|j: int| 0 <= j < wi ==> !(#[trigger] workspaces@[j]).links_project(project_id),
        decreases workspaces@.len() - wi,
    {
        let workspace = &workspaces[wi];
        let mut li: usize = 0;
        while li < workspace.project_links.len()
            invariant
                workspace == &workspaces@[wi as int],
                wi < workspaces@.len(),
                li <= workspace.project_links@.len(),
                forall|l: int| 0 <= l < li ==> workspace.project_links@[l].project_id != project_id,
            decreases workspace.project_links@.len() - li,
        {
            if workspace.project_links[li].project_id == project_id {
                return true;
            }
            li += 1;
        }
        proof {
            assert(!workspaces@[wi as int].links_project(project_id));
        }
        wi += 1;
    }
    match group_project {
        Some(group) => {
            let mut li: usize = 0;
            while li < group.project_links.len()
                invariant
                    group_project matches Some(g) && g == group,
                    li <= group.project_links@.len(),
                    forall|l: int| 0 <= l < li ==> group.project_links@[l].project_id != project_id,
                decreases group.project_links@.len() - li,
            {
                if group.project_links[li].project_id == project_id {
                    return true;
                }
                li += 1;
            }
            false
        },
        None => false,
    }
}

/// Keeps every project still linked from a workspace other than the given
/// one or from the group: the survivors of that workspace's removal.
pub open spec fn linked_outside_workspace_pred(
    s: ProjectsData,
    workspace_id: usize,
) -> spec_fn(Project) -> bool {
    |p: Project| linked_outside_workspace(&s, workspace_id, p.id)
}

/// Keeps every project still linked from some workspace: the survivors of
/// the group project's removal.
pub open spec fn linked_in_some_workspace_pred(s: ProjectsData) -> spec_fn(Project) -> bool {
    |p: Project| linked_in_some_workspace(&s, p.id)
}

/// Predicates that agree on every element filter alike.
pub proof fn lemma_filter_congruence<A>(s: Seq<A>, p1: spec_fn(A) -> bool, p2: spec_fn(A) -> bool)
    requires
        forall|i: int| 0 <= i < s.len() ==> p1(#[trigger] s[i]) == p2(s[i]),
    ensures
        s.filter(p1) == s.filter(p2),
    decreases s.len(),
{
    reveal(Seq::filter);
    if s.len() > 0 {
        let dl = s.drop_last();
        assert(forall|i: int| 0 <= i < dl.len() ==> dl[i] == s[i]);
        lemma_filter_congruence(dl, p1, p2);
    }
}

/// Creating a project with its first link preserves well-formedness.
proof fn lemma_new_project_preserves(
    s1: ProjectsData,
    s2: ProjectsData,
    path: Seq<char>,
    workspace_id: usize,
)
    requires
        s1.wf(),
        s1.id_counter + 2 <= usize::MAX,
        has_workspace(&s1, workspace_id),
        new_project_shape(s1, s2, path, workspace_id),
    ensures
        s2.wf(),
{
    let n1 = s1.projects@.len() as int;
    let wsi = choose|wi: int|
        0 <= wi < s1.workspaces@.len() && (#[trigger] s1.workspaces@[wi]).id == workspace_id;
    assert forall|i: int| 0 <= i < n1 implies #[trigger] s2.projects@[i] == s1.projects@[i] by {
        assert(s2.projects@.take(n1)[i] == s2.projects@[i]);
    }
    assert forall|wi: int| 0 <= wi < s1.workspaces@.len() && wi != wsi implies
        #[trigger] s2.workspaces@[wi] == s1.workspaces@[wi] by {
        assert(s1.workspaces@[wi].id != s1.workspaces@[wsi].id);
    }
    let ow = s1.workspaces@[wsi];
    let nw = s2.workspaces@[wsi];
    let m1 = ow.project_links@.len() as int;
    assert forall|li: int| 0 <= li < m1 implies #[trigger] nw.project_links@[li]
        == ow.project_links@[li] by {
        assert(nw.project_links@.take(m1)[li] == nw.project_links@[li]);
    }
    let newp = s2.projects@.last();
    let newl = nw.project_links@.last();
    // Fresh ids exceed every id the counter ever produced.
    assert(newp.id == s1.id_counter + 1 && newl.id == s1.id_counter + 2);
    assert forall|i: int, j: int| 0 <= i < j < s2.projects@.len() implies (
    #[trigger] s2.projects@[i]).id != (#[trigger] s2.projects@[j]).id by {
        if j < n1 {
        } else {
            assert(s2.projects@[i] == s1.projects@[i]);
            assert(s1.projects@[i].id <= s1.id_counter);
        }
    }
    assert(workspaces_unique(&s2)) by {
        assert forall|i: int, j: int| 0 <= i < j < s2.workspaces@.len() implies (
        #[trigger] s2.workspaces@[i]).id != (#[trigger] s2.workspaces@[j]).id by {
            assert(s2.workspaces@[i].id == s1.workspaces@[i].id);
            assert(s2.workspaces@[j].id == s1.workspaces@[j].id);
        }
    }
    // Old links are untouched; the one new link carries a fresh id.
    assert forall|wi: int, li: int|
        0 <= wi < s2.workspaces@.len() && 0 <= li
            < s2.workspaces@[wi].project_links@.len() implies {
        let l = #[trigger] s2.workspaces@[wi].project_links@[li];
        &&& (wi == wsi && li == m1) || (0 <= wi < s1.workspaces@.len() && li
            < s1.workspaces@[wi].project_links@.len() && l == s1.workspaces@[wi].project_links@[li])
    } by {
        if wi == wsi {
            if li < m1 {
                assert(s2.workspaces@[wi].project_links@[li] == ow.project_links@[li]);
            }
        } else {
            assert(s2.workspaces@[wi] == s1.workspaces@[wi]);
        }
    }
    assert(links_unique(&s2)) by {
        assert forall|wi: int, li: int, wj: int, lj: int|
            0 <= wi < s2.workspaces@.len() && 0 <= li < s2.workspaces@[wi].project_links@.len() && 0
                <= wj < s2.workspaces@.len() && 0 <= lj < s2.workspaces@[wj].project_links@.len()
                && (wi != wj || li != lj) implies (
        #[trigger] s2.workspaces@[wi].project_links@[li]).id != (
        #[trigger] s2.workspaces@[wj].project_links@[lj]).id by {
            let a_new = wi == wsi && li == m1;
            let b_new = wj == wsi && lj == m1;
            if a_new && !b_new {
                assert(s2.workspaces@[wj].project_links@[lj].id <= s1.id_counter);
            } else if !a_new && b_new {
                assert(s2.workspaces@[wi].project_links@[li].id <= s1.id_counter);
            } else if !a_new && !b_new {
                assert(s2.workspaces@[wi].project_links@[li]
                    == s1.workspaces@[wi].project_links@[li]);
                assert(s2.workspaces@[wj].project_links@[lj]
                    == s1.workspaces@[wj].project_links@[lj]);
            }
        }
        match s2.group_project {
            Some(g) => {
                assert(s1.group_project == Some(g));
                assert forall|wi: int, li: int, lj: int|
                    0 <= wi < s2.workspaces@.len() && 0 <= li
                        < s2.workspaces@[wi].project_links@.len() && 0 <= lj
                        < g.project_links@.len() implies (
                #[trigger] s2.workspaces@[wi].project_links@[li]).id != (
                #[trigger] g.project_links@[lj]).id by {
                    assert(g.project_links@[lj].id <= s1.id_counter);
                    if !(wi == wsi && li == m1) {
                        assert(s2.workspaces@[wi].project_links@[li]
                            == s1.workspaces@[wi].project_links@[li]);
                    }
                }
            },
            None => {},
        }
    }
    assert(has_project(&s2, newp.id)) by {
        assert(s2.projects@[s2.projects@.len() - 1].id == newp.id);
    }
    assert forall|pid: usize| has_project(&s1, pid) implies has_project(&s2, pid) by {
        let i = choose|i: int| 0 <= i < n1 && s1.projects@[i].id == pid;
        assert(s2.projects@[i].id == pid);
    }
    assert(links_valid(&s2)) by {
        assert forall|wi: int, li: int|
            0 <= wi < s2.workspaces@.len() && 0 <= li
                < s2.workspaces@[wi].project_links@.len() implies has_project(
            &s2,
            (#[trigger] s2.workspaces@[wi].project_links@[li]).project_id,
        ) by {
            if wi == wsi && li == m1 {
                assert(s2.workspaces@[wi].project_links@[li].project_id == newp.id);
            } else {
                assert(s2.workspaces@[wi].project_links@[li]
                    == s1.workspaces@[wi].project_links@[li]);
                assert(has_project(&s1, s1.workspaces@[wi].project_links@[li].project_id));
            }
        }
        match s2.group_project {
            Some(g) => {
                assert(s1.group_project == Some(g));
                assert forall|li: int| 0 <= li < g.project_links@.len() implies has_project(
                    &s2,
                    (#[trigger] g.project_links@[li]).project_id,
                ) by {
                    assert(has_project(&s1, g.project_links@[li].project_id));
                }
            },
            None => {},
        }
    }
    assert(no_orphans(&s2)) by {
        assert forall|pi: int| 0 <= pi < s2.projects@.len() implies spec_can_find_any_links(
            &s2,
            (#[trigger] s2.projects@[pi]).id,
        ) by {
            if pi < n1 {
                let pid = s1.projects@[pi].id;
                assert(spec_can_find_any_links(&s1, pid));
                if exists|wi: int|
                    0 <= wi < s1.workspaces@.len() && (#[trigger] s1.workspaces@[wi]).links_project(
                        pid,
                    ) {
                    let wi = choose|wi: int|
                        0 <= wi < s1.workspaces@.len() && (
                        #[trigger] s1.workspaces@[wi]).links_project(pid);
                    let li = choose|li: int|
                        0 <= li < s1.workspaces@[wi].project_links@.len()
                            && s1.workspaces@[wi].project_links@[li].project_id == pid;
                    assert(s2.workspaces@[wi].project_links@[li]
                        == s1.workspaces@[wi].project_links@[li]) by {
                        if wi == wsi {
                            assert(nw.project_links@[li] == ow.project_links@[li]);
                        }
                    }
                    assert(s2.workspaces@[wi].links_project(pid));
                } else {
                    let g = s1.group_project->Some_0;
                    assert(g.links_project(s2.projects@[pi].id));
                }
            } else {
                assert(nw.project_links@[m1].project_id == newp.id);
                assert(s2.workspaces@[wsi].links_project(newp.id));
            }
        }
    }
    assert(ids_bounded(&s2)) by {
        assert forall|pi: int| 0 <= pi < s2.projects@.len() implies (
        #[trigger] s2.projects@[pi]).id <= s2.id_counter by {
            if pi < n1 {
                assert(s2.projects@[pi] == s1.projects@[pi]);
            }
        }
        assert forall|wi: int| 0 <= wi < s2.workspaces@.len() implies (
        #[trigger] s2.workspaces@[wi]).id <= s2.id_counter by {
            assert(s2.workspaces@[wi].id == s1.workspaces@[wi].id);
        }
        assert forall|wi: int, li: int|
            0 <= wi < s2.workspaces@.len() && 0 <= li
                < s2.workspaces@[wi].project_links@.len() implies (
        #[trigger] s2.workspaces@[wi].project_links@[li]).id <= s2.id_counter by {
            if !(wi == wsi && li == m1) {
                assert(s2.workspaces@[wi].project_links@[li]
                    == s1.workspaces@[wi].project_links@[li]);
            }
        }
        match s2.group_project {
            Some(g) => {
                assert(s1.group_project == Some(g));
            },
            None => {},
        }
    }
    assert(active_valid(&s2)) by {
        match s2.active_project_id {
            Some(a) => {
                assert(has_project(&s1, a));
            },
            None => {},
        }
    }
    assert(ranks_wf(&s2)) by {
        assert forall|wi: int| 0 <= wi < s2.workspaces@.len() implies (
        #[trigger] s2.workspaces@[wi]).ranks_wf() by {
            assert(s1.workspaces@[wi].ranks_wf());
            if wi == wsi {
                assert forall|li: int| 0 <= li < nw.project_links@.len() implies (
                #[trigger] nw.project_links@[li]).sort_rank.wf() by {
                    if li < m1 {
                        assert(nw.project_links@[li] == ow.project_links@[li]);
                    } else {
                        assert(is_middle_key(newl.sort_rank));
                    }
                }
            }
        }
        match s2.group_project {
            Some(g) => {
                assert(s1.group_project == Some(g));
            },
            None => {},
        }
    }
}

/// Appending a link to an existing project in one workspace preserves
/// well-formedness.
proof fn lemma_add_link_preserves(
    s1: ProjectsData,
    s2: ProjectsData,
    project_id: usize,
    workspace_id: usize,
    wsi: int,
)
    requires
        s1.wf(),
        s1.id_counter < usize::MAX,
        has_project(&s1, project_id),
        0 <= wsi < s1.workspaces@.len(),
        s1.workspaces@[wsi].id == workspace_id,
        s2.id_counter == s1.id_counter + 1,
        s2.active_project_id == s1.active_project_id,
        s2.projects == s1.projects,
        s2.group_project == s1.group_project,
        s2.workspaces@.len() == s1.workspaces@.len(),
        forall|wi: int|
            0 <= wi < s1.workspaces@.len() && wi != wsi ==> #[trigger] s2.workspaces@[wi]
                == s1.workspaces@[wi],
        ({
            let w1 = s1.workspaces@[wsi];
            let w2 = s2.workspaces@[wsi];
            &&& w2.id == w1.id
            &&& w2.name == w1.name
            &&& w2.compiler_id == w1.compiler_id
            &&& w2.sort_rank == w1.sort_rank
            &&& w2.project_links@.len() == w1.project_links@.len() + 1
            &&& w2.project_links@.take(w1.project_links@.len() as int) == w1.project_links@
            &&& w2.project_links@.last().id == s1.id_counter + 1
            &&& w2.project_links@.last().project_id == project_id
            &&& w2.project_links@.last().sort_rank.wf()
        }),
    ensures
        s2.wf(),
{
    let w1 = s1.workspaces@[wsi];
    let w2 = s2.workspaces@[wsi];
    let m1 = w1.project_links@.len() as int;
    assert forall|li: int| 0 <= li < m1 implies #[trigger] w2.project_links@[li]
        == w1.project_links@[li] by {
        assert(w2.project_links@.take(m1)[li] == w2.project_links@[li]);
    }
    assert forall|wi: int| 0 <= wi < s2.workspaces@.len() implies (#[trigger] s2.workspaces@[wi]).id
        == s1.workspaces@[wi].id by {}
    assert(workspaces_unique(&s2));
    assert(projects_unique(&s2));
    assert(links_unique(&s2)) by {
        assert forall|wi: int, li: int, wj: int, lj: int|
            0 <= wi < s2.workspaces@.len() && 0 <= li < s2.workspaces@[wi].project_links@.len() && 0
                <= wj < s2.workspaces@.len() && 0 <= lj < s2.workspaces@[wj].project_links@.len()
                && (wi != wj || li != lj) implies (
        #[trigger] s2.workspaces@[wi].project_links@[li]).id != (
        #[trigger] s2.workspaces@[wj].project_links@[lj]).id by {
            let a_new = wi == wsi && li == m1;
            let b_new = wj == wsi && lj == m1;
            if a_new && !b_new {
                assert(s2.workspaces@[wj].project_links@[lj]
                    == s1.workspaces@[wj].project_links@[lj]);
                assert(s1.workspaces@[wj].project_links@[lj].id <= s1.id_counter);
            } else if !a_new && b_new {
                assert(s2.workspaces@[wi].project_links@[li]
                    == s1.workspaces@[wi].project_links@[li]);
                assert(s1.workspaces@[wi].project_links@[li].id <= s1.id_counter);
            } else if !a_new && !b_new {
                assert(s2.workspaces@[wi].project_links@[li]
                    == s1.workspaces@[wi].project_links@[li]);
                assert(s2.workspaces@[wj].project_links@[lj]
                    == s1.workspaces@[wj].project_links@[lj]);
            }
        }
        match s2.group_project {
            Some(g) => {
                assert(s1.group_project == Some(g));
                assert forall|wi: int, li: int, lj: int|
                    0 <= wi < s2.workspaces@.len() && 0 <= li
                        < s2.workspaces@[wi].project_links@.len() && 0 <= lj
                        < g.project_links@.len() implies (
                #[trigger] s2.workspaces@[wi].project_links@[li]).id != (
                #[trigger] g.project_links@[lj]).id by {
                    assert(g.project_links@[lj].id <= s1.id_counter);
                    if !(wi == wsi && li == m1) {
                        assert(s2.workspaces@[wi].project_links@[li]
                            == s1.workspaces@[wi].project_links@[li]);
                    }
                }
            },
            None => {},
        }
    }
    assert(links_valid(&s2)) by {
        assert forall|wi: int, li: int|
            0 <= wi < s2.workspaces@.len() && 0 <= li
                < s2.workspaces@[wi].project_links@.len() implies has_project(
            &s2,
            (#[trigger] s2.workspaces@[wi].project_links@[li]).project_id,
        ) by {
            if wi == wsi && li == m1 {
                assert(has_project(&s1, project_id));
            } else {
                assert(s2.workspaces@[wi].project_links@[li]
                    == s1.workspaces@[wi].project_links@[li]);
                assert(has_project(&s1, s1.workspaces@[wi].project_links@[li].project_id));
            }
            assert(s2.projects@ == s1.projects@);
        }
        match s2.group_project {
            Some(g) => {
                assert(s1.group_project == Some(g));
                assert forall|li: int| 0 <= li < g.project_links@.len() implies has_project(
                    &s2,
                    (#[trigger] g.project_links@[li]).project_id,
                ) by {
                    assert(has_project(&s1, g.project_links@[li].project_id));
                }
            },
            None => {},
        }
    }
    assert(no_orphans(&s2)) by {
        assert forall|pi: int| 0 <= pi < s2.projects@.len() implies spec_can_find_any_links(
            &s2,
            (#[trigger] s2.projects@[pi]).id,
        ) by {
            let pid = s1.projects@[pi].id;
            assert(spec_can_find_any_links(&s1, pid));
            if exists|wi: int|
                0 <= wi < s1.workspaces@.len() && (#[trigger] s1.workspaces@[wi]).links_project(
                    pid,
                ) {
                let wi = choose|wi: int|
                    0 <= wi < s1.workspaces@.len() && (
                    #[trigger] s1.workspaces@[wi]).links_project(pid);
                let li = choose|li: int|
                    0 <= li < s1.workspaces@[wi].project_links@.len()
                        && s1.workspaces@[wi].project_links@[li].project_id == pid;
                assert(s2.workspaces@[wi].project_links@[li]
                    == s1.workspaces@[wi].project_links@[li]) by {
                    if wi == wsi {
                        assert(w2.project_links@[li] == w1.project_links@[li]);
                    }
                }
                assert(s2.workspaces@[wi].links_project(pid));
            } else {
                let g = s1.group_project->Some_0;
                assert(g.links_project(pid));
            }
        }
    }
    assert(ids_bounded(&s2)) by {
        assert forall|wi: int, li: int|
            0 <= wi < s2.workspaces@.len() && 0 <= li
                < s2.workspaces@[wi].project_links@.len() implies (
        #[trigger] s2.workspaces@[wi].project_links@[li]).id <= s2.id_counter by {
            if !(wi == wsi && li == m1) {
                assert(s2.workspaces@[wi].project_links@[li]
                    == s1.workspaces@[wi].project_links@[li]);
            }
        }
        match s2.group_project {
            Some(g) => {
                assert(s1.group_project == Some(g));
            },
            None => {},
        }
    }
    assert(active_valid(&s2));
    assert(ranks_wf(&s2)) by {
        assert forall|wi: int| 0 <= wi < s2.workspaces@.len() implies (
        #[trigger] s2.workspaces@[wi]).ranks_wf() by {
            assert(s1.workspaces@[wi].ranks_wf());
            if wi == wsi {
                assert forall|li: int| 0 <= li < w2.project_links@.len() implies (
                #[trigger] w2.project_links@[li]).sort_rank.wf() by {
                    if li < m1 {
                        assert(w2.project_links@[li] == w1.project_links@[li]);
                    }
                }
            }
        }
        match s2.group_project {
            Some(g) => {
                assert(s1.group_project == Some(g));
            },
            None => {},
        }
    }
}

/// Appending a fresh, empty workspace preserves well-formedness.
proof fn lemma_append_workspace_preserves(s1: ProjectsData, s2: ProjectsData)
    requires
        s1.wf(),
        s1.id_counter < usize::MAX,
        s2.id_counter == s1.id_counter + 1,
        s2.active_project_id == s1.active_project_id,
        s2.projects == s1.projects,
        s2.group_project == s1.group_project,
        s2.workspaces@.len() == s1.workspaces@.len() + 1,
        s2.workspaces@.take(s1.workspaces@.len() as int) == s1.workspaces@,
        s2.workspaces@.last().id == s1.id_counter + 1,
        s2.workspaces@.last().project_links@.len() == 0,
        s2.workspaces@.last().sort_rank.wf(),
    ensures
        s2.wf(),
{
    let n1 = s1.workspaces@.len() as int;
    assert forall|wi: int| 0 <= wi < n1 implies #[trigger] s2.workspaces@[wi]
        == s1.workspaces@[wi] by {
        assert(s2.workspaces@.take(n1)[wi] == s2.workspaces@[wi]);
    }
    assert(workspaces_unique(&s2)) by {
        assert forall|i: int, j: int| 0 <= i < j < s2.workspaces@.len() implies (
        #[trigger] s2.workspaces@[i]).id != (#[trigger] s2.workspaces@[j]).id by {
            if j < n1 {
            } else {
                assert(s2.workspaces@[i] == s1.workspaces@[i]);
                assert(s1.workspaces@[i].id <= s1.id_counter);
            }
        }
    }
    assert(links_unique(&s2)) by {
        assert forall|wi: int, li: int, wj: int, lj: int|
            0 <= wi < s2.workspaces@.len() && 0 <= li < s2.workspaces@[wi].project_links@.len() && 0
                <= wj < s2.workspaces@.len() && 0 <= lj < s2.workspaces@[wj].project_links@.len()
                && (wi != wj || li != lj) implies (
        #[trigger] s2.workspaces@[wi].project_links@[li]).id != (
        #[trigger] s2.workspaces@[wj].project_links@[lj]).id by {
            assert(wi < n1 && wj < n1);
            assert(s2.workspaces@[wi] == s1.workspaces@[wi]);
            assert(s2.workspaces@[wj] == s1.workspaces@[wj]);
        }
        match s2.group_project {
            Some(g) => {
                assert(s1.group_project == Some(g));
                assert forall|wi: int, li: int, lj: int|
                    0 <= wi < s2.workspaces@.len() && 0 <= li
                        < s2.workspaces@[wi].project_links@.len() && 0 <= lj
                        < g.project_links@.len() implies (
                #[trigger] s2.workspaces@[wi].project_links@[li]).id != (
                #[trigger] g.project_links@[lj]).id by {
                    assert(wi < n1);
                    assert(s2.workspaces@[wi] == s1.workspaces@[wi]);
                }
            },
            None => {},
        }
    }
    assert(links_valid(&s2)) by {
        assert forall|wi: int, li: int|
            0 <= wi < s2.workspaces@.len() && 0 <= li
                < s2.workspaces@[wi].project_links@.len() implies has_project(
            &s2,
            (#[trigger] s2.workspaces@[wi].project_links@[li]).project_id,
        ) by {
            assert(wi < n1);
            assert(s2.workspaces@[wi] == s1.workspaces@[wi]);
            assert(has_project(&s1, s1.workspaces@[wi].project_links@[li].project_id));
        }
        match s2.group_project {
            Some(g) => {
                assert(s1.group_project == Some(g));
                assert forall|li: int| 0 <= li < g.project_links@.len() implies has_project(
                    &s2,
                    (#[trigger] g.project_links@[li]).project_id,
                ) by {
                    assert(has_project(&s1, g.project_links@[li].project_id));
                }
            },
            None => {},
        }
    }
    assert(no_orphans(&s2)) by {
        assert forall|pi: int| 0 <= pi < s2.projects@.len() implies spec_can_find_any_links(
            &s2,
            (#[trigger] s2.projects@[pi]).id,
        ) by {
            let pid = s1.projects@[pi].id;
            assert(spec_can_find_any_links(&s1, pid));
            if exists|wi: int|
                0 <= wi < s1.workspaces@.len() && (#[trigger] s1.workspaces@[wi]).links_project(
                    pid,
                ) {
                let wi = choose|wi: int|
                    0 <= wi < s1.workspaces@.len() && (
                    #[trigger] s1.workspaces@[wi]).links_project(pid);
                assert(s2.workspaces@[wi] == s1.workspaces@[wi]);
                assert(s2.workspaces@[wi].links_project(pid));
            } else {
                let g = s1.group_project->Some_0;
                assert(g.links_project(pid));
            }
        }
    }
    assert(ids_bounded(&s2)) by {
        assert forall|wi: int| 0 <= wi < s2.workspaces@.len() implies (
        #[trigger] s2.workspaces@[wi]).id <= s2.id_counter by {
            if wi < n1 {
                assert(s2.workspaces@[wi] == s1.workspaces@[wi]);
            }
        }
        assert forall|wi: int, li: int|
            0 <= wi < s2.workspaces@.len() && 0 <= li
                < s2.workspaces@[wi].project_links@.len() implies (
        #[trigger] s2.workspaces@[wi].project_links@[li]).id <= s2.id_counter by {
            assert(wi < n1);
            assert(s2.workspaces@[wi] == s1.workspaces@[wi]);
        }
        match s2.group_project {
            Some(g) => {
                assert(s1.group_project == Some(g));
            },
            None => {},
        }
    }
    assert(active_valid(&s2));
    assert(ranks_wf(&s2)) by {
        assert forall|wi: int| 0 <= wi < s2.workspaces@.len() implies (
        #[trigger] s2.workspaces@[wi]).ranks_wf() by {
            if wi < n1 {
                assert(s2.workspaces@[wi] == s1.workspaces@[wi]);
                assert(s1.workspaces@[wi].ranks_wf());
            }
        }
        match s2.group_project {
            Some(g) => {
                assert(s1.group_project == Some(g));
            },
            None => {},
        }
    }
}

/// A store whose projects only changed in fields other than the id is as
/// well formed as before.
proof fn lemma_same_project_ids_wf(s1: ProjectsData, s2: ProjectsData)
    requires
        s1.wf(),
        s2.id_counter == s1.id_counter,
        s2.active_project_id == s1.active_project_id,
        s2.workspaces == s1.workspaces,
        s2.group_project == s1.group_project,
        s2.projects@.len() == s1.projects@.len(),
        forall|pi: int|
            0 <= pi < s1.projects@.len() ==> (#[trigger] s2.projects@[pi]).id
                == s1.projects@[pi].id,
    ensures
        s2.wf(),
{
    assert forall|pid: usize| #[trigger] has_project(&s2, pid) == has_project(&s1, pid) by {
        if has_project(&s1, pid) {
            let i = choose|i: int| 0 <= i < s1.projects@.len() && s1.projects@[i].id == pid;
            assert(s2.projects@[i].id == pid);
        }
        if has_project(&s2, pid) {
            let i = choose|i: int| 0 <= i < s2.projects@.len() && s2.projects@[i].id == pid;
            assert(s1.projects@[i].id == pid);
        }
    }
    assert(links_valid(&s2)) by {
        assert forall|wi: int, li: int|
            0 <= wi < s2.workspaces@.len() && 0 <= li
                < s2.workspaces@[wi].project_links@.len() implies has_project(
            &s2,
            (#[trigger] s2.workspaces@[wi].project_links@[li]).project_id,
        ) by {
            assert(has_project(&s1, s1.workspaces@[wi].project_links@[li].project_id));
        }
        match s2.group_project {
            Some(g) => {
                assert(s1.group_project == Some(g));
                assert forall|li: int| 0 <= li < g.project_links@.len() implies has_project(
                    &s2,
                    (#[trigger] g.project_links@[li]).project_id,
                ) by {
                    assert(has_project(&s1, g.project_links@[li].project_id));
                }
            },
            None => {},
        }
    }
    assert(no_orphans(&s2)) by {
        assert forall|pi: int| 0 <= pi < s2.projects@.len() implies spec_can_find_any_links(
            &s2,
            (#[trigger] s2.projects@[pi]).id,
        ) by {
            assert(spec_can_find_any_links(&s1, s1.projects@[pi].id));
        }
    }
}

/// A store whose workspaces only changed in fields other than the id, the
/// links and the rank is as well formed as before.
proof fn lemma_same_workspace_structure_wf(s1: ProjectsData, s2: ProjectsData)
    requires
        s1.wf(),
        s2.id_counter == s1.id_counter,
        s2.active_project_id == s1.active_project_id,
        s2.projects == s1.projects,
        s2.group_project == s1.group_project,
        s2.workspaces@.len() == s1.workspaces@.len(),
        forall|wi: int|
            0 <= wi < s1.workspaces@.len() ==> {
                &&& (#[trigger] s2.workspaces@[wi]).id == s1.workspaces@[wi].id
                &&& s2.workspaces@[wi].project_links == s1.workspaces@[wi].project_links
                &&& s2.workspaces@[wi].sort_rank.wf()
            },
    ensures
        s2.wf(),
{
    assert(links_unique(&s2)) by {
        assert forall|wi: int, li: int, wj: int, lj: int|
            0 <= wi < s2.workspaces@.len() && 0 <= li < s2.workspaces@[wi].project_links@.len() && 0
                <= wj < s2.workspaces@.len() && 0 <= lj < s2.workspaces@[wj].project_links@.len()
                && (wi != wj || li != lj) implies (
        #[trigger] s2.workspaces@[wi].project_links@[li]).id != (
        #[trigger] s2.workspaces@[wj].project_links@[lj]).id by {
            assert(s2.workspaces@[wi].project_links@ == s1.workspaces@[wi].project_links@);
            assert(s2.workspaces@[wj].project_links@ == s1.workspaces@[wj].project_links@);
        }
        match s2.group_project {
            Some(g) => {
                assert(s1.group_project == Some(g));
                assert forall|wi: int, li: int, lj: int|
                    0 <= wi < s2.workspaces@.len() && 0 <= li
                        < s2.workspaces@[wi].project_links@.len() && 0 <= lj
                        < g.project_links@.len() implies (
                #[trigger] s2.workspaces@[wi].project_links@[li]).id != (
                #[trigger] g.project_links@[lj]).id by {
                    assert(s2.workspaces@[wi].project_links@
                        == s1.workspaces@[wi].project_links@);
                }
            },
            None => {},
        }
    }
    assert(links_valid(&s2)) by {
        assert forall|wi: int, li: int|
            0 <= wi < s2.workspaces@.len() && 0 <= li
                < s2.workspaces@[wi].project_links@.len() implies has_project(
            &s2,
            (#[trigger] s2.workspaces@[wi].project_links@[li]).project_id,
        ) by {
            assert(s2.workspaces@[wi].project_links@ == s1.workspaces@[wi].project_links@);
            assert(has_project(&s1, s1.workspaces@[wi].project_links@[li].project_id));
        }
    }
    assert(no_orphans(&s2)) by {
        assert forall|pi: int| 0 <= pi < s2.projects@.len() implies spec_can_find_any_links(
            &s2,
            (#[trigger] s2.projects@[pi]).id,
        ) by {
            let pid = s1.projects@[pi].id;
            assert(spec_can_find_any_links(&s1, pid));
            if exists|wi: int|
                0 <= wi < s1.workspaces@.len() && (#[trigger] s1.workspaces@[wi]).links_project(
                    pid,
                ) {
                let wi = choose|wi: int|
                    0 <= wi < s1.workspaces@.len() && (
                    #[trigger] s1.workspaces@[wi]).links_project(pid);
                assert(s2.workspaces@[wi].project_links@ == s1.workspaces@[wi].project_links@);
                assert(s2.workspaces@[wi].links_project(pid));
            } else {
                let g = s1.group_project->Some_0;
                assert(g.links_project(pid));
            }
        }
    }
    assert(ids_bounded(&s2)) by {
        assert forall|wi: int, li: int|
            0 <= wi < s2.workspaces@.len() && 0 <= li
                < s2.workspaces@[wi].project_links@.len() implies (
        #[trigger] s2.workspaces@[wi].project_links@[li]).id <= s2.id_counter by {
            assert(s2.workspaces@[wi].project_links@ == s1.workspaces@[wi].project_links@);
        }
        match s2.group_project {
            Some(g) => {
                assert(s1.group_project == Some(g));
            },
            None => {},
        }
    }
    assert(ranks_wf(&s2)) by {
        assert forall|wi: int| 0 <= wi < s2.workspaces@.len() implies (
        #[trigger] s2.workspaces@[wi]).ranks_wf() by {
            assert(s1.workspaces@[wi].ranks_wf());
            assert(s2.workspaces@[wi].sort_rank.wf());
            assert(s2.workspaces@[wi].project_links@ == s1.workspaces@[wi].project_links@);
            assert forall|li: int|
                0 <= li < s2.workspaces@[wi].project_links@.len() implies (
            #[trigger] s2.workspaces@[wi].project_links@[li]).sort_rank.wf() by {
                assert(s2.workspaces@[wi].project_links@[li]
                    == s1.workspaces@[wi].project_links@[li]);
            }
        }
        match s2.group_project {
            Some(g) => {
                assert(s1.group_project == Some(g));
            },
            None => {},
        }
    }
}

/// Replacing the rank of one link with a well-formed one preserves
/// well-formedness: link ids and targets are untouched.
proof fn lemma_move_link_wf(
    s1: ProjectsData,
    s2: ProjectsData,
    link_id: usize,
    prev: LexoRank,
    nxt: LexoRank,
)
    requires
        s1.wf(),
        s2.id_counter == s1.id_counter,
        s2.active_project_id == s1.active_project_id,
        s2.projects == s1.projects,
        s2.workspaces@.len() == s1.workspaces@.len(),
        forall|wi: int|
            0 <= wi < s1.workspaces@.len() ==> {
                let w1 = #[trigger] s1.workspaces@[wi];
                let w2 = #[trigger] s2.workspaces@[wi];
                &&& w2.id == w1.id
                &&& w2.sort_rank == w1.sort_rank
                &&& w2.project_links@.len() == w1.project_links@.len()
                &&& forall|li: int|
                    0 <= li < w1.project_links@.len() ==> {
                        let a = #[trigger] w1.project_links@[li];
                        let b = #[trigger] w2.project_links@[li];
                        &&& b.id == a.id
                        &&& b.project_id == a.project_id
                        &&& b.sort_rank.wf()
                    }
            },
        match s1.group_project {
            Some(g1) => s2.group_project matches Some(g2) && g2.project_links@.len()
                == g1.project_links@.len() && forall|li: int|
                0 <= li < g1.project_links@.len() ==> {
                    let a = #[trigger] g1.project_links@[li];
                    let b = #[trigger] g2.project_links@[li];
                    &&& b.id == a.id
                    &&& b.project_id == a.project_id
                    &&& b.sort_rank.wf()
                },
            None => s2.group_project is None,
        },
    ensures
        s2.wf(),
{
    assert forall|wi: int| 0 <= wi < s2.workspaces@.len() implies (#[trigger] s2.workspaces@[wi]).id
        == s1.workspaces@[wi].id && s2.workspaces@[wi].id <= s2.id_counter by {
        assert(s1.workspaces@[wi].id <= s1.id_counter);
    }
    assert(workspaces_unique(&s2));
    assert(links_unique(&s2)) by {
        assert forall|wi: int, li: int, wj: int, lj: int|
            0 <= wi < s2.workspaces@.len() && 0 <= li < s2.workspaces@[wi].project_links@.len() && 0
                <= wj < s2.workspaces@.len() && 0 <= lj < s2.workspaces@[wj].project_links@.len()
                && (wi != wj || li != lj) implies (
        #[trigger] s2.workspaces@[wi].project_links@[li]).id != (
        #[trigger] s2.workspaces@[wj].project_links@[lj]).id by {
            assert(s2.workspaces@[wi].project_links@[li].id
                == s1.workspaces@[wi].project_links@[li].id);
            assert(s2.workspaces@[wj].project_links@[lj].id
                == s1.workspaces@[wj].project_links@[lj].id);
        }
        match s1.group_project {
            Some(g1) => {
                let g2 = s2.group_project->Some_0;
                assert forall|li: int, lj: int|
                    0 <= li < lj < g2.project_links@.len() implies (
                #[trigger] g2.project_links@[li]).id != (#[trigger] g2.project_links@[lj]).id by {
                    assert(g2.project_links@[li].id == g1.project_links@[li].id);
                    assert(g2.project_links@[lj].id == g1.project_links@[lj].id);
                }
                assert forall|wi: int, li: int, lj: int|
                    0 <= wi < s2.workspaces@.len() && 0 <= li
                        < s2.workspaces@[wi].project_links@.len() && 0 <= lj
                        < g2.project_links@.len() implies (
                #[trigger] s2.workspaces@[wi].project_links@[li]).id != (
                #[trigger] g2.project_links@[lj]).id by {
                    assert(s2.workspaces@[wi].project_links@[li].id
                        == s1.workspaces@[wi].project_links@[li].id);
                    assert(g2.project_links@[lj].id == g1.project_links@[lj].id);
                }
            },
            None => {},
        }
    }
    assert(links_valid(&s2)) by {
        assert forall|wi: int, li: int|
            0 <= wi < s2.workspaces@.len() && 0 <= li
                < s2.workspaces@[wi].project_links@.len() implies has_project(
            &s2,
            (#[trigger] s2.workspaces@[wi].project_links@[li]).project_id,
        ) by {
            assert(s2.workspaces@[wi].project_links@[li].project_id
                == s1.workspaces@[wi].project_links@[li].project_id);
            assert(has_project(&s1, s1.workspaces@[wi].project_links@[li].project_id));
        }
        match s1.group_project {
            Some(g1) => {
                let g2 = s2.group_project->Some_0;
                assert forall|li: int| 0 <= li < g2.project_links@.len() implies has_project(
                    &s2,
                    (#[trigger] g2.project_links@[li]).project_id,
                ) by {
                    assert(g2.project_links@[li].project_id == g1.project_links@[li].project_id);
                    assert(has_project(&s1, g1.project_links@[li].project_id));
                }
            },
            None => {},
        }
    }
    assert(no_orphans(&s2)) by {
        assert forall|pi: int| 0 <= pi < s2.projects@.len() implies spec_can_find_any_links(
            &s2,
            (#[trigger] s2.projects@[pi]).id,
        ) by {
            let pid = s1.projects@[pi].id;
            assert(spec_can_find_any_links(&s1, pid));
            if exists|wi: int|
                0 <= wi < s1.workspaces@.len() && (#[trigger] s1.workspaces@[wi]).links_project(
                    pid,
                ) {
                let wi = choose|wi: int|
                    0 <= wi < s1.workspaces@.len() && (
                    #[trigger] s1.workspaces@[wi]).links_project(pid);
                let li = choose|li: int|
                    0 <= li < s1.workspaces@[wi].project_links@.len()
                        && s1.workspaces@[wi].project_links@[li].project_id == pid;
                assert(s2.workspaces@[wi].project_links@[li].project_id == pid);
                assert(s2.workspaces@[wi].links_project(pid));
            } else {
                let g1 = s1.group_project->Some_0;
                let g2 = s2.group_project->Some_0;
                let li = choose|li: int|
                    0 <= li < g1.project_links@.len() && g1.project_links@[li].project_id == pid;
                assert(g2.project_links@[li].project_id == pid);
                assert(g2.links_project(pid));
            }
        }
    }
    assert(ids_bounded(&s2)) by {
        assert forall|wi: int, li: int|
            0 <= wi < s2.workspaces@.len() && 0 <= li
                < s2.workspaces@[wi].project_links@.len() implies (
        #[trigger] s2.workspaces@[wi].project_links@[li]).id <= s2.id_counter by {
            assert(s2.workspaces@[wi].project_links@[li].id
                == s1.workspaces@[wi].project_links@[li].id);
        }
        match s1.group_project {
            Some(g1) => {
                let g2 = s2.group_project->Some_0;
                assert forall|li: int| 0 <= li < g2.project_links@.len() implies (
                #[trigger] g2.project_links@[li]).id <= s2.id_counter by {
                    assert(g2.project_links@[li].id == g1.project_links@[li].id);
                }
            },
            None => {},
        }
    }
    assert(active_valid(&s2));
    assert(ranks_wf(&s2)) by {
        assert forall|wi: int| 0 <= wi < s2.workspaces@.len() implies (
        #[trigger] s2.workspaces@[wi]).ranks_wf() by {
            assert(s1.workspaces@[wi].ranks_wf());
            assert forall|li: int|
                0 <= li < s2.workspaces@[wi].project_links@.len() implies (
            #[trigger] s2.workspaces@[wi].project_links@[li]).sort_rank.wf() by {
                assert((#[trigger] s1.workspaces@[wi].project_links@[li]).sort_rank.wf());
            }
        }
        match s1.group_project {
            Some(g1) => {
                let g2 = s2.group_project->Some_0;
                assert forall|li: int| 0 <= li < g2.project_links@.len() implies (
                #[trigger] g2.project_links@[li]).sort_rank.wf() by {
                    assert((#[trigger] g1.project_links@[li]).sort_rank.wf());
                }
                assert(g2.ranks_wf());
            },
            None => {},
        }
    }
}

/// Attaching a freshly built group — fresh link ids, links to existing
/// projects, well-formed ranks — to a store whose projects only grew keeps
/// every structural invariant; only orphans may remain to prune.
proof fn lemma_attach_group_wf_core(
    s1: ProjectsData,
    mid: ProjectsData,
    g: GroupProject,
    members: Seq<GroupMember>,
    targets: Seq<int>,
)
    requires
        s1.wf(),
        mid.workspaces == s1.workspaces,
        mid.active_project_id == s1.active_project_id,
        mid.group_project == Some(g),
        mid.id_counter >= s1.id_counter,
        mid.projects@.len() >= s1.projects@.len(),
        mid.projects@.take(s1.projects@.len() as int) == s1.projects@,
        forall|i: int, j: int|
            0 <= i < j < mid.projects@.len() ==> (#[trigger] mid.projects@[i]).id != (
            #[trigger] mid.projects@[j]).id,
        forall|i: int|
            0 <= i < mid.projects@.len() ==> (#[trigger] mid.projects@[i]).id <= mid.id_counter,
        g.ranks_wf(),
        forall|j: int|
            0 <= j < g.project_links@.len() ==> s1.id_counter < (
            #[trigger] g.project_links@[j]).id <= mid.id_counter,
        forall|j1: int, j2: int|
            0 <= j1 < j2 < g.project_links@.len() ==> (#[trigger] g.project_links@[j1]).id != (
            #[trigger] g.project_links@[j2]).id,
        targets.len() == g.project_links@.len(),
        link_targets_ok(
            mid.projects@,
            g.project_links@,
            members,
            targets,
            g.project_links@.len() as int,
        ),
    ensures
        wf_core(&mid),
{
    let n1 = s1.projects@.len() as int;
    assert forall|pi: int| 0 <= pi < n1 implies #[trigger] mid.projects@[pi]
        == s1.projects@[pi] by {
        assert(mid.projects@.take(n1)[pi] == mid.projects@[pi]);
    }
    assert forall|pid: usize| has_project(&s1, pid) implies has_project(&mid, pid) by {
        let i = choose|i: int| 0 <= i < n1 && s1.projects@[i].id == pid;
        assert(mid.projects@[i].id == pid);
    }
    assert(links_unique(&mid)) by {
        assert forall|wi: int, li: int, lj: int|
            0 <= wi < mid.workspaces@.len() && 0 <= li < mid.workspaces@[wi].project_links@.len()
                && 0 <= lj < g.project_links@.len() implies (
        #[trigger] mid.workspaces@[wi].project_links@[li]).id != (
        #[trigger] g.project_links@[lj]).id by {
            assert(s1.workspaces@[wi].project_links@[li].id <= s1.id_counter);
        }
    }
    assert(links_valid(&mid)) by {
        assert forall|wi: int, li: int|
            0 <= wi < mid.workspaces@.len() && 0 <= li
                < mid.workspaces@[wi].project_links@.len() implies has_project(
            &mid,
            (#[trigger] mid.workspaces@[wi].project_links@[li]).project_id,
        ) by {
            assert(has_project(&s1, s1.workspaces@[wi].project_links@[li].project_id));
        }
        assert forall|lj: int| 0 <= lj < g.project_links@.len() implies has_project(
            &mid,
            (#[trigger] g.project_links@[lj]).project_id,
        ) by {
            assert(mid.projects@[targets[lj]].id == g.project_links@[lj].project_id);
        }
    }
    assert(ids_bounded(&mid)) by {
        assert forall|wi: int| 0 <= wi < mid.workspaces@.len() implies (
        #[trigger] mid.workspaces@[wi]).id <= mid.id_counter by {
            assert(s1.workspaces@[wi].id <= s1.id_counter);
        }
        assert forall|wi: int, li: int|
            0 <= wi < mid.workspaces@.len() && 0 <= li
                < mid.workspaces@[wi].project_links@.len() implies (
        #[trigger] mid.workspaces@[wi].project_links@[li]).id <= mid.id_counter by {
            assert(s1.workspaces@[wi].project_links@[li].id <= s1.id_counter);
        }
    }
    assert(active_valid(&mid)) by {
        match mid.active_project_id {
            Some(a) => {
                assert(has_project(&s1, a));
            },
            None => {},
        }
    }
}

/// After the pruning pass, the store fits the published reconciliation
/// shape.
#[verifier::rlimit(100)]
#[verifier::spinoff_prover]
proof fn lemma_set_group_final_shape(
    s1: ProjectsData,
    mid: ProjectsData,
    s2: ProjectsData,
    g: GroupProject,
    path: Seq<char>,
    compiler: Seq<char>,
    members: Seq<GroupMember>,
    targets: Seq<int>,
)
    requires
        s1.wf(),
        mid.workspaces == s1.workspaces,
        mid.active_project_id == s1.active_project_id,
        mid.group_project == Some(g),
        mid.id_counter >= s1.id_counter,
        mid.projects@.len() >= s1.projects@.len(),
        mid.projects@.take(s1.projects@.len() as int) == s1.projects@,
        forall|i: int, j: int|
            0 <= i < j < mid.projects@.len() ==> (#[trigger] mid.projects@[i]).id != (
            #[trigger] mid.projects@[j]).id,
        g.name@ == stem_text(path),
        g.path@ == path,
        g.compiler_id@ == compiler,
        g.project_links@.len() == members.len(),
        targets.len() == members.len(),
        link_targets_ok(mid.projects@, g.project_links@, members, targets, members.len() as int),
        (all_members_matched(s1.projects@, members) ==> mid.projects@ == s1.projects@),
        mid.id_counter <= s1.id_counter + 2 * members.len(),
        forall|pi: int|
            s1.projects@.len() <= pi < mid.projects@.len() ==> (#[trigger] mid.projects@[pi]).id
                > s1.id_counter,
        group_links_rank_sorted(g.project_links@, members.len() as int),
        matched_targets_ok(s1.projects@, members, targets, members.len() as int),
        new_projects_ok(s1.projects@, mid.projects@, members, members.len() as int),
        s2.id_counter == mid.id_counter,
        s2.workspaces == mid.workspaces,
        s2.group_project == mid.group_project,
        s2.projects@ == mid.projects@.filter(linked_project(mid)),
        s2.active_project_id == if (mid.active_project_id matches Some(a)
            && !spec_can_find_any_links(&mid, a)) {
            None::<usize>
        } else {
            mid.active_project_id
        },
    ensures
        set_group_shape(s1, s2, path, compiler, members),
{
    let pred = linked_project(mid);
    let n1 = s1.projects@.len() as int;
    lemma_filter_subsequence(mid.projects@, pred);
    assert forall|pi: int| 0 <= pi < n1 implies #[trigger] mid.projects@[pi]
        == s1.projects@[pi] by {
        assert(mid.projects@.take(n1)[pi] == mid.projects@[pi]);
    }
    // A member's target project is group-linked in the middle state, so it
    // survives pruning with its description path.
    assert forall|k: int| 0 <= k < members.len() implies projects_have_dproj(
        s2.projects@,
        (#[trigger] members[k]).dproj@,
    ) by {
        let pi = targets[k];
        assert(mid.projects@[pi].id == g.project_links@[k].project_id);
        assert(g.links_project(mid.projects@[pi].id));
        assert(spec_can_find_any_links(&mid, mid.projects@[pi].id));
        assert(pred(mid.projects@[pi]));
        mid.projects@.lemma_filter_contains(pred, pi);
        assert(s2.projects@.contains(mid.projects@[pi]));
        let qi = choose|qi: int|
            0 <= qi < s2.projects@.len() && s2.projects@[qi] == mid.projects@[pi];
        assert(s2.projects@[qi].dproj matches Some(d) && d@ == members[k].dproj@);
    }
    // A surviving project with a member link's id is the member's project.
    assert forall|k: int, pi: int|
        0 <= k < members.len() && 0 <= pi < s2.projects@.len() && (#[trigger] s2.projects@[pi]).id
            == (#[trigger] g.project_links@[k]).project_id implies (
    s2.projects@[pi].dproj matches Some(d) && d@ == members[k].dproj@) by {
        assert(mid.projects@.filter(pred)[pi] == s2.projects@[pi]);
        let pj = choose|pj: int|
            0 <= pj < mid.projects@.len() && mid.projects@.filter(pred)[pi] == mid.projects@[pj];
        let pi0 = targets[k];
        assert(mid.projects@[pi0].id == g.project_links@[k].project_id);
        if pj != pi0 {
            if pj < pi0 {
                assert(mid.projects@[pj].id != mid.projects@[pi0].id);
            } else {
                assert(mid.projects@[pi0].id != mid.projects@[pj].id);
            }
        }
        assert(s2.projects@[pi] == mid.projects@[pi0]);
    }
    // A fully matched member list created nothing, so the result is drawn
    // from the old projects alone.
    if all_members_matched(s1.projects@, members) {
        assert(mid.projects@ == s1.projects@);
        assert forall|pi: int| 0 <= pi < s2.projects@.len() implies exists|pj: int|
            0 <= pj < s1.projects@.len() && #[trigger] s2.projects@[pi] == s1.projects@[pj] by {
            assert(mid.projects@.filter(pred)[pi] == s2.projects@[pi]);
            let pj = choose|pj: int|
                0 <= pj < mid.projects@.len() && mid.projects@.filter(pred)[pi]
                    == mid.projects@[pj];
            assert(s2.projects@[pi] == s1.projects@[pj]);
        }
        mid.projects@.lemma_filter_len(pred);
    }
    // Workspace-linked projects survive.
    assert forall|pi: int|
        0 <= pi < n1 && linked_in_some_workspace(&s1, (#[trigger] s1.projects@[pi]).id)
            implies has_project(&s2, s1.projects@[pi].id) by {
        let pid = s1.projects@[pi].id;
        let wi = choose|wi: int|
            0 <= wi < s1.workspaces@.len() && (#[trigger] s1.workspaces@[wi]).links_project(pid);
        assert(mid.workspaces@[wi].links_project(pid));
        assert(spec_can_find_any_links(&mid, pid));
        assert(mid.projects@[pi] == s1.projects@[pi]);
        assert(pred(mid.projects@[pi]));
        mid.projects@.lemma_filter_contains(pred, pi);
        assert(s2.projects@.contains(mid.projects@[pi]));
        let qi = choose|qi: int|
            0 <= qi < s2.projects@.len() && s2.projects@[qi] == mid.projects@[pi];
        assert(s2.projects@[qi].id == pid);
    }
    // The selection survives whenever its project stays workspace-linked.
    match s1.active_project_id {
        Some(a) => {
            if linked_in_some_workspace(&s1, a) {
                let wi = choose|wi: int|
                    0 <= wi < s1.workspaces@.len() && (#[trigger] s1.workspaces@[wi]).links_project(
                        a,
                    );
                assert(mid.workspaces@[wi].links_project(a));
                assert(spec_can_find_any_links(&mid, a));
            }
        },
        None => {},
    }
    // The group links stand in member order by rank.
    assert forall|j1: int, j2: int| 0 <= j1 < j2 < members.len() implies (
    #[trigger] g.project_links@[j1]).sort_rank.spec_lt(
        &(#[trigger] g.project_links@[j2]).sort_rank,
    ) by {
        assert(group_links_rank_sorted(g.project_links@, members.len() as int));
    }
    // A member whose path an old project carried was linked to the first
    // such project; nothing new was made for it.
    assert forall|k: int|
        0 <= k < members.len() && projects_have_dproj(
            s1.projects@,
            (#[trigger] members[k]).dproj@,
        ) implies exists|pi: int|
        #[trigger] first_dproj_match(s1.projects@, members[k].dproj@, pi) && s1.projects@[pi].id
            == g.project_links@[k].project_id by {
        let pi = targets[k];
        assert(first_dproj_match(s1.projects@, members[k].dproj@, pi));
        assert(0 <= pi < n1);
        assert(mid.projects@[pi] == s1.projects@[pi]);
        assert(mid.projects@[pi].id == g.project_links@[k].project_id);
    }
    // Every surviving fresh project answers one unmatched member path, and
    // no two of them share a path.
    assert forall|pi: int|
        0 <= pi < s2.projects@.len() && (#[trigger] s2.projects@[pi]).id
            > s1.id_counter implies (s2.projects@[pi].dproj matches Some(d)
        && !projects_have_dproj(s1.projects@, d@) && exists|k: int|
        0 <= k < members.len() && (#[trigger] members[k]).dproj@ == d@) by {
        assert(mid.projects@.filter(pred)[pi] == s2.projects@[pi]);
        let pj = choose|pj: int|
            0 <= pj < mid.projects@.len() && mid.projects@.filter(pred)[pi] == mid.projects@[pj];
        if pj < n1 {
            assert(mid.projects@[pj] == s1.projects@[pj]);
            assert(s1.projects@[pj].id <= s1.id_counter);
            assert(false);
        }
        let k = choose|k: int|
            0 <= k < members.len() && (#[trigger] members[k]).dproj@ == (
            mid.projects@[pj].dproj->Some_0)@;
        assert(members[k].dproj@ == (s2.projects@[pi].dproj->Some_0)@);
    }
    assert forall|pi: int, pj: int|
        0 <= pi < pj < s2.projects@.len() && (#[trigger] s2.projects@[pi]).id > s1.id_counter && (
        #[trigger] s2.projects@[pj]).id > s1.id_counter implies match (
        s2.projects@[pi].dproj,
        s2.projects@[pj].dproj,
    ) {
        (Some(d1), Some(d2)) => d1@ != d2@,
        _ => true,
    } by {
        assert(mid.projects@.filter(pred)[pi] == s2.projects@[pi]);
        assert(mid.projects@.filter(pred)[pj] == s2.projects@[pj]);
        let (q1, q2) = choose|q1: int, q2: int|
            0 <= q1 < q2 < mid.projects@.len() && mid.projects@.filter(pred)[pi]
                == mid.projects@[q1] && mid.projects@.filter(pred)[pj] == mid.projects@[q2];
        if q1 < n1 {
            assert(mid.projects@[q1] == s1.projects@[q1]);
            assert(s1.projects@[q1].id <= s1.id_counter);
            assert(false);
        }
        if q2 < n1 {
            assert(mid.projects@[q2] == s1.projects@[q2]);
            assert(s1.projects@[q2].id <= s1.id_counter);
            assert(false);
        }
    }
    // An unmatched member's target is a fresh project, and it survives with
    // its path.
    assert forall|k: int|
        0 <= k < members.len() && !projects_have_dproj(
            s1.projects@,
            (#[trigger] members[k]).dproj@,
        ) implies exists|pi: int|
        0 <= pi < s2.projects@.len() && (#[trigger] s2.projects@[pi]).id > s1.id_counter && (
        s2.projects@[pi].dproj matches Some(d) && d@ == members[k].dproj@) by {
        let t = targets[k];
        assert(0 <= t < mid.projects@.len());
        assert(mid.projects@[t].dproj matches Some(d) && d@ == members[k].dproj@);
        assert(t >= n1) by {
            if t < n1 {
                assert(mid.projects@[t] == s1.projects@[t]);
                assert(projects_have_dproj(s1.projects@, members[k].dproj@));
            }
        }
        assert(mid.projects@[t].id > s1.id_counter);
        assert(g.links_project(mid.projects@[t].id)) by {
            assert(mid.projects@[t].id == g.project_links@[k].project_id);
        }
        assert(spec_can_find_any_links(&mid, mid.projects@[t].id));
        assert(pred(mid.projects@[t]));
        mid.projects@.lemma_filter_contains(pred, t);
        assert(s2.projects@.contains(mid.projects@[t]));
        let qi = choose|qi: int|
            0 <= qi < s2.projects@.len() && s2.projects@[qi] == mid.projects@[t];
        assert(s2.projects@[qi].id > s1.id_counter);
    }
    assert(s2.group_project matches Some(gg) && gg == g);
    assert(set_group_shape(s1, s2, path, compiler, members));
}

/// Links are sorted when no later one ranks strictly before an earlier one.
pub open spec fn links_sorted(l: Seq<ProjectLink>) -> bool {
    forall|i: int, j: int|
        0 <= i < j < l.len() ==> !(#[trigger] l[j]).sort_rank.spec_lt(&(#[trigger] l[i]).sort_rank)
}

/// Workspaces are sorted when no later one ranks strictly before an earlier
/// one.
pub open spec fn workspaces_sorted(ws: Seq<Workspace>) -> bool {
    forall|i: int, j: int|
        0 <= i < j < ws.len() ==> !(#[trigger] ws[j]).sort_rank.spec_lt(
            &(#[trigger] ws[i]).sort_rank,
        )
}

/// Inserting an element anywhere adds exactly it to the multiset.
proof fn lemma_to_multiset_insert<A>(s: Seq<A>, pos: int, x: A)
    requires
        0 <= pos <= s.len(),
    ensures
        s.insert(pos, x).to_multiset() == s.to_multiset().insert(x),
    decreases s.len(),
{
    broadcast use vstd::seq_lib::group_to_multiset_ensures;

    if pos == s.len() {
        assert(s.insert(pos, x) =~= s.push(x));
    } else {
        let dl = s.drop_last();
        lemma_to_multiset_insert(dl, pos, x);
        assert(s.insert(pos, x) =~= dl.insert(pos, x).push(s.last()));
        assert(s =~= dl.push(s.last()));
        assert(dl.insert(pos, x).push(s.last()).to_multiset() == dl.insert(
            pos,
            x,
        ).to_multiset().insert(s.last()));
        assert(dl.to_multiset().insert(x).insert(s.last()) =~= dl.to_multiset().insert(
            s.last(),
        ).insert(x));
    }
}

/// Sequences with one multiset keep one multiset under any element map.
proof fn lemma_to_multiset_map<A, B>(a: Seq<A>, b: Seq<A>, f: spec_fn(A) -> B)
    requires
        a.to_multiset() == b.to_multiset(),
    ensures
        a.map_values(f).to_multiset() == b.map_values(f).to_multiset(),
    decreases a.len(),
{
    broadcast use vstd::seq_lib::group_to_multiset_ensures;

    assert(a.to_multiset().len() == a.len());
    assert(b.to_multiset().len() == b.len());
    if a.len() == 0 {
        assert(a.map_values(f) =~= Seq::<B>::empty());
        assert(b.map_values(f) =~= Seq::<B>::empty());
    } else {
        let x = a.last();
        let dl = a.drop_last();
        assert(a =~= dl.push(x));
        assert(a.to_multiset() =~= dl.to_multiset().insert(x));
        assert(a.contains(x));
        assert(b.to_multiset().count(x) > 0);
        assert(b.contains(x));
        let k = choose|k: int| 0 <= k < b.len() && b[k] == x;
        assert(b.remove(k).to_multiset() =~= b.to_multiset().remove(x));
        assert(dl.to_multiset() =~= b.remove(k).to_multiset());
        lemma_to_multiset_map(dl, b.remove(k), f);
        assert(a.map_values(f) =~= dl.map_values(f).push(f(x)));
        assert(a.map_values(f).to_multiset() =~= dl.map_values(f).to_multiset().insert(f(x)));
        assert(b.map_values(f).remove(k) =~= b.remove(k).map_values(f)) by {
            b.remove_ensures(k);
            assert forall|i: int|
                0 <= i < b.len() - 1 implies b.map_values(f).remove(k)[i] == b.remove(
                k,
            ).map_values(f)[i] by {
                if i < k {
                    assert(b.remove(k)[i] == b[i]);
                } else {
                    assert(b.remove(k)[i] == b[i + 1]);
                }
            }
        }
        assert(b.map_values(f).remove(k).to_multiset() =~= b.map_values(f).to_multiset().remove(
            f(x),
        )) by {
            assert(b.map_values(f)[k] == f(x));
        }
        assert(b.map_values(f).to_multiset().count(f(x)) > 0) by {
            assert(b.map_values(f)[k] == f(x));
            assert(b.map_values(f).contains(f(x)));
        }
        assert(b.map_values(f).to_multiset() =~= b.map_values(f).remove(k).to_multiset().insert(
            f(x),
        ));
    }
}

/// The ids of a workspace list, in list order.
pub open spec fn workspace_ids(ws: Seq<Workspace>) -> Seq<usize> {
    ws.map_values(|w: Workspace| w.id)
}

/// Two sequences with one multiset have one length, and each element of one
/// is contained in the other.
proof fn lemma_permutation_membership<A>(a: Seq<A>, b: Seq<A>)
    requires
        a.to_multiset() == b.to_multiset(),
    ensures
        a.len() == b.len(),
        forall|i: int| 0 <= i < b.len() ==> a.contains(#[trigger] b[i]),
{
    broadcast use vstd::seq_lib::group_to_multiset_ensures;

    assert(a.to_multiset().len() == a.len());
    assert(b.to_multiset().len() == b.len());
    assert forall|i: int| 0 <= i < b.len() implies a.contains(#[trigger] b[i]) by {
        assert(b.contains(b[i]));
        assert(b.to_multiset().count(b[i]) > 0);
    }
}

/// Sorts links in place by their ranks: same links, ordered.
fn sort_links_by_rank(v: &mut Vec<ProjectLink>)
    ensures
        final(v)@.to_multiset() == old(v)@.to_multiset(),
        final(v)@.len() == old(v)@.len(),
        links_sorted(final(v)@),
{
    let ghost orig = old(v)@;
    proof {
        broadcast use vstd::seq_lib::group_to_multiset_ensures;

    }
    let mut i: usize = 0;
    while i < v.len()
        invariant
            i <= v@.len(),
            v@.to_multiset() == orig.to_multiset(),
            v@.len() == orig.len(),
            forall|a: int, b: int|
                0 <= a < b < i ==> !(#[trigger] v@[b]).sort_rank.spec_lt(
                    &(#[trigger] v@[a]).sort_rank,
                ),
            forall|a: int, b: int|
                0 <= a < i <= b < v@.len() ==> !(#[trigger] v@[b]).sort_rank.spec_lt(
                    &(#[trigger] v@[a]).sort_rank,
                ),
        decreases v@.len() - i,
    {
        // Find the least remaining link.
        let mut m: usize = i;
        let mut j: usize = i + 1;
        proof {
            lemma_key_order_irrefl(v@[i as int].sort_rank);
        }
        while j < v.len()
            invariant
                i <= m < j <= v@.len(),
                forall|b: int|
                    i <= b < j ==> !(#[trigger] v@[b]).sort_rank.spec_lt(
                        &v@[m as int].sort_rank,
                    ),
            decreases v@.len() - j,
        {
            if v[j].sort_rank.lt(&v[m].sort_rank) {
                proof {
                    assert forall|b: int| i <= b < j + 1 implies !(
                    #[trigger] v@[b]).sort_rank.spec_lt(&v@[j as int].sort_rank) by {
                        if b < j {
                            if v@[b].sort_rank.spec_lt(&v@[j as int].sort_rank) {
                                lemma_key_order_trans(
                                    v@[b].sort_rank,
                                    v@[j as int].sort_rank,
                                    v@[m as int].sort_rank,
                                );
                            }
                        } else {
                            lemma_key_order_irrefl(v@[j as int].sort_rank);
                        }
                    }
                }
                m = j;
            }
            j += 1;
        }
        let ghost before = v@;
        let x = v.remove(m);
        v.insert(i, x);
        proof {
            broadcast use vstd::seq_lib::group_to_multiset_ensures;

            assert(before.remove(m as int).to_multiset() =~= before.to_multiset().remove(x));
            lemma_to_multiset_insert(before.remove(m as int), i as int, x);
            assert(v@.to_multiset() =~= before.to_multiset());
            before.remove_ensures(m as int);
            before.remove(m as int).insert_ensures(i as int, x);
            assert(v@ =~= before.remove(m as int).insert(i as int, x));
            // Prefix untouched, the minimum now at position `i`, the rest a
            // rearrangement of the old tail.
            assert forall|c: int| 0 <= c < i implies #[trigger] v@[c] == before[c] by {}
            assert(v@[i as int] == x);
            assert forall|b: int| i < b < v@.len() implies exists|c: int|
                i <= c < before.len() && #[trigger] v@[b] == before[c] by {
                if b <= m {
                    assert(v@[b] == before[b - 1]);
                } else {
                    assert(v@[b] == before[b]);
                }
            }
            assert forall|a: int, b: int|
                0 <= a < b < i + 1 implies !(#[trigger] v@[b]).sort_rank.spec_lt(
                &(#[trigger] v@[a]).sort_rank,
            ) by {
                if b == i {
                    assert(v@[a] == before[a]);
                    assert(!x.sort_rank.spec_lt(&before[a].sort_rank));
                }
            }
            assert forall|a: int, b: int|
                0 <= a < i + 1 <= b < v@.len() implies !(#[trigger] v@[b]).sort_rank.spec_lt(
                &(#[trigger] v@[a]).sort_rank,
            ) by {
                let c = choose|c: int| i <= c < before.len() && v@[b] == before[c];
                if a < i {
                    assert(v@[a] == before[a]);
                    assert(!before[c].sort_rank.spec_lt(&before[a].sort_rank));
                } else {
                    assert(v@[a] == x);
                    assert(!before[c].sort_rank.spec_lt(&x.sort_rank));
                }
            }
        }
        i += 1;
    }
}

/// Sorts workspaces in place by their ranks: same workspaces, ordered.
fn sort_workspaces_by_rank(v: &mut Vec<Workspace>)
    ensures
        final(v)@.to_multiset() == old(v)@.to_multiset(),
        final(v)@.len() == old(v)@.len(),
        workspaces_sorted(final(v)@),
{
    let ghost orig = old(v)@;
    let mut i: usize = 0;
    while i < v.len()
        invariant
            i <= v@.len(),
            v@.to_multiset() == orig.to_multiset(),
            v@.len() == orig.len(),
            forall|a: int, b: int|
                0 <= a < b < i ==> !(#[trigger] v@[b]).sort_rank.spec_lt(
                    &(#[trigger] v@[a]).sort_rank,
                ),
            forall|a: int, b: int|
                0 <= a < i <= b < v@.len() ==> !(#[trigger] v@[b]).sort_rank.spec_lt(
                    &(#[trigger] v@[a]).sort_rank,
                ),
        decreases v@.len() - i,
    {
        let mut m: usize = i;
        let mut j: usize = i + 1;
        proof {
            lemma_key_order_irrefl(v@[i as int].sort_rank);
        }
        while j < v.len()
            invariant
                i <= m < j <= v@.len(),
                forall|b: int|
                    i <= b < j ==> !(#[trigger] v@[b]).sort_rank.spec_lt(
                        &v@[m as int].sort_rank,
                    ),
            decreases v@.len() - j,
        {
            if v[j].sort_rank.lt(&v[m].sort_rank) {
                proof {
                    assert forall|b: int| i <= b < j + 1 implies !(
                    #[trigger] v@[b]).sort_rank.spec_lt(&v@[j as int].sort_rank) by {
                        if b < j {
                            if v@[b].sort_rank.spec_lt(&v@[j as int].sort_rank) {
                                lemma_key_order_trans(
                                    v@[b].sort_rank,
                                    v@[j as int].sort_rank,
                                    v@[m as int].sort_rank,
                                );
                            }
                        } else {
                            lemma_key_order_irrefl(v@[j as int].sort_rank);
                        }
                    }
                }
                m = j;
            }
            j += 1;
        }
        let ghost before = v@;
        let x = v.remove(m);
        v.insert(i, x);
        proof {
            broadcast use vstd::seq_lib::group_to_multiset_ensures;

            assert(before.remove(m as int).to_multiset() =~= before.to_multiset().remove(x));
            lemma_to_multiset_insert(before.remove(m as int), i as int, x);
            assert(v@.to_multiset() =~= before.to_multiset());
            before.remove_ensures(m as int);
            before.remove(m as int).insert_ensures(i as int, x);
            assert(v@ =~= before.remove(m as int).insert(i as int, x));
            assert forall|c: int| 0 <= c < i implies #[trigger] v@[c] == before[c] by {}
            assert(v@[i as int] == x);
            assert forall|b: int| i < b < v@.len() implies exists|c: int|
                i <= c < before.len() && #[trigger] v@[b] == before[c] by {
                if b <= m {
                    assert(v@[b] == before[b - 1]);
                } else {
                    assert(v@[b] == before[b]);
                }
            }
            assert forall|a: int, b: int|
                0 <= a < b < i + 1 implies !(#[trigger] v@[b]).sort_rank.spec_lt(
                &(#[trigger] v@[a]).sort_rank,
            ) by {
                if b == i {
                    assert(v@[a] == before[a]);
                    assert(!x.sort_rank.spec_lt(&before[a].sort_rank));
                }
            }
            assert forall|a: int, b: int|
                0 <= a < i + 1 <= b < v@.len() implies !(#[trigger] v@[b]).sort_rank.spec_lt(
                &(#[trigger] v@[a]).sort_rank,
            ) by {
                let c = choose|c: int| i <= c < before.len() && v@[b] == before[c];
                if a < i {
                    assert(v@[a] == before[a]);
                    assert(!before[c].sort_rank.spec_lt(&before[a].sort_rank));
                } else {
                    assert(v@[a] == x);
                    assert(!before[c].sort_rank.spec_lt(&x.sort_rank));
                }
            }
        }
        i += 1;
    }
}

/// Where in the store a link id was found.
enum LinkLocation {
    /// Workspace index, then link index within it.
    InWorkspace(usize, usize),
    /// Link index within the group project.
    InGroup(usize),
    /// No container holds the link.
    Nowhere,
}

/// How `remove_project_link` transforms the store for the link's target
/// project `pid`: the link is filtered out of every container; the project
/// follows it out — clearing the selection if it was selected — exactly when
/// no other link referenced it.
pub open spec fn remove_project_link_shape(
    s1: ProjectsData,
    s2: ProjectsData,
    link_id: usize,
    pid: usize,
) -> bool {
    &&& s2.id_counter == s1.id_counter
    &&& s2.workspaces@.len() == s1.workspaces@.len()
    &&& forall|wi: int|
        0 <= wi < s1.workspaces@.len() ==> same_workspace_with_links(
            #[trigger] s1.workspaces@[wi],
            #[trigger] s2.workspaces@[wi],
            s1.workspaces@[wi].project_links@.filter(other_link(link_id)),
        )
    &&& match s1.group_project {
        Some(g1) => s2.group_project matches Some(g2) && same_group_with_links(
            g1,
            g2,
            g1.project_links@.filter(other_link(link_id)),
        ),
        None => s2.group_project is None,
    }
    &&& if has_other_link_to(&s1, link_id, pid) {
        s2.projects == s1.projects && s2.active_project_id == s1.active_project_id
    } else {
        s2.projects@ == s1.projects@.filter(other_project(pid)) && s2.active_project_id == if s1.active_project_id == Some(pid) {
            None::<usize>
        } else {
            s1.active_project_id
        }
    }
}

/// How `remove_workspace` transforms the store: the workspace is filtered
/// out, every project only reachable through it is pruned, and the
/// selection is cleared when its project went.
pub open spec fn remove_workspace_shape(s1: ProjectsData, s2: ProjectsData, workspace_id: usize) -> bool {
    &&& s2.id_counter == s1.id_counter
    &&& s2.workspaces@ == s1.workspaces@.filter(other_workspace(workspace_id))
    &&& s2.group_project == s1.group_project
    &&& s2.projects@ == s1.projects@.filter(linked_outside_workspace_pred(s1, workspace_id))
    &&& s2.active_project_id == if (s1.active_project_id matches Some(a)
        && !linked_outside_workspace(&s1, workspace_id, a)) {
        None::<usize>
    } else {
        s1.active_project_id
    }
}

/// How `new_project` transforms the store on success: the counter advances
/// by two, a project classified from the path is appended, and a link to it
/// with the default rank is appended to the target workspace.
pub open spec fn new_project_shape(
    s1: ProjectsData,
    s2: ProjectsData,
    path: Seq<char>,
    workspace_id: usize,
) -> bool {
    &&& s2.id_counter == s1.id_counter + 2
    &&& s2.active_project_id == s1.active_project_id
    &&& s2.group_project == s1.group_project
    &&& s2.projects@.len() == s1.projects@.len() + 1
    &&& s2.projects@.take(s1.projects@.len() as int) == s1.projects@
    &&& ({
        let p = s2.projects@.last();
        &&& p.id == s1.id_counter + 1
        &&& p.name@ == stem_text(path)
        &&& p.directory@ == parent_text(path)
        &&& match project_kind_of(path) {
            ProjectKind::Description => (p.dproj matches Some(d) && d@ == path) && p.dpr is None
                && p.dpk is None,
            ProjectKind::Program => p.dproj is None && (p.dpr matches Some(d) && d@ == path)
                && p.dpk is None,
            ProjectKind::Package => p.dproj is None && p.dpr is None && (p.dpk matches Some(d)
                && d@ == path),
            ProjectKind::Unknown => false,
        }
        &&& p.exe is None
        &&& p.ini is None
    })
    &&& s2.workspaces@.len() == s1.workspaces@.len()
    &&& forall|wi: int|
        0 <= wi < s1.workspaces@.len() && (#[trigger] s1.workspaces@[wi]).id != workspace_id
            ==> s2.workspaces@[wi] == s1.workspaces@[wi]
    &&& forall|wi: int|
        0 <= wi < s1.workspaces@.len() && (#[trigger] s1.workspaces@[wi]).id == workspace_id ==> {
            let w1 = s1.workspaces@[wi];
            let w2 = s2.workspaces@[wi];
            &&& w2.id == w1.id
            &&& w2.name == w1.name
            &&& w2.compiler_id == w1.compiler_id
            &&& w2.sort_rank == w1.sort_rank
            &&& w2.project_links@.len() == w1.project_links@.len() + 1
            &&& w2.project_links@.take(w1.project_links@.len() as int) == w1.project_links@
            &&& ({
                let link = w2.project_links@.last();
                &&& link.id == s1.id_counter + 2
                &&& link.project_id == s1.id_counter + 1
                &&& is_middle_key(link.sort_rank)
            })
        }
}

/// The link list with the rank of one link replaced by a value strictly
/// between the two given neighbour ranks; every other link untouched.
pub open spec fn links_moved(
    l1: Seq<ProjectLink>,
    l2: Seq<ProjectLink>,
    link_id: usize,
    prev: LexoRank,
    nxt: LexoRank,
) -> bool {
    &&& l2.len() == l1.len()
    &&& forall|li: int|
        0 <= li < l1.len() ==> {
            let a = #[trigger] l1[li];
            let b = #[trigger] l2[li];
            &&& b.id == a.id
            &&& b.project_id == a.project_id
            &&& (a.id != link_id ==> b == a)
            &&& (a.id == link_id ==> {
                &&& b.sort_rank.wf()
                &&& b.sort_rank.spec_bucket() == prev.spec_bucket()
                &&& symbols_lt(prev.spec_rank(), b.sort_rank.spec_rank())
                &&& symbols_lt(b.sort_rank.spec_rank(), nxt.spec_rank())
            })
        }
}

/// How `move_project_link` transforms the store on success: only the moved
/// link's rank changes, to a value strictly between the given neighbours.
pub open spec fn move_link_shape(
    s1: ProjectsData,
    s2: ProjectsData,
    link_id: usize,
    prev: LexoRank,
    nxt: LexoRank,
) -> bool {
    &&& s2.id_counter == s1.id_counter
    &&& s2.active_project_id == s1.active_project_id
    &&& s2.projects == s1.projects
    &&& s2.workspaces@.len() == s1.workspaces@.len()
    &&& forall|wi: int|
        0 <= wi < s1.workspaces@.len() ==> {
            let w1 = #[trigger] s1.workspaces@[wi];
            let w2 = #[trigger] s2.workspaces@[wi];
            &&& w2.id == w1.id
            &&& w2.name == w1.name
            &&& w2.compiler_id == w1.compiler_id
            &&& w2.sort_rank == w1.sort_rank
            &&& links_moved(w1.project_links@, w2.project_links@, link_id, prev, nxt)
        }
    &&& match s1.group_project {
        Some(g1) => s2.group_project matches Some(g2) && g2.name == g1.name && g2.path == g1.path
            && g2.compiler_id == g1.compiler_id && links_moved(
            g1.project_links@,
            g2.project_links@,
            link_id,
            prev,
            nxt,
        ),
        None => s2.group_project is None,
    }
}

/// One member of an external project group, as the surrounding
/// application's parser and path discovery deliver it: the member's
/// project-description path and whatever classified paths discovery found.
#[derive(Clone, Debug, PartialEq, Eq)]
pub struct GroupMember {
    /// Path of the member's project-description file.
    pub dproj: String,
    /// Discovered program main source, when any.
    pub dpr: Option<String>,
    /// Discovered package main source, when any.
    pub dpk: Option<String>,
    /// Discovered executable path, when any.
    pub exe: Option<String>,
    /// Discovered settings file path, when any.
    pub ini: Option<String>,
}

/// Some project in the list has the given project-description path.
pub open spec fn projects_have_dproj(ps: Seq<Project>, path: Seq<char>) -> bool {
    exists|i: int|
        0 <= i < ps.len() && ((#[trigger] ps[i]).dproj matches Some(d) && d@ == path)
}

/// Position `i` holds the first project of the list whose description path
/// is the given one.
pub open spec fn first_dproj_match(ps: Seq<Project>, path: Seq<char>, i: int) -> bool {
    &&& 0 <= i < ps.len()
    &&& (ps[i].dproj matches Some(d) && d@ == path)
    &&& forall|j: int| 0 <= j < i ==> !((#[trigger] ps[j]).dproj matches Some(d) && d@ == path)
}

/// Every member's path already matches some project in the list.
pub open spec fn all_members_matched(ps: Seq<Project>, members: Seq<GroupMember>) -> bool {
    forall|k: int| 0 <= k < members.len() ==> projects_have_dproj(ps, (#[trigger] members[k]).dproj@)
}

/// The first `k` group links each target a project in the list, found at
/// the recorded position, whose description path is the matching member's.
pub open spec fn link_targets_ok(
    ps: Seq<Project>,
    gl: Seq<ProjectLink>,
    members: Seq<GroupMember>,
    targets: Seq<int>,
    k: int,
) -> bool {
    forall|j: int|
        0 <= j < k ==> {
            &&& 0 <= #[trigger] targets[j] < ps.len()
            &&& ps[targets[j]].id == gl[j].project_id
            &&& (ps[targets[j]].dproj matches Some(d) && d@ == members[j].dproj@)
        }
}

/// The first `k` group links carry strictly increasing ranks: read back
/// sorted by rank, the group lists its members in member order.
pub open spec fn group_links_rank_sorted(gl: Seq<ProjectLink>, k: int) -> bool {
    forall|j1: int, j2: int|
        0 <= j1 < j2 < k ==> (#[trigger] gl[j1]).sort_rank.spec_lt(&(#[trigger] gl[j2]).sort_rank)
}

/// Among the first `k` members, one whose path an old project already
/// carried was matched to the first such project, at the recorded position.
pub open spec fn matched_targets_ok(
    s1ps: Seq<Project>,
    members: Seq<GroupMember>,
    targets: Seq<int>,
    k: int,
) -> bool {
    forall|j: int|
        0 <= j < k && projects_have_dproj(s1ps, (#[trigger] members[j]).dproj@) ==> 0 <= targets[j]
            < s1ps.len() && first_dproj_match(s1ps, members[j].dproj@, targets[j])
}

/// The projects appended past the old list each carry the path of one of
/// the first `k` members, a path no old project had, and no two of them
/// share a path: one new project per distinct unmatched path.
pub open spec fn new_projects_ok(
    s1ps: Seq<Project>,
    ps: Seq<Project>,
    members: Seq<GroupMember>,
    k: int,
) -> bool {
    &&& forall|pi: int|
        s1ps.len() <= pi < ps.len() ==> ((#[trigger] ps[pi]).dproj matches Some(d)
            && !projects_have_dproj(s1ps, d@) && exists|j: int|
            0 <= j < k && (#[trigger] members[j]).dproj@ == d@)
    &&& forall|pi: int, pj: int|
        s1ps.len() <= pi < pj < ps.len() ==> match ((#[trigger] ps[pi]).dproj, (
        #[trigger] ps[pj]).dproj) {
            (Some(d1), Some(d2)) => d1@ != d2@,
            _ => true,
        }
}

/// How `set_group_project` transforms the store on success. The new group
/// carries one link per member, in order, each to a project whose
/// description path is that member's; a member whose path matched an
/// existing project reuses it, so a member list that matches throughout
/// creates no project at all — reconciliation is idempotent. Workspaces are
/// untouched; projects reachable from a workspace survive; projects only
/// reachable through the replaced group and matched by no member are
/// pruned, clearing the selection when its project goes.
pub open spec fn set_group_shape(
    s1: ProjectsData,
    s2: ProjectsData,
    path: Seq<char>,
    compiler: Seq<char>,
    members: Seq<GroupMember>,
) -> bool {
    &&& s2.workspaces == s1.workspaces
    &&& s1.id_counter <= s2.id_counter <= s1.id_counter + 2 * members.len()
    &&& (s2.group_project matches Some(g) && {
        &&& g.name@ == stem_text(path)
        &&& g.path@ == path
        &&& g.compiler_id@ == compiler
        &&& g.project_links@.len() == members.len()
        &&& forall|k: int, pi: int|
            0 <= k < members.len() && 0 <= pi < s2.projects@.len() && (
            #[trigger] s2.projects@[pi]).id == (#[trigger] g.project_links@[k]).project_id ==> (
            s2.projects@[pi].dproj matches Some(d) && d@ == members[k].dproj@)
        &&& forall|j1: int, j2: int|
            0 <= j1 < j2 < members.len() ==> (#[trigger] g.project_links@[j1]).sort_rank.spec_lt(
                &(#[trigger] g.project_links@[j2]).sort_rank,
            )
        &&& forall|k: int|
            0 <= k < members.len() && projects_have_dproj(
                s1.projects@,
                (#[trigger] members[k]).dproj@,
            ) ==> exists|pi: int|
                #[trigger] first_dproj_match(s1.projects@, members[k].dproj@, pi)
                    && s1.projects@[pi].id == g.project_links@[k].project_id
    })
    &&& forall|pi: int|
        0 <= pi < s2.projects@.len() && (#[trigger] s2.projects@[pi]).id > s1.id_counter ==> (
        s2.projects@[pi].dproj matches Some(d) && !projects_have_dproj(s1.projects@, d@) && exists|
            k: int,
        |
            0 <= k < members.len() && (#[trigger] members[k]).dproj@ == d@)
    &&& forall|pi: int, pj: int|
        0 <= pi < pj < s2.projects@.len() && (#[trigger] s2.projects@[pi]).id > s1.id_counter && (
        #[trigger] s2.projects@[pj]).id > s1.id_counter ==> match (
        s2.projects@[pi].dproj,
        s2.projects@[pj].dproj,
    ) {
        (Some(d1), Some(d2)) => d1@ != d2@,
        _ => true,
    }
    &&& forall|k: int|
        0 <= k < members.len() && !projects_have_dproj(
            s1.projects@,
            (#[trigger] members[k]).dproj@,
        ) ==> exists|pi: int|
            0 <= pi < s2.projects@.len() && (#[trigger] s2.projects@[pi]).id > s1.id_counter && (
            s2.projects@[pi].dproj matches Some(d) && d@ == members[k].dproj@)
    &&& forall|k: int|
        0 <= k < members.len() ==> projects_have_dproj(s2.projects@, (#[trigger] members[k]).dproj@)
    &&& (all_members_matched(s1.projects@, members) ==> {
        &&& s2.projects@.len() <= s1.projects@.len()
        &&& forall|pi: int|
            0 <= pi < s2.projects@.len() ==> exists|pj: int|
                0 <= pj < s1.projects@.len() && #[trigger] s2.projects@[pi] == s1.projects@[pj]
    })
    &&& forall|pi: int|
        0 <= pi < s1.projects@.len() && linked_in_some_workspace(
            &s1,
            (#[trigger] s1.projects@[pi]).id,
        ) ==> has_project(&s2, s1.projects@[pi].id)
    &&& (s2.active_project_id matches Some(a) ==> s1.active_project_id == Some(a))
    &&& (match s1.active_project_id {
        Some(a) => linked_in_some_workspace(&s1, a) ==> s2.active_project_id == Some(a),
        None => s2.active_project_id is None,
    })
}

/// The workspace is one of the list, up to the order of its links.
pub open spec fn corresponds_to_one_of(ws1: Seq<Workspace>, w: Workspace) -> bool {
    exists|wj: int| 0 <= wj < ws1.len() && same_workspace_up_to_link_order(#[trigger] ws1[wj], w)
}

/// Every workspace of the second list is one of the first, up to the order
/// of its links.
pub open spec fn sorted_correspondence(ws1: Seq<Workspace>, ws2: Seq<Workspace>) -> bool {
    forall|wi: int| 0 <= wi < ws2.len() ==> corresponds_to_one_of(ws1, #[trigger] ws2[wi])
}

/// `w2` is `w1` with its links possibly reordered: same identity, fields
/// and rank, and the same links as a multiset.
pub open spec fn same_workspace_up_to_link_order(w1: Workspace, w2: Workspace) -> bool {
    &&& w2.id == w1.id
    &&& w2.name == w1.name
    &&& w2.compiler_id == w1.compiler_id
    &&& w2.sort_rank == w1.sort_rank
    &&& w2.project_links@.to_multiset() == w1.project_links@.to_multiset()
}

/// Reconciling the same member list a second time creates no project: the
/// first pass left every member's path present, so the second only relinks.
pub proof fn lemma_group_reconciliation_idempotent(
    s0: ProjectsData,
    s1: ProjectsData,
    s2: ProjectsData,
    path: Seq<char>,
    compiler: Seq<char>,
    members: Seq<GroupMember>,
)
    requires
        set_group_shape(s0, s1, path, compiler, members),
        set_group_shape(s1, s2, path, compiler, members),
    ensures
        s2.projects@.len() <= s1.projects@.len(),
        forall|pi: int|
            0 <= pi < s2.projects@.len() ==> exists|pj: int|
                0 <= pj < s1.projects@.len() && #[trigger] s2.projects@[pi] == s1.projects@[pj],
{
    assert(all_members_matched(s1.projects@, members));
}

/// How `update_project` transforms the store on success: only the named
/// project changes, and only in the fields the partial update carries.
pub open spec fn update_project_fields_shape(
    s1: ProjectsData,
    s2: ProjectsData,
    project_id: usize,
    data: ProjectUpdateData,
) -> bool {
    &&& s2.id_counter == s1.id_counter
    &&& s2.active_project_id == s1.active_project_id
    &&& s2.workspaces == s1.workspaces
    &&& s2.group_project == s1.group_project
    &&& s2.projects@.len() == s1.projects@.len()
    &&& forall|i: int|
        0 <= i < s1.projects@.len() && (#[trigger] s1.projects@[i]).id != project_id
            ==> s2.projects@[i] == s1.projects@[i]
    &&& forall|i: int|
        0 <= i < s1.projects@.len() && (#[trigger] s1.projects@[i]).id == project_id ==> {
            let p1 = s1.projects@[i];
            let p2 = s2.projects@[i];
            &&& p2.id == p1.id
            &&& p2.name == if data.name is Some {
                data.name->Some_0
            } else {
                p1.name
            }
            &&& p2.directory == if data.directory is Some {
                data.directory->Some_0
            } else {
                p1.directory
            }
            &&& p2.dproj == if data.dproj is Some {
                data.dproj
            } else {
                p1.dproj
            }
            &&& p2.dpr == if data.dpr is Some {
                data.dpr
            } else {
                p1.dpr
            }
            &&& p2.dpk == if data.dpk is Some {
                data.dpk
            } else {
                p1.dpk
            }
            &&& p2.exe == if data.exe is Some {
                data.exe
            } else {
                p1.exe
            }
            &&& p2.ini == if data.ini is Some {
                data.ini
            } else {
                p1.ini
            }
        }
}

/// How `add_project_link` transforms the store on success: one fresh link
/// to the named project is appended at the end of the named workspace.
pub open spec fn add_link_shape(
    s1: ProjectsData,
    s2: ProjectsData,
    project_id: usize,
    workspace_id: usize,
) -> bool {
    &&& s2.id_counter == s1.id_counter + 1
    &&& s2.active_project_id == s1.active_project_id
    &&& s2.projects == s1.projects
    &&& s2.group_project == s1.group_project
    &&& s2.workspaces@.len() == s1.workspaces@.len()
    &&& forall|wi: int|
        0 <= wi < s1.workspaces@.len() && (#[trigger] s1.workspaces@[wi]).id != workspace_id
            ==> s2.workspaces@[wi] == s1.workspaces@[wi]
    &&& forall|wi: int|
        0 <= wi < s1.workspaces@.len() && (#[trigger] s1.workspaces@[wi]).id == workspace_id ==> {
            let w1 = s1.workspaces@[wi];
            let w2 = s2.workspaces@[wi];
            &&& w2.id == w1.id
            &&& w2.name == w1.name
            &&& w2.compiler_id == w1.compiler_id
            &&& w2.sort_rank == w1.sort_rank
            &&& w2.project_links@.len() == w1.project_links@.len() + 1
            &&& w2.project_links@.take(w1.project_links@.len() as int) == w1.project_links@
            &&& ({
                let link = w2.project_links@.last();
                &&& link.id == s1.id_counter + 1
                &&& link.project_id == project_id
                &&& link.sort_rank.wf()
                &&& if w1.project_links@.len() == 0 {
                    is_middle_key(link.sort_rank)
                } else {
                    link.sort_rank.spec_bucket()
                        == w1.project_links@.last().sort_rank.spec_bucket()
                        && link.sort_rank.spec_rank() == next_symbols(
                        w1.project_links@.last().sort_rank.spec_rank(),
                    )
                }
            })
        }
}

/// How `new_workspace` transforms the store on success: one fresh, empty
/// workspace is appended, ranked after the current last.
pub open spec fn add_workspace_shape(
    s1: ProjectsData,
    s2: ProjectsData,
    name: Seq<char>,
    compiler: Seq<char>,
) -> bool {
    &&& s2.id_counter == s1.id_counter + 1
    &&& s2.active_project_id == s1.active_project_id
    &&& s2.projects == s1.projects
    &&& s2.group_project == s1.group_project
    &&& s2.workspaces@.len() == s1.workspaces@.len() + 1
    &&& s2.workspaces@.take(s1.workspaces@.len() as int) == s1.workspaces@
    &&& ({
        let w = s2.workspaces@.last();
        &&& w.id == s1.id_counter + 1
        &&& w.name@ == name
        &&& w.compiler_id@ == compiler
        &&& w.project_links@.len() == 0
        &&& w.sort_rank.wf()
        &&& if s1.workspaces@.len() == 0 {
            is_middle_key(w.sort_rank)
        } else {
            w.sort_rank.spec_bucket() == s1.workspaces@.last().sort_rank.spec_bucket()
                && w.sort_rank.spec_rank() == next_symbols(
                s1.workspaces@.last().sort_rank.spec_rank(),
            )
        }
    })
}

/// How `update_workspace` transforms the store on success: only the named
/// workspace changes, and only in the fields the partial update carries.
pub open spec fn update_workspace_fields_shape(
    s1: ProjectsData,
    s2: ProjectsData,
    workspace_id: usize,
    data: WorkspaceUpdateData,
) -> bool {
    &&& s2.id_counter == s1.id_counter
    &&& s2.active_project_id == s1.active_project_id
    &&& s2.projects == s1.projects
    &&& s2.group_project == s1.group_project
    &&& s2.workspaces@.len() == s1.workspaces@.len()
    &&& forall|wi: int|
        0 <= wi < s1.workspaces@.len() && (#[trigger] s1.workspaces@[wi]).id != workspace_id
            ==> s2.workspaces@[wi] == s1.workspaces@[wi]
    &&& forall|wi: int|
        0 <= wi < s1.workspaces@.len() && (#[trigger] s1.workspaces@[wi]).id == workspace_id ==> {
            let w1 = s1.workspaces@[wi];
            let w2 = s2.workspaces@[wi];
            &&& w2.id == w1.id
            &&& w2.project_links == w1.project_links
            &&& w2.sort_rank == w1.sort_rank
            &&& w2.name == if data.name is Some {
                data.name->Some_0
            } else {
                w1.name
            }
            &&& w2.compiler_id == if data.compiler is Some {
                data.compiler->Some_0
            } else {
                w1.compiler_id
            }
        }
}

/// How `move_workspace` transforms the store on success: only the named
/// workspace's rank changes, to a value strictly between the neighbours.
pub open spec fn move_workspace_shape(
    s1: ProjectsData,
    s2: ProjectsData,
    workspace_id: usize,
    prev: LexoRank,
    nxt: LexoRank,
) -> bool {
    &&& s2.id_counter == s1.id_counter
    &&& s2.active_project_id == s1.active_project_id
    &&& s2.projects == s1.projects
    &&& s2.group_project == s1.group_project
    &&& s2.workspaces@.len() == s1.workspaces@.len()
    &&& forall|wi: int|
        0 <= wi < s1.workspaces@.len() ==> {
            let w1 = #[trigger] s1.workspaces@[wi];
            let w2 = #[trigger] s2.workspaces@[wi];
            &&& (w1.id != workspace_id ==> w2 == w1)
            &&& (w1.id == workspace_id ==> {
                &&& w2.id == w1.id
                &&& w2.name == w1.name
                &&& w2.compiler_id == w1.compiler_id
                &&& w2.project_links == w1.project_links
                &&& w2.sort_rank.wf()
                &&& w2.sort_rank.spec_bucket() == prev.spec_bucket()
                &&& symbols_lt(prev.spec_rank(), w2.sort_rank.spec_rank())
                &&& symbols_lt(w2.sort_rank.spec_rank(), nxt.spec_rank())
            })
        }
}

impl Default for ProjectsData {
    /// The empty store every fresh or unreadable persisted file stands for.
    fn default() -> (result: ProjectsData)
        ensures
            result.id_counter == 0,
            result.active_project_id is None,
            result.workspaces@ =~= Seq::<Workspace>::empty(),
            result.projects@ =~= Seq::<Project>::empty(),
            result.group_project is None,
            result.wf(),
    {
        ProjectsData {
            id_counter: 0,
            active_project_id: None,
            workspaces: Vec::new(),
            projects: Vec::new(),
            group_project: None,
        }
    }
}

} // verus!

//! The workspace manager: the lifecycle of named workspaces.
//!
//! The manager owns one repository per workspace name. Creating a name
//! that exists is a `Conflict`; opening or destroying a name that does not
//! is `NotFound`. A workspace comes into being fully bootstrapped — see
//! `Workspace::create` — so callers never see an empty history.

use vstd::prelude::*;
use crate::errors::RepoError;
use crate::order::str_eq;
use crate::workspace::{fresh_workspace, Workspace, WorkspaceV};

verus! {

/// One managed workspace: its name and its repository.
pub struct WorkspaceEntry {
    pub name: String,
    pub workspace: Workspace,
}

/// The mathematical picture of one managed workspace.
#[verifier::ext_equal]
pub struct WorkspaceEntryV {
    pub name: Seq<char>,
    pub workspace: WorkspaceV,
}

impl View for WorkspaceEntry {
    type V = WorkspaceEntryV;

    open spec fn view(&self) -> WorkspaceEntryV {
        WorkspaceEntryV { name: self.name@, workspace: self.workspace@ }
    }
}

/// The workspace bound to `name`: the first entry of that name (under
/// `names_unique` there is at most one).
pub open spec fn ws_list_lookup(list: Seq<WorkspaceEntryV>, name: Seq<char>) -> Option<WorkspaceV>
    decreases list.len(),
{
    if list.len() == 0 {
        None
    } else if list[0].name == name {
        Some(list[0].workspace)
    } else {
        ws_list_lookup(list.drop_first(), name)
    }
}

/// A workspace of this name exists.
pub open spec fn ws_list_has(list: Seq<WorkspaceEntryV>, name: Seq<char>) -> bool {
    ws_list_lookup(list, name) is Some
}

/// No two workspaces share a name.
pub open spec fn names_unique(list: Seq<WorkspaceEntryV>) -> bool {
    forall|i: int, j: int| 0 <= i < j < list.len() ==> list[i].name != list[j].name
}

/// All workspaces of one installation, each under its name.
pub struct Workspaces {
    pub list: Vec<WorkspaceEntry>,
}

impl View for Workspaces {
    type V = Seq<WorkspaceEntryV>;

    open spec fn view(&self) -> Seq<WorkspaceEntryV> {
        self.list@.map_values(|e: WorkspaceEntry| e@)
    }
}

impl Workspaces {
    /// A manager with no workspaces.
    pub fn new() -> (m: Workspaces)
        ensures
            m@ =~= Seq::<WorkspaceEntryV>::empty(),
    {
        Workspaces { list: Vec::new() }
    }

    /// The names of all workspaces, in creation order.
    pub fn names(&self) -> (r: Vec<String>)
        ensures
            r@.len() == self@.len(),
            forall|i: int| 0 <= i < r@.len() ==> r@[i]@ == self@[i].name,
    {
        let mut out: Vec<String> = Vec::new();
        let n = self.list.len();
        let mut i: usize = 0;
        while i < n
            invariant
                i <= n,
                n == self.list@.len(),
                out@.len() == i,
                forall|k: int| 0 <= k < i ==> out@[k]@ == self@[k].name,
            decreases n - i,
        {
            out.push(self.list[i].name.clone());
            proof {
                assert(self@[i as int] == self.list@[i as int]@);
            }
            i = i + 1;
        }
        out
    }

    /// Finds the workspace called `name`, handing back its position.
    fn find(&self, name: &str) -> (r: Option<usize>)
        ensures
            match r {
                Some(i) => i < self@.len() && self@[i as int].name == name@ && ws_list_lookup(
                    self@,
                    name@,
                ) == Some(self@[i as int].workspace),
                None => ws_list_lookup(self@, name@) is None,
            },
    {
        let ghost es = self@;
        let n = self.list.len();
        let mut i: usize = 0;
        proof {
            assert(es.skip(0) =~= es);
        }
        while i < n
            invariant
                i <= n,
                n == es.len(),
                n == self.list@.len(),
                es == self@,
                forall|k: int| 0 <= k < es.len() ==> es[k] == self.list@[k]@,
                ws_list_lookup(es, name@) == ws_list_lookup(es.skip(i as int), name@),
            decreases n - i,
        {
            proof {
                assert(es.skip(i as int)[0] == es[i as int]);
            }
            if str_eq(self.list[i].name.as_str(), name) {
                return Some(i);
            }
            proof {
                assert(es.skip(i as int).drop_first() =~= es.skip(i as int + 1));
            }
            i = i + 1;
        }
        proof {
            assert(es.skip(i as int).len() == 0);
        }
        None
    }

    /// Creates the workspace called `name`, fully bootstrapped. A name in
    /// use is a `Conflict` and changes nothing.
    pub fn create(&mut self, name: String) -> (r: Result<(), RepoError>)
        ensures
            match r {
                Ok(()) => {
                    &&& !ws_list_has(old(self)@, name@)
                    &&& final(self)@.len() == old(self)@.len() + 1
                    &&& forall|i: int| 0 <= i < old(self)@.len() ==> final(self)@[i] == old(
                        self,
                    )@[i]
                    &&& final(self)@.last().name == name@
                    &&& fresh_workspace(final(self)@.last().workspace)
                },
                Err(e) => {
                    &&& e == RepoError::Conflict
                    &&& ws_list_has(old(self)@, name@)
                    &&& final(self)@ == old(self)@
                },
            },
    {
        match self.find(name.as_str()) {
            Some(_) => Err(RepoError::Conflict),
            None => {
                let workspace = Workspace::create();
                self.list.push(WorkspaceEntry { name, workspace });
                proof {
                    assert(final(self)@ =~= old(self)@.push(final(self)@.last()));
                }
                Ok(())
            },
        }
    }

    /// Opens the workspace called `name`: hands back its position, the
    /// handle every per-workspace operation goes through. An unknown name
    /// is `NotFound`.
    pub fn open(&self, name: &str) -> (r: Result<usize, RepoError>)
        ensures
            match r {
                Ok(i) => i < self@.len() && self@[i as int].name == name@ && ws_list_lookup(
                    self@,
                    name@,
                ) == Some(self@[i as int].workspace),
                Err(e) => e == RepoError::NotFound && !ws_list_has(self@, name@),
            },
    {
        match self.find(name) {
            Some(i) => Ok(i),
            None => Err(RepoError::NotFound),
        }
    }

    /// Destroys the workspace called `name` and everything in it; an
    /// unknown name is `NotFound` and changes nothing.
    pub fn destroy(&mut self, name: &str) -> (r: Result<(), RepoError>)
        ensures
            match r {
                Ok(()) => {
                    &&& ws_list_has(old(self)@, name@)
                    &&& exists|i: int|
                        {
                            &&& 0 <= i < old(self)@.len()
                            &&& old(self)@[i].name == name@
                            &&& final(self)@ == old(self)@.remove(i)
                        }
                },
                Err(e) => {
                    &&& e == RepoError::NotFound
                    &&& !ws_list_has(old(self)@, name@)
                    &&& final(self)@ == old(self)@
                },
            },
    {
        match self.find(name) {
            Some(i) => {
                self.list.remove(i);
                proof {
                    assert(final(self)@ =~= old(self)@.remove(i as int));
                }
                Ok(())
            },
            None => Err(RepoError::NotFound),
        }
    }
}

/// The directory a workspace lives under: the workspaces directory, a
/// separator, and the workspace's name.
pub fn get_workspace_path(workspace_directory: String, workspace_name: &String) -> (r: String)
    ensures
        r@ == workspace_directory@ + "/"@ + workspace_name@,
{
    let mut out = workspace_directory;
    out.append("/");
    out.append(workspace_name.as_str());
    out
}

/// The directory a workspace lives under, from borrowed parts.
pub fn get_workspace(workspace_name: &String, workspace_directory: &String) -> (r: String)
    ensures
        r@ == workspace_directory@ + "/"@ + workspace_name@,
{
    get_workspace_path(workspace_directory.clone(), workspace_name)
}

} // verus!

//! The cluster-listing action.
//!
//! Lists the executors the session manager knows; turning the list into
//! an HTTP response stays with the caller.

use vstd::prelude::*;

verus! {

/// One executor of the cluster.
#[derive(Debug)]
pub struct ClusterExecutor {
    pub name: String,
    pub address: String,
}

/// Mathematical image of a [`ClusterExecutor`].
pub struct ClusterExecutorView {
    pub name: Seq<char>,
    pub address: Seq<char>,
}

impl View for ClusterExecutor {
    type V = ClusterExecutorView;

    open spec fn view(&self) -> ClusterExecutorView {
        ClusterExecutorView { name: self.name@, address: self.address@ }
    }
}

impl Clone for ClusterExecutor {
    fn clone(&self) -> (r: Self)
        ensures
            r@ == self@,
    {
        ClusterExecutor { name: self.name.clone(), address: self.address.clone() }
    }
}

/// The sessions' knowledge of the cluster.
#[derive(Debug)]
pub struct SessionManager {
    pub executors: Vec<ClusterExecutor>,
}

/// The action answering a cluster-listing request.
#[derive(Debug)]
pub struct ListAction {
    sessions: SessionManager,
}

impl ListAction {
    /// The executors the action would list.
    pub closed spec fn spec_nodes(self) -> Seq<ClusterExecutorView> {
        self.sessions.executors@.map_values(|e: ClusterExecutor| e@)
    }

    /// Creates the action over `sessions`.
    pub fn create(sessions: SessionManager) -> (r: ListAction)
        ensures
            r.spec_nodes() == sessions.executors@.map_values(|e: ClusterExecutor| e@),
    {
        ListAction { sessions }
    }

    /// Lists the executors of the namespace, in registration order.
    pub fn try_get_nodes(&self) -> (r: Result<Vec<ClusterExecutor>, crate::errors::MutationError>)
        ensures
            r matches Ok(v) && v@.map_values(|e: ClusterExecutor| e@) == self.spec_nodes(),
    {
        let mut out: Vec<ClusterExecutor> = Vec::new();
        let mut i: usize = 0;
        while i < self.sessions.executors.len()
            invariant
                0 <= i <= self.sessions.executors@.len(),
                out@.map_values(|e: ClusterExecutor| e@) == self.spec_nodes().take(i as int),
            decreases self.sessions.executors@.len() - i,
        {
            let e = self.sessions.executors[i].clone();
            out.push(e);
            proof {
                assert(out@.map_values(|e: ClusterExecutor| e@) =~= self.spec_nodes().take(
                    i as int,
                ).push(self.sessions.executors@[i as int]@));
                assert(self.spec_nodes().take(i + 1) =~= self.spec_nodes().take(i as int).push(
                    self.sessions.executors@[i as int]@,
                ));
            }
            i = i + 1;
        }
        proof {
            assert(self.spec_nodes().take(self.sessions.executors@.len() as int)
                =~= self.spec_nodes());
        }
        Ok(out)
    }
}

} // verus!

use vstd::prelude::*;

verus! {

/// Decides which point-in-time commits of an index are deleted. Commits are
/// given oldest first, by count; the policy answers with the positions of
/// those to delete, and the writer deletes them in that order.
pub trait IndexDeletionPolicy {
    /// Called once when a writer starts, with the commits present.
    fn on_init(&self, num_commits: usize) -> Vec<usize>;

    /// Called each time a writer has completed a commit.
    fn on_commit(&self, num_commits: usize) -> Vec<usize>;
}

/// The default policy: every commit but the newest is deleted as soon as a
/// new one is made.
#[derive(Default)]
pub struct KeepOnlyLastCommitDeletionPolicy;

impl KeepOnlyLastCommitDeletionPolicy {
    /// The positions of all commits but the last, in order.
    pub fn commits_to_delete(&self, num_commits: usize) -> (r: Vec<usize>)
        ensures
            r@ == Seq::new(if num_commits == 0 { 0nat } else { (num_commits - 1) as nat }, |i: int| i as usize),
    {
        let mut r: Vec<usize> = Vec::new();
        let mut i: usize = 0;
        while i + 1 < num_commits
            invariant
                num_commits == 0 ==> i == 0,
                num_commits > 0 ==> i <= num_commits - 1,
                r@ == Seq::new(i as nat, |k: int| k as usize),
            decreases num_commits - i,
        {
            r.push(i);
            i = i + 1;
            assert(r@ =~= Seq::new(i as nat, |k: int| k as usize));
        }
        r
    }
}

impl IndexDeletionPolicy for KeepOnlyLastCommitDeletionPolicy {
    fn on_init(&self, num_commits: usize) -> Vec<usize> {
        self.on_commit(num_commits)
    }

    fn on_commit(&self, num_commits: usize) -> Vec<usize> {
        self.commits_to_delete(num_commits)
    }
}

} // verus!

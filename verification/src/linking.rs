//! The links that bring a bucket to disk.

use vstd::prelude::*;
use crate::naming::{bucket_dir, joined, link_target, numbered_dir};
use crate::packer::PackingPlan;

verus! {

/// One hard link to make: from the file at `source` to the new name
/// `target`.
pub struct LinkStep {
    pub source: String,
    pub target: String,
}

/// Lists the links of the bucket at position `slot` of the plan, whose
/// directory lies below `prefix`: one for each of its files, in the order in
/// which they were admitted, each below the bucket's directory under the
/// path that the file has.
pub fn link_steps(plan: &PackingPlan, slot: usize, prefix: &str) -> (steps: Vec<LinkStep>)
    requires
        slot < plan@.len(),
    ensures
        steps@.len() == plan@[slot as int].members().len(),
        forall|k: int|
            0 <= k < steps@.len() ==> {
                let file = plan.spec_files()[plan@[slot as int].members()[k]];
                &&& (#[trigger] steps@[k]).source@ == file.path@
                &&& steps@[k].target@ == joined(
                    numbered_dir(prefix@, plan@[slot as int].spec_identifier()),
                    file.path@,
                )
            },
{
    let bucket = &plan.buckets()[slot];
    let files = plan.files();
    let dir = bucket_dir(prefix, bucket.identifier());
    let contents = bucket.contents();
    let ghost members = bucket.members();
    assert forall|j: int| 0 <= j < members.len() implies 0 <= #[trigger] members[j]
        < files.len() by {
        assert(plan.layout()[slot as int][j] == members[j]);
    }
    let mut steps: Vec<LinkStep> = Vec::new();
    let mut k: usize = 0;
    while k < contents.len()
        invariant
            k <= contents.len(),
            contents@.len() == members.len(),
            forall|j: int| 0 <= j < contents@.len() ==> contents@[j] == members[j],
            forall|j: int| 0 <= j < members.len() ==> 0 <= #[trigger] members[j] < files.len(),
            steps@.len() == k,
            forall|j: int|
                0 <= j < k ==> {
                    &&& (#[trigger] steps@[j]).source@ == files@[members[j]].path@
                    &&& steps@[j].target@ == joined(dir@, files@[members[j]].path@)
                },
        decreases contents.len() - k,
    {
        assert(0 <= members[k as int] < files.len());
        let file = &files[contents[k]];
        let step = LinkStep {
            source: file.path.clone(),
            target: link_target(dir.as_str(), file.path.as_str()),
        };
        steps.push(step);
        k = k + 1;
    }
    steps
}

} // verus!

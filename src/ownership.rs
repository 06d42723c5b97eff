use vstd::prelude::*;

use crate::model::{RootOwnership, TreeError};
use crate::store::{ascend, ascent_result, lookup_group, owner_of, owns, root_of, Store, MAX_DEPTH};

verus! {

/// The root recorded for `user`: the last matching record.
pub open spec fn root_record(os: Seq<RootOwnership>, user: i32) -> Option<i32>
    decreases os.len(),
{
    if os.len() == 0 {
        None
    } else if os.last().user_id == user {
        Some(os.last().group_id)
    } else {
        root_record(os.drop_last(), user)
    }
}

impl Store {
    /// Walks up the parent links from `group_id` to the root, following at
    /// most `MAX_DEPTH` links.
    pub fn find_root(&self, group_id: i32) -> (r: Result<i32, TreeError>)
        ensures
            r == ascent_result(root_of(self.groups@, group_id)),
    {
        let ghost gs = self.groups@;
        let mut cur = group_id;
        let mut hops: usize = 0;
        loop
            invariant
                gs == self.groups@,
                hops <= MAX_DEPTH,
                root_of(gs, group_id) == ascend(gs, cur, (MAX_DEPTH - hops) as nat),
            decreases MAX_DEPTH - hops,
        {
            let idx = match self.group_index(cur) {
                None => {
                    return Err(TreeError::NotFound);
                },
                Some(i) => i,
            };
            assert(lookup_group(gs, cur) == Some(gs[idx as int]));
            match self.groups[idx].group_id {
                None => {
                    return Ok(cur);
                },
                Some(p) => {
                    if hops == MAX_DEPTH {
                        return Err(TreeError::DepthExceeded);
                    }
                    cur = p;
                    hops = hops + 1;
                },
            }
        }
    }

    /// Whether `user_id` is recorded as the owner of the root `group_id`.
    pub fn user_is_owner_group(&self, user_id: i32, group_id: i32) -> (r: bool)
        ensures
            r == owns(self.owners@, user_id, group_id),
    {
        let mut i: usize = 0;
        while i < self.owners.len()
            invariant
                i <= self.owners@.len(),
                forall|j: int|
                    0 <= j < i ==> !(self.owners@[j].user_id == user_id && self.owners@[j].group_id
                        == group_id),
            decreases self.owners@.len() - i,
        {
            if self.owners[i].user_id == user_id && self.owners[i].group_id == group_id {
                return true;
            }
            i = i + 1;
        }
        false
    }

    /// Whether `user_id` owns the root above `group_id`. Every failure to
    /// resolve the root counts as not owning it.
    pub fn user_is_owner_item(&self, user_id: i32, group_id: i32) -> (r: bool)
        ensures
            r == owner_of(self.groups@, self.owners@, user_id, group_id),
    {
        match self.find_root(group_id) {
            Ok(root) => self.user_is_owner_group(user_id, root),
            Err(_) => false,
        }
    }

    /// The root group of `user_id`.
    pub fn find_user_root_group(&self, user_id: i32) -> (r: Result<i32, TreeError>)
        ensures
            r == match root_record(self.owners@, user_id) {
                Some(g) => Ok(g),
                None => Err(TreeError::NotFound),
            },
    {
        let mut i = self.owners.len();
        assert(self.owners@.subrange(0, i as int) == self.owners@);
        while i > 0
            invariant
                i <= self.owners@.len(),
                root_record(self.owners@, user_id) == root_record(
                    self.owners@.subrange(0, i as int),
                    user_id,
                ),
            decreases i,
        {
            proof {
                let s = self.owners@.subrange(0, i as int);
                assert(s.drop_last() == self.owners@.subrange(0, i - 1));
            }
            if self.owners[i - 1].user_id == user_id {
                return Ok(self.owners[i - 1].group_id);
            }
            i = i - 1;
        }
        Err(TreeError::NotFound)
    }
}

} // verus!

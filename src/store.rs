use vstd::prelude::*;

use crate::model::{Card, Group, RootOwnership, TreeError};

verus! {

/// The most parent links that a walk up from a group follows, and the most
/// levels that a walk down expands: a guard against unbounded or cyclic
/// chains.
pub const MAX_DEPTH: usize = 1024;

/// Where a walk up the parent links ends.
pub enum Ascent {
    /// At this root group.
    Root(i32),
    /// At a link to a group that does not exist.
    Missing,
    /// Not within the allowed number of hops.
    TooDeep,
}

/// Position of the last group with this id, or -1.
pub open spec fn group_pos(gs: Seq<Group>, id: i32) -> int
    decreases gs.len(),
{
    if gs.len() == 0 {
        -1
    } else if gs.last().id == id {
        gs.len() - 1
    } else {
        group_pos(gs.drop_last(), id)
    }
}

/// Position of the last card with this id, or -1.
pub open spec fn card_pos(cs: Seq<Card>, id: i32) -> int
    decreases cs.len(),
{
    if cs.len() == 0 {
        -1
    } else if cs.last().id == id {
        cs.len() - 1
    } else {
        card_pos(cs.drop_last(), id)
    }
}

/// The group with this id, if there is one.
pub open spec fn lookup_group(gs: Seq<Group>, id: i32) -> Option<Group> {
    if group_pos(gs, id) >= 0 {
        Some(gs[group_pos(gs, id)])
    } else {
        None
    }
}

/// The card with this id, if there is one.
pub open spec fn lookup_card(cs: Seq<Card>, id: i32) -> Option<Card> {
    if card_pos(cs, id) >= 0 {
        Some(cs[card_pos(cs, id)])
    } else {
        None
    }
}

/// Follows parent links from `id`, at most `fuel` of them.
pub open spec fn ascend(gs: Seq<Group>, id: i32, fuel: nat) -> Ascent
    decreases fuel,
{
    match lookup_group(gs, id) {
        None => Ascent::Missing,
        Some(g) => match g.group_id {
            None => Ascent::Root(id),
            Some(p) => if fuel == 0 {
                Ascent::TooDeep
            } else {
                ascend(gs, p, (fuel - 1) as nat)
            },
        },
    }
}

/// The root reached from `id` within the depth ceiling.
pub open spec fn root_of(gs: Seq<Group>, id: i32) -> Ascent {
    ascend(gs, id, MAX_DEPTH as nat)
}

/// The result that the end of a walk gives.
pub open spec fn ascent_result(a: Ascent) -> Result<i32, TreeError> {
    match a {
        Ascent::Root(r) => Ok(r),
        Ascent::Missing => Err(TreeError::NotFound),
        Ascent::TooDeep => Err(TreeError::DepthExceeded),
    }
}

/// Whether `user` is recorded as the owner of root `root`.
pub open spec fn owns(os: Seq<RootOwnership>, user: i32, root: i32) -> bool {
    exists|i: int| 0 <= i < os.len() && os[i].user_id == user && os[i].group_id == root
}

/// Whether `user` owns the root above group `id`.
pub open spec fn owner_of(gs: Seq<Group>, os: Seq<RootOwnership>, user: i32, id: i32) -> bool {
    match root_of(gs, id) {
        Ascent::Root(r) => owns(os, user, r),
        _ => false,
    }
}

/// The groups whose parent is `id`, in store order.
pub open spec fn child_groups(gs: Seq<Group>, id: i32) -> Seq<Group> {
    gs.filter(|g: Group| g.group_id == Some(id))
}

/// The cards inside group `id`, in store order.
pub open spec fn child_cards(cs: Seq<Card>, id: i32) -> Seq<Card> {
    cs.filter(|c: Card| c.group_id == id)
}

/// Whether some group carries this invite code.
pub open spec fn code_in_use(gs: Seq<Group>, code: Seq<char>) -> bool {
    exists|i: int| 0 <= i < gs.len() && gs[i].invite_code@ == code
}

pub proof fn lemma_group_pos(gs: Seq<Group>, id: i32)
    ensures
        -1 <= group_pos(gs, id) < gs.len(),
        group_pos(gs, id) >= 0 ==> gs[group_pos(gs, id)].id == id,
        group_pos(gs, id) == -1 ==> forall|j: int| 0 <= j < gs.len() ==> gs[j].id != id,
    decreases gs.len(),
{
    if gs.len() > 0 && gs.last().id != id {
        lemma_group_pos(gs.drop_last(), id);
        assert(forall|j: int| 0 <= j < gs.len() - 1 ==> gs.drop_last()[j] == gs[j]);
    }
}

/// Groups, cards and the root ownership records, each kept in insertion
/// order.
pub struct Store {
    pub groups: Vec<Group>,
    pub cards: Vec<Card>,
    pub owners: Vec<RootOwnership>,
    pub next_group_id: i32,
    pub next_card_id: i32,
}

impl Store {
    /// In a well-formed store a group is found exactly where its id sits.
    pub proof fn lemma_group_at(&self, id: i32)
        requires
            self.wf(),
        ensures
            -1 <= group_pos(self.groups@, id) < self.groups@.len(),
            lookup_group(self.groups@, id) matches Some(g) ==> g.id == id && id
                < self.next_group_id,
            forall|j: int|
                0 <= j < self.groups@.len() && #[trigger] self.groups@[j].id == id ==> group_pos(
                    self.groups@,
                    id,
                ) == j,
    {
        lemma_group_pos(self.groups@, id);
        if group_pos(self.groups@, id) >= 0 {
            let p = group_pos(self.groups@, id);
            assert forall|j: int|
                0 <= j < self.groups@.len() && #[trigger] self.groups@[j].id == id implies p
                == j by {
                if j < p {
                    assert(self.groups@[j].id < self.groups@[p].id);
                } else if p < j {
                    assert(self.groups@[p].id < self.groups@[j].id);
                }
            }
        }
    }

    /// Identifiers grow with insertion order and stay below the next one to
    /// hand out, as do parent links; no group is its own parent, and invite
    /// codes are distinct.
    pub open spec fn wf(&self) -> bool {
        &&& forall|i: int, j: int|
            0 <= i < j < self.groups@.len() ==> self.groups@[i].id < self.groups@[j].id
        &&& forall|i: int| 0 <= i < self.groups@.len() ==> self.groups@[i].id < self.next_group_id
        &&& forall|i: int|
            0 <= i < self.groups@.len() ==> self.groups@[i].group_id != Some(self.groups@[i].id)
        &&& forall|i: int|
            0 <= i < self.groups@.len() ==> (#[trigger] self.groups@[i].group_id matches Some(p)
                ==> p < self.next_group_id)
        &&& forall|i: int, j: int|
            0 <= i < self.groups@.len() && 0 <= j < self.groups@.len() && i != j
                ==> self.groups@[i].invite_code@ != self.groups@[j].invite_code@
        &&& forall|i: int, j: int|
            0 <= i < j < self.cards@.len() ==> self.cards@[i].id < self.cards@[j].id
        &&& forall|i: int| 0 <= i < self.cards@.len() ==> self.cards@[i].id < self.next_card_id
    }

    /// An empty store; identifiers start at 1.
    pub fn new() -> (r: Store)
        ensures
            r.wf(),
            r.groups@.len() == 0,
            r.cards@.len() == 0,
            r.owners@.len() == 0,
    {
        Store {
            groups: Vec::new(),
            cards: Vec::new(),
            owners: Vec::new(),
            next_group_id: 1,
            next_card_id: 1,
        }
    }

    /// Position of the group with this id.
    pub fn group_index(&self, id: i32) -> (r: Option<usize>)
        ensures
            match r {
                Some(i) => i as int == group_pos(self.groups@, id) && i < self.groups@.len()
                    && self.groups@[i as int].id == id,
                None => group_pos(self.groups@, id) == -1,
            },
    {
        let mut i = self.groups.len();
        assert(self.groups@.subrange(0, i as int) == self.groups@);
        while i > 0
            invariant
                i <= self.groups@.len(),
                group_pos(self.groups@, id) == group_pos(self.groups@.subrange(0, i as int), id),
            decreases i,
        {
            proof {
                let s = self.groups@.subrange(0, i as int);
                assert(s.drop_last() == self.groups@.subrange(0, i - 1));
            }
            if self.groups[i - 1].id == id {
                return Some(i - 1);
            }
            i = i - 1;
        }
        None
    }

    /// Position of the card with this id.
    pub fn card_index(&self, id: i32) -> (r: Option<usize>)
        ensures
            match r {
                Some(i) => i as int == card_pos(self.cards@, id) && i < self.cards@.len()
                    && self.cards@[i as int].id == id,
                None => card_pos(self.cards@, id) == -1,
            },
    {
        let mut i = self.cards.len();
        assert(self.cards@.subrange(0, i as int) == self.cards@);
        while i > 0
            invariant
                i <= self.cards@.len(),
                card_pos(self.cards@, id) == card_pos(self.cards@.subrange(0, i as int), id),
            decreases i,
        {
            proof {
                let s = self.cards@.subrange(0, i as int);
                assert(s.drop_last() == self.cards@.subrange(0, i - 1));
            }
            if self.cards[i - 1].id == id {
                return Some(i - 1);
            }
            i = i - 1;
        }
        None
    }
}

} // verus!

use vstd::prelude::*;

use crate::model::{Card, Group, GroupItems, TreeError, TreeNode};
use crate::ownership::root_record;
use crate::store::{
    ascend, ascent_result, child_cards, child_groups, lookup_card, lookup_group, owner_of, root_of, Store,
    MAX_DEPTH,
};

verus! {

/// The groups met walking up from `id`, nearest first, following at most
/// `fuel` parent links.
pub open spec fn path_from(gs: Seq<Group>, id: i32, fuel: nat) -> Seq<Group>
    decreases fuel,
{
    match lookup_group(gs, id) {
        None => Seq::empty(),
        Some(g) => match g.group_id {
            None => seq![g],
            Some(p) => if fuel == 0 {
                seq![g]
            } else {
                seq![g] + path_from(gs, p, (fuel - 1) as nat)
            },
        },
    }
}

/// The path from `id` up to its root, within the depth ceiling.
pub open spec fn path_to(gs: Seq<Group>, id: i32) -> Seq<Group> {
    path_from(gs, id, MAX_DEPTH as nat)
}

/// The direct children of group `id`: its cards, then its groups.
pub open spec fn items_of(gs: Seq<Group>, cs: Seq<Card>, id: i32) -> Seq<GroupItems> {
    child_cards(cs, id).map_values(|c: Card| GroupItems::Card(c)) + child_groups(gs, id).map_values(
        |g: Group| GroupItems::Group(g),
    )
}

/// Whether the tree below `id` exists and is at most `fuel` levels deep.
pub open spec fn tree_fits(gs: Seq<Group>, id: i32, fuel: nat) -> bool
    decreases fuel,
{
    &&& lookup_group(gs, id) is Some
    &&& child_groups(gs, id).len() == 0 || (fuel > 0 && forall|i: int|
        0 <= i < child_groups(gs, id).len() ==> tree_fits(
            gs,
            #[trigger] child_groups(gs, id)[i].id,
            (fuel - 1) as nat,
        ))
}

/// Whether `t` is the tree below `id`: its root is that group and its
/// children are the trees of the child groups, in store order.
pub open spec fn is_tree_of(gs: Seq<Group>, t: TreeNode, id: i32, fuel: nat) -> bool
    decreases fuel,
{
    &&& lookup_group(gs, id) == Some(t.root)
    &&& t.children@.len() == child_groups(gs, id).len()
    &&& child_groups(gs, id).len() == 0 || (fuel > 0 && forall|i: int|
        0 <= i < child_groups(gs, id).len() ==> is_tree_of(
            gs,
            #[trigger] t.children@[i],
            child_groups(gs, id)[i].id,
            (fuel - 1) as nat,
        ))
}

proof fn lemma_child_groups_step(gs: Seq<Group>, id: i32, i: int)
    requires
        0 <= i < gs.len(),
    ensures
        child_groups(gs.subrange(0, i + 1), id) == if gs[i].group_id == Some(id) {
            child_groups(gs.subrange(0, i), id).push(gs[i])
        } else {
            child_groups(gs.subrange(0, i), id)
        },
{
    reveal(Seq::filter);
    let s = gs.subrange(0, i + 1);
    assert(s.drop_last() == gs.subrange(0, i));
}

proof fn lemma_child_cards_step(cs: Seq<Card>, id: i32, i: int)
    requires
        0 <= i < cs.len(),
    ensures
        child_cards(cs.subrange(0, i + 1), id) == if cs[i].group_id == id {
            child_cards(cs.subrange(0, i), id).push(cs[i])
        } else {
            child_cards(cs.subrange(0, i), id)
        },
{
    reveal(Seq::filter);
    let s = cs.subrange(0, i + 1);
    assert(s.drop_last() == cs.subrange(0, i));
}

impl Store {
    /// The group with id `group_id`.
    pub fn find_group_by_id(&self, group_id: i32) -> (r: Result<Group, TreeError>)
        ensures
            r == match lookup_group(self.groups@, group_id) {
                Some(g) => Ok::<Group, TreeError>(g),
                None => Err(TreeError::NotFound),
            },
    {
        match self.group_index(group_id) {
            Some(i) => Ok(self.groups[i].cloned()),
            None => Err(TreeError::NotFound),
        }
    }

    /// The card with id `card_id`.
    pub fn find_card_by_id(&self, card_id: i32) -> (r: Result<Card, TreeError>)
        ensures
            r == match lookup_card(self.cards@, card_id) {
                Some(c) => Ok::<Card, TreeError>(c),
                None => Err(TreeError::NotFound),
            },
    {
        match self.card_index(card_id) {
            Some(i) => Ok(self.cards[i].cloned()),
            None => Err(TreeError::NotFound),
        }
    }

    /// The cards directly inside group `group_id`.
    pub fn get_all_cards(&self, group_id: i32) -> (r: Vec<Card>)
        ensures
            r@ == child_cards(self.cards@, group_id),
    {
        let mut res: Vec<Card> = Vec::new();
        let mut i: usize = 0;
        while i < self.cards.len()
            invariant
                i <= self.cards@.len(),
                res@ == child_cards(self.cards@.subrange(0, i as int), group_id),
            decreases self.cards@.len() - i,
        {
            proof {
                lemma_child_cards_step(self.cards@, group_id, i as int);
            }
            if self.cards[i].group_id == group_id {
                res.push(self.cards[i].cloned());
            }
            i = i + 1;
        }
        assert(self.cards@.subrange(0, i as int) == self.cards@);
        res
    }

    /// The groups directly inside group `group_id`.
    pub fn get_all_groups(&self, group_id: i32) -> (r: Vec<Group>)
        ensures
            r@ == child_groups(self.groups@, group_id),
    {
        let mut res: Vec<Group> = Vec::new();
        let mut i: usize = 0;
        while i < self.groups.len()
            invariant
                i <= self.groups@.len(),
                res@ == child_groups(self.groups@.subrange(0, i as int), group_id),
            decreases self.groups@.len() - i,
        {
            proof {
                lemma_child_groups_step(self.groups@, group_id, i as int);
            }
            if self.groups[i].group_id == Some(group_id) {
                res.push(self.groups[i].cloned());
            }
            i = i + 1;
        }
        assert(self.groups@.subrange(0, i as int) == self.groups@);
        res
    }

    /// The direct children of group `group_id`: its cards, then its groups,
    /// each in store order.
    pub fn get_all_objects(&self, group_id: i32) -> (r: Vec<GroupItems>)
        ensures
            r@ == items_of(self.groups@, self.cards@, group_id),
    {
        let cards = self.get_all_cards(group_id);
        let groups = self.get_all_groups(group_id);
        let ghost card_items = cards@.map_values(|c: Card| GroupItems::Card(c));
        let ghost group_items = groups@.map_values(|g: Group| GroupItems::Group(g));
        let mut res: Vec<GroupItems> = Vec::new();
        let mut i: usize = 0;
        while i < cards.len()
            invariant
                i <= cards@.len(),
                card_items == cards@.map_values(|c: Card| GroupItems::Card(c)),
                res@ == card_items.subrange(0, i as int),
            decreases cards@.len() - i,
        {
            res.push(GroupItems::Card(cards[i].cloned()));
            i = i + 1;
            assert(res@ == card_items.subrange(0, i as int));
        }
        assert(card_items.subrange(0, i as int) == card_items);
        let mut k: usize = 0;
        while k < groups.len()
            invariant
                k <= groups@.len(),
                group_items == groups@.map_values(|g: Group| GroupItems::Group(g)),
                res@ == card_items + group_items.subrange(0, k as int),
            decreases groups@.len() - k,
        {
            res.push(GroupItems::Group(groups[k].cloned()));
            k = k + 1;
            assert(res@ == card_items + group_items.subrange(0, k as int));
        }
        assert(group_items.subrange(0, k as int) == group_items);
        res
    }

    /// The chain from `group_id` up to its root, nearest first.
    pub fn path_to_root(&self, group_id: i32) -> (r: Result<Vec<Group>, TreeError>)
        ensures
            r is Ok <==> root_of(self.groups@, group_id) is Root,
            r matches Ok(p) ==> p@ == path_to(self.groups@, group_id),
            r matches Err(e) ==> Err::<i32, TreeError>(e) == ascent_result(
                root_of(self.groups@, group_id),
            ),
    {
        let ghost gs = self.groups@;
        let mut res: Vec<Group> = Vec::new();
        let mut cur = group_id;
        let mut hops: usize = 0;
        loop
            invariant
                gs == self.groups@,
                hops <= MAX_DEPTH,
                root_of(gs, group_id) == ascend(gs, cur, (MAX_DEPTH - hops) as nat),
                path_to(gs, group_id) == res@ + path_from(gs, cur, (MAX_DEPTH - hops) as nat),
            decreases MAX_DEPTH - hops,
        {
            let idx = match self.group_index(cur) {
                None => {
                    return Err(TreeError::NotFound);
                },
                Some(i) => i,
            };
            assert(lookup_group(gs, cur) == Some(gs[idx as int]));
            let g = self.groups[idx].cloned();
            match g.group_id {
                None => {
                    res.push(g);
                    assert(path_from(gs, cur, (MAX_DEPTH - hops) as nat) == seq![gs[idx as int]]);
                    return Ok(res);
                },
                Some(p) => {
                    if hops == MAX_DEPTH {
                        return Err(TreeError::DepthExceeded);
                    }
                    res.push(g);
                    proof {
                        let f = (MAX_DEPTH - hops) as nat;
                        assert(path_from(gs, cur, f) == seq![gs[idx as int]] + path_from(
                            gs,
                            p,
                            (f - 1) as nat,
                        ));
                    }
                    cur = p;
                    hops = hops + 1;
                },
            }
        }
    }

    /// The tree of groups below `root_id`, expanding at most `depth` levels.
    pub fn get_tree(&self, root_id: i32, depth: usize) -> (r: Result<TreeNode, TreeError>)
        ensures
            r is Ok <==> tree_fits(self.groups@, root_id, depth as nat),
            r matches Ok(t) ==> is_tree_of(self.groups@, t, root_id, depth as nat),
            r matches Err(e) ==> e == if lookup_group(self.groups@, root_id) is None {
                TreeError::NotFound
            } else {
                TreeError::DepthExceeded
            },
        decreases depth,
    {
        let ghost gs = self.groups@;
        let idx = match self.group_index(root_id) {
            None => {
                return Err(TreeError::NotFound);
            },
            Some(i) => i,
        };
        assert(lookup_group(gs, root_id) == Some(gs[idx as int]));
        let kids = self.get_all_groups(root_id);
        if kids.len() > 0 && depth == 0 {
            return Err(TreeError::DepthExceeded);
        }
        let mut children: Vec<TreeNode> = Vec::new();
        let mut i: usize = 0;
        while i < kids.len()
            invariant
                gs == self.groups@,
                idx < gs.len(),
                lookup_group(gs, root_id) == Some(gs[idx as int]),
                kids@ == child_groups(gs, root_id),
                kids@.len() > 0 ==> depth > 0,
                i <= kids@.len(),
                children@.len() == i,
                forall|j: int|
                    0 <= j < i ==> is_tree_of(gs, #[trigger] children@[j], kids@[j].id, (depth - 1) as nat),
                forall|j: int| 0 <= j < i ==> tree_fits(gs, #[trigger] kids@[j].id, (depth - 1) as nat),
            decreases kids@.len() - i,
        {
            let t = match self.get_tree(kids[i].id, depth - 1) {
                Ok(t) => t,
                Err(_) => {
                    assert(!tree_fits(gs, child_groups(gs, root_id)[i as int].id, (depth - 1) as nat));
                    return Err(TreeError::DepthExceeded);
                },
            };
            children.push(t);
            i = i + 1;
        }
        Ok(TreeNode { root: self.groups[idx].cloned(), children })
    }

    /// The direct children of group `group_id`, for a user who owns it.
    pub fn get_items_in_group(&self, group_id: i32, user_id: i32) -> (r: Result<
        Vec<GroupItems>,
        TreeError,
    >)
        ensures
            r is Ok <==> owner_of(self.groups@, self.owners@, user_id, group_id),
            r matches Ok(items) ==> items@ == items_of(self.groups@, self.cards@, group_id),
            r matches Err(e) ==> e == TreeError::Forbidden,
    {
        if !self.user_is_owner_item(user_id, group_id) {
            return Err(TreeError::Forbidden);
        }
        Ok(self.get_all_objects(group_id))
    }

    /// The cards directly inside group `group_id`, for a user who owns it.
    pub fn get_cards_in_group(&self, group_id: i32, user_id: i32) -> (r: Result<
        Vec<Card>,
        TreeError,
    >)
        ensures
            r is Ok <==> owner_of(self.groups@, self.owners@, user_id, group_id),
            r matches Ok(cards) ==> cards@ == child_cards(self.cards@, group_id),
            r matches Err(e) ==> e == TreeError::Forbidden,
    {
        if !self.user_is_owner_item(user_id, group_id) {
            return Err(TreeError::Forbidden);
        }
        Ok(self.get_all_cards(group_id))
    }

    /// The path from group `group_id` up to its root, for a user who owns it.
    pub fn get_path_to_group(&self, group_id: i32, user_id: i32) -> (r: Result<
        Vec<Group>,
        TreeError,
    >)
        ensures
            lookup_group(self.groups@, group_id) is None ==> r == Err::<Vec<Group>, TreeError>(
                TreeError::NotFound,
            ),
            lookup_group(self.groups@, group_id) is Some && !owner_of(
                self.groups@,
                self.owners@,
                user_id,
                group_id,
            ) ==> r == Err::<Vec<Group>, TreeError>(TreeError::Forbidden),
            owner_of(self.groups@, self.owners@, user_id, group_id) ==> (r matches Ok(p) && p@
                == path_to(self.groups@, group_id)),
    {
        if self.group_index(group_id).is_none() {
            return Err(TreeError::NotFound);
        }
        if !self.user_is_owner_item(user_id, group_id) {
            return Err(TreeError::Forbidden);
        }
        self.path_to_root(group_id)
    }

    /// The root group of `user_id`.
    pub fn get_root_for_user(&self, user_id: i32) -> (r: Result<i32, TreeError>)
        ensures
            r == match root_record(self.owners@, user_id) {
                Some(g) => Ok(g),
                None => Err(TreeError::NotFound),
            },
    {
        self.find_user_root_group(user_id)
    }

    /// The whole tree of groups of `user_id`, from the user's root.
    pub fn get_full_tree(&self, user_id: i32) -> (r: Result<TreeNode, TreeError>)
        ensures
            root_record(self.owners@, user_id) is None ==> r == Err::<TreeNode, TreeError>(
                TreeError::NotFound,
            ),
            root_record(self.owners@, user_id) matches Some(root) ==> {
                &&& r is Ok <==> tree_fits(self.groups@, root, MAX_DEPTH as nat)
                &&& r matches Ok(t) ==> is_tree_of(self.groups@, t, root, MAX_DEPTH as nat)
                &&& r matches Err(e) ==> e == if lookup_group(self.groups@, root) is None {
                    TreeError::NotFound
                } else {
                    TreeError::DepthExceeded
                }
            },
    {
        let root = self.find_user_root_group(user_id)?;
        self.get_tree(root, MAX_DEPTH)
    }
}

} // verus!

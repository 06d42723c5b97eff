use vstd::prelude::*;

use crate::model::{
    Card, CreateCard, CreateGroup, Group, RootOwnership, TreeError, UpdateCard, UpdateGroup,
};
use crate::ownership::root_record;
use crate::reader::{path_from, path_to};
use crate::store::{
    card_pos, code_in_use, group_pos, lookup_card, lookup_group, owner_of, root_of,
    Store, MAX_DEPTH,
};

verus! {

/// Relies on uuid's `Uuid::new_v4` and its `Display` form: a random
/// identifier written as 36 characters (hex digits and hyphens).
#[verifier::external_body]
fn new_invite_code() -> (r: String)
    ensures
        r@.len() == 36,
{
    uuid::Uuid::new_v4().to_string()
}

/// `after` is `before` with one more group at the end, with these fields and
/// an invite code that no group of `before` carries.
pub open spec fn appended_group(
    before: Seq<Group>,
    after: Seq<Group>,
    id: i32,
    title: Seq<char>,
    parent: Option<i32>,
) -> bool {
    &&& after.len() == before.len() + 1
    &&& after.drop_last() == before
    &&& after.last().id == id
    &&& after.last().title@ == title
    &&& after.last().group_id == parent
    &&& after.last().invite_code@.len() == 36
    &&& !code_in_use(before, after.last().invite_code@)
}

/// `after` is `before` with one more card at the end, with these fields.
pub open spec fn appended_card(
    before: Seq<Card>,
    after: Seq<Card>,
    id: i32,
    word: Seq<char>,
    translation: Seq<char>,
    group: i32,
) -> bool {
    &&& after.len() == before.len() + 1
    &&& after.drop_last() == before
    &&& after.last().id == id
    &&& after.last().word@ == word
    &&& after.last().translation@ == translation
    &&& after.last().group_id == group
}

proof fn lemma_remove_index<A>(s: Seq<A>, i: int)
    requires
        0 <= i < s.len(),
    ensures
        s.remove(i).len() == s.len() - 1,
        forall|j: int| 0 <= j < i ==> #[trigger] s.remove(i)[j] == s[j],
        forall|j: int| i <= j < s.len() - 1 ==> #[trigger] s.remove(i)[j] == s[j + 1],
{
}

/// Whether a group with id `target` lies on the path from `from` up to its
/// root.
pub open spec fn on_path(gs: Seq<Group>, from: i32, target: i32) -> bool {
    exists|i: int| 0 <= i < path_to(gs, from).len() && #[trigger] path_to(gs, from)[i].id == target
}

/// What `update_group` decides for a request that passes the ownership
/// check: the first structural objection, if any.
pub open spec fn move_objection(gs: Seq<Group>, id: i32, parent: i32) -> Option<TreeError> {
    if lookup_group(gs, parent) is None {
        Some(TreeError::NotFound)
    } else if root_of(gs, parent) is TooDeep {
        Some(TreeError::DepthExceeded)
    } else if on_path(gs, parent, id) {
        Some(TreeError::InvalidOperation)
    } else {
        None
    }
}

impl Store {
    /// Whether some group already carries `code`.
    fn code_taken(&self, code: &String) -> (r: bool)
        ensures
            r == code_in_use(self.groups@, code@),
    {
        let mut i: usize = 0;
        while i < self.groups.len()
            invariant
                i <= self.groups@.len(),
                forall|j: int| 0 <= j < i ==> self.groups@[j].invite_code@ != code@,
            decreases self.groups@.len() - i,
        {
            if self.groups[i].invite_code == *code {
                return true;
            }
            i = i + 1;
        }
        false
    }

    /// Stores a new group with the next identifier and a fresh invite code.
    /// Fails, leaving the store as it was, when identifiers are exhausted or
    /// the drawn code is already in use.
    pub(crate) fn insert_group(&mut self, title: String, parent: Option<i32>) -> (r: Result<
        i32,
        TreeError,
    >)
        requires
            old(self).wf(),
            parent matches Some(p) ==> p < old(self).next_group_id,
        ensures
            final(self).wf(),
            final(self).cards == old(self).cards,
            final(self).owners == old(self).owners,
            final(self).next_card_id == old(self).next_card_id,
            old(self).next_group_id == i32::MAX ==> r is Err,
            match r {
                Ok(id) => {
                    &&& id == old(self).next_group_id
                    &&& final(self).next_group_id == id + 1
                    &&& appended_group(old(self).groups@, final(self).groups@, id, title@, parent)
                },
                Err(e) => e == TreeError::StorageFailure && *final(self) == *old(self),
            },
    {
        if self.next_group_id == i32::MAX {
            return Err(TreeError::StorageFailure);
        }
        let code = new_invite_code();
        if self.code_taken(&code) {
            return Err(TreeError::StorageFailure);
        }
        let id = self.next_group_id;
        self.groups.push(Group { id, title, invite_code: code, group_id: parent });
        self.next_group_id = id + 1;
        assert(self.groups@.drop_last() == old(self).groups@);
        Ok(id)
    }

    /// Stores a new card with the next identifier. Fails, leaving the store
    /// as it was, when identifiers are exhausted.
    pub(crate) fn insert_card(&mut self, word: String, translation: String, group: i32) -> (r:
        Result<i32, TreeError>)
        requires
            old(self).wf(),
        ensures
            final(self).wf(),
            final(self).groups == old(self).groups,
            final(self).owners == old(self).owners,
            final(self).next_group_id == old(self).next_group_id,
            r is Err <==> old(self).next_card_id == i32::MAX,
            match r {
                Ok(id) => {
                    &&& id == old(self).next_card_id
                    &&& final(self).next_card_id == id + 1
                    &&& appended_card(
                        old(self).cards@,
                        final(self).cards@,
                        id,
                        word@,
                        translation@,
                        group,
                    )
                },
                Err(e) => e == TreeError::StorageFailure && *final(self) == *old(self),
            },
    {
        if self.next_card_id == i32::MAX {
            return Err(TreeError::StorageFailure);
        }
        let id = self.next_card_id;
        self.cards.push(Card { id, word, translation, group_id: group });
        self.next_card_id = id + 1;
        assert(self.cards@.drop_last() == old(self).cards@);
        Ok(id)
    }

    /// Whether the path from `from` up to its root passes a group with id
    /// `target`.
    pub fn path_contains(&self, from: i32, target: i32) -> (r: bool)
        ensures
            r == on_path(self.groups@, from, target),
    {
        let ghost gs = self.groups@;
        let ghost mut prefix: Seq<Group> = Seq::empty();
        let mut cur = from;
        let mut hops: usize = 0;
        loop
            invariant
                gs == self.groups@,
                hops <= MAX_DEPTH,
                path_to(gs, from) == prefix + path_from(gs, cur, (MAX_DEPTH - hops) as nat),
                forall|i: int| 0 <= i < prefix.len() ==> #[trigger] prefix[i].id != target,
            decreases MAX_DEPTH - hops,
        {
            let ghost f = (MAX_DEPTH - hops) as nat;
            let idx = match self.group_index(cur) {
                None => {
                    assert(path_to(gs, from) == prefix);
                    return false;
                },
                Some(i) => i,
            };
            assert(lookup_group(gs, cur) == Some(gs[idx as int]));
            let ghost here = path_to(gs, from);
            assert(here[prefix.len() as int] == gs[idx as int]);
            if cur == target {
                assert(here[prefix.len() as int].id == target);
                return true;
            }
            match self.groups[idx].group_id {
                None => {
                    assert(here == prefix.push(gs[idx as int]));
                    return false;
                },
                Some(p) => {
                    if hops == MAX_DEPTH {
                        assert(here == prefix.push(gs[idx as int]));
                        return false;
                    }
                    proof {
                        assert(path_from(gs, cur, f) == seq![gs[idx as int]] + path_from(
                            gs,
                            p,
                            (f - 1) as nat,
                        ));
                        prefix = prefix.push(gs[idx as int]);
                        assert(here == prefix + path_from(gs, p, (f - 1) as nat));
                    }
                    cur = p;
                    hops = hops + 1;
                },
            }
        }
    }

    /// Adds a group under the parent named in `req`, which `user_id` must
    /// own; a fresh invite code is drawn for it.
    pub fn create_group(&mut self, req: &CreateGroup, user_id: i32) -> (r: Result<i32, TreeError>)
        requires
            old(self).wf(),
        ensures
            final(self).wf(),
            final(self).cards == old(self).cards,
            final(self).owners == old(self).owners,
            r is Err ==> *final(self) == *old(self),
            match req.group_id {
                None => r == Err::<i32, TreeError>(TreeError::InvalidOperation),
                Some(p) => if !owner_of(old(self).groups@, old(self).owners@, user_id, p) {
                    r == Err::<i32, TreeError>(TreeError::Forbidden)
                } else {
                    &&& old(self).next_group_id == i32::MAX ==> r is Err
                    &&& match r {
                        Ok(id) => appended_group(
                            old(self).groups@,
                            final(self).groups@,
                            id,
                            req.title@,
                            Some(p),
                        ),
                        Err(e) => e == TreeError::StorageFailure,
                    }
                },
            },
    {
        let parent = match req.group_id {
            None => {
                return Err(TreeError::InvalidOperation);
            },
            Some(p) => p,
        };
        if !self.user_is_owner_item(user_id, parent) {
            return Err(TreeError::Forbidden);
        }
        proof {
            self.lemma_group_at(parent);
        }
        self.insert_group(req.title.clone(), Some(parent))
    }

    /// Adds a card to the group named in `req`, which `user_id` must own.
    pub fn create_card(&mut self, req: &CreateCard, user_id: i32) -> (r: Result<i32, TreeError>)
        requires
            old(self).wf(),
        ensures
            final(self).wf(),
            final(self).groups == old(self).groups,
            final(self).owners == old(self).owners,
            r is Err ==> *final(self) == *old(self),
            if !owner_of(old(self).groups@, old(self).owners@, user_id, req.group_id) {
                r == Err::<i32, TreeError>(TreeError::Forbidden)
            } else {
                &&& r is Err <==> old(self).next_card_id == i32::MAX
                &&& match r {
                    Ok(id) => appended_card(
                        old(self).cards@,
                        final(self).cards@,
                        id,
                        req.word@,
                        req.translation@,
                        req.group_id,
                    ),
                    Err(e) => e == TreeError::StorageFailure,
                }
            },
    {
        if !self.user_is_owner_item(user_id, req.group_id) {
            return Err(TreeError::Forbidden);
        }
        self.insert_card(req.word.clone(), req.translation.clone(), req.group_id)
    }

    /// Retitles group `req.id` and hangs it under `req.group_id`. The group
    /// may not become its own parent, nor move below one of its own
    /// descendants; a root cannot be moved; `user_id` must own the tree the
    /// group is in now.
    pub fn update_group(&mut self, req: &UpdateGroup, user_id: i32) -> (r: Result<(), TreeError>)
        requires
            old(self).wf(),
        ensures
            final(self).wf(),
            final(self).cards == old(self).cards,
            final(self).owners == old(self).owners,
            final(self).next_group_id == old(self).next_group_id,
            r is Err ==> *final(self) == *old(self),
            r == if req.group_id is None || req.group_id == Some(req.id) {
                Err(TreeError::InvalidOperation)
            } else {
                match lookup_group(old(self).groups@, req.id) {
                    None => Err(TreeError::NotFound),
                    Some(g) => match g.group_id {
                        None => Err(TreeError::InvalidOperation),
                        Some(cur) => if !owner_of(
                            old(self).groups@,
                            old(self).owners@,
                            user_id,
                            cur,
                        ) {
                            Err(TreeError::Forbidden)
                        } else {
                            match move_objection(old(self).groups@, req.id, req.group_id->0) {
                                Some(e) => Err(e),
                                None => Ok(()),
                            }
                        },
                    },
                }
            },
            r is Ok ==> final(self).groups@ == old(self).groups@.update(
                group_pos(old(self).groups@, req.id),
                Group {
                    id: req.id,
                    title: req.title,
                    invite_code: lookup_group(old(self).groups@, req.id)->0.invite_code,
                    group_id: req.group_id,
                },
            ),
    {
        let parent = match req.group_id {
            None => {
                return Err(TreeError::InvalidOperation);
            },
            Some(p) => p,
        };
        if parent == req.id {
            return Err(TreeError::InvalidOperation);
        }
        let idx = match self.group_index(req.id) {
            None => {
                return Err(TreeError::NotFound);
            },
            Some(i) => i,
        };
        let current = match self.groups[idx].group_id {
            None => {
                return Err(TreeError::InvalidOperation);
            },
            Some(c) => c,
        };
        if !self.user_is_owner_item(user_id, current) {
            return Err(TreeError::Forbidden);
        }
        if self.group_index(parent).is_none() {
            return Err(TreeError::NotFound);
        }
        match self.find_root(parent) {
            Err(TreeError::DepthExceeded) => {
                return Err(TreeError::DepthExceeded);
            },
            _ => {},
        }
        if self.path_contains(parent, req.id) {
            return Err(TreeError::InvalidOperation);
        }
        proof {
            self.lemma_group_at(parent);
            self.lemma_group_at(req.id);
        }
        let code = self.groups[idx].invite_code.clone();
        let g = Group { id: req.id, title: req.title.clone(), invite_code: code, group_id: Some(parent) };
        self.groups.set(idx, g);
        proof {
            let og = old(self).groups@;
            let ng = self.groups@;
            assert(forall|j: int| 0 <= j < ng.len() && j != idx ==> ng[j] == og[j]);
        }
        Ok(())
    }

    /// Deletes group `group_id`, which `user_id` must own; a root is never
    /// deleted. Groups and cards inside it are left in place.
    pub fn delete_group(&mut self, group_id: i32, user_id: i32) -> (r: Result<(), TreeError>)
        requires
            old(self).wf(),
        ensures
            final(self).wf(),
            final(self).cards == old(self).cards,
            final(self).owners == old(self).owners,
            r is Err ==> *final(self) == *old(self),
            r == match lookup_group(old(self).groups@, group_id) {
                None => Err(TreeError::NotFound),
                Some(g) => if g.group_id is None {
                    Err(TreeError::InvalidOperation)
                } else if !owner_of(old(self).groups@, old(self).owners@, user_id, group_id) {
                    Err(TreeError::Forbidden)
                } else {
                    Ok(())
                },
            },
            r is Ok ==> final(self).groups@ == old(self).groups@.remove(
                group_pos(old(self).groups@, group_id),
            ),
    {
        let idx = match self.group_index(group_id) {
            None => {
                return Err(TreeError::NotFound);
            },
            Some(i) => i,
        };
        if self.groups[idx].group_id.is_none() {
            return Err(TreeError::InvalidOperation);
        }
        if !self.user_is_owner_item(user_id, group_id) {
            return Err(TreeError::Forbidden);
        }
        proof {
            lemma_remove_index(self.groups@, idx as int);
        }
        self.groups.remove(idx);
        Ok(())
    }

    /// Deletes card `card_id`, whose group `user_id` must own.
    pub fn delete_card(&mut self, card_id: i32, user_id: i32) -> (r: Result<(), TreeError>)
        requires
            old(self).wf(),
        ensures
            final(self).wf(),
            final(self).groups == old(self).groups,
            final(self).owners == old(self).owners,
            r is Err ==> *final(self) == *old(self),
            r == match lookup_card(old(self).cards@, card_id) {
                None => Err(TreeError::NotFound),
                Some(c) => if !owner_of(old(self).groups@, old(self).owners@, user_id, c.group_id) {
                    Err(TreeError::Forbidden)
                } else {
                    Ok(())
                },
            },
            r is Ok ==> final(self).cards@ == old(self).cards@.remove(
                card_pos(old(self).cards@, card_id),
            ),
    {
        let idx = match self.card_index(card_id) {
            None => {
                return Err(TreeError::NotFound);
            },
            Some(i) => i,
        };
        if !self.user_is_owner_item(user_id, self.cards[idx].group_id) {
            return Err(TreeError::Forbidden);
        }
        proof {
            lemma_remove_index(self.cards@, idx as int);
        }
        self.cards.remove(idx);
        Ok(())
    }

    /// Rewrites card `req.id` and moves it to group `req.group_id`, which
    /// must exist; `user_id` must own the card's current group.
    pub fn update_card(&mut self, req: &UpdateCard, user_id: i32) -> (r: Result<(), TreeError>)
        requires
            old(self).wf(),
        ensures
            final(self).wf(),
            final(self).groups == old(self).groups,
            final(self).owners == old(self).owners,
            final(self).next_card_id == old(self).next_card_id,
            r is Err ==> *final(self) == *old(self),
            r == match lookup_card(old(self).cards@, req.id) {
                None => Err(TreeError::NotFound),
                Some(c) => if !owner_of(old(self).groups@, old(self).owners@, user_id, c.group_id) {
                    Err(TreeError::Forbidden)
                } else if lookup_group(old(self).groups@, req.group_id) is None {
                    Err(TreeError::NotFound)
                } else {
                    Ok(())
                },
            },
            r is Ok ==> final(self).cards@ == old(self).cards@.update(
                card_pos(old(self).cards@, req.id),
                Card {
                    id: req.id,
                    word: req.word,
                    translation: req.translation,
                    group_id: req.group_id,
                },
            ),
    {
        let idx = match self.card_index(req.id) {
            None => {
                return Err(TreeError::NotFound);
            },
            Some(i) => i,
        };
        if !self.user_is_owner_item(user_id, self.cards[idx].group_id) {
            return Err(TreeError::Forbidden);
        }
        if self.group_index(req.group_id).is_none() {
            return Err(TreeError::NotFound);
        }
        let c = Card {
            id: req.id,
            word: req.word.clone(),
            translation: req.translation.clone(),
            group_id: req.group_id,
        };
        self.cards.set(idx, c);
        proof {
            let oc = old(self).cards@;
            let nc = self.cards@;
            assert(forall|j: int| 0 <= j < nc.len() && j != idx ==> nc[j] == oc[j]);
        }
        Ok(())
    }

    /// Creates the root group of `user_id` and records the ownership. A user
    /// has at most one root.
    pub fn provision_root(&mut self, user_id: i32, title: String) -> (r: Result<i32, TreeError>)
        requires
            old(self).wf(),
        ensures
            final(self).wf(),
            final(self).cards == old(self).cards,
            r is Err ==> *final(self) == *old(self),
            root_record(old(self).owners@, user_id) is Some ==> r == Err::<i32, TreeError>(
                TreeError::InvalidOperation,
            ),
            root_record(old(self).owners@, user_id) is None && old(self).next_group_id == i32::MAX
                ==> r is Err,
            match r {
                Ok(id) => {
                    &&& appended_group(old(self).groups@, final(self).groups@, id, title@, None)
                    &&& final(self).owners@ == old(self).owners@.push(
                        RootOwnership { user_id, group_id: id },
                    )
                },
                Err(e) => root_record(old(self).owners@, user_id) is None ==> e
                    == TreeError::StorageFailure,
            },
    {
        if self.find_user_root_group(user_id).is_ok() {
            return Err(TreeError::InvalidOperation);
        }
        let id = self.insert_group(title, None)?;
        self.owners.push(RootOwnership { user_id, group_id: id });
        Ok(id)
    }
}

} // verus!

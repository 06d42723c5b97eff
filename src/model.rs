use vstd::prelude::*;

verus! {

/// The failures that tree operations report.
#[derive(Debug, Clone, Copy, PartialEq, Eq, Structural)]
pub enum TreeError {
    /// A referenced group, card or invite code does not exist.
    NotFound,
    /// The acting user does not own the root of the target subtree.
    Forbidden,
    /// The request is structurally disallowed (deleting a root, moving a
    /// group under itself or under one of its own descendants).
    InvalidOperation,
    /// The store refused a write (identifiers exhausted, duplicate code).
    StorageFailure,
    /// A walk up or down the tree went past the depth or size ceiling.
    DepthExceeded,
}

/// A folder-like node; `group_id` is the parent, `None` for a root.
#[derive(Debug, Clone)]
pub struct Group {
    pub id: i32,
    pub title: String,
    pub invite_code: String,
    pub group_id: Option<i32>,
}

/// A leaf item holding a word and its translation, inside group `group_id`.
#[derive(Debug, Clone)]
pub struct Card {
    pub id: i32,
    pub word: String,
    pub translation: String,
    pub group_id: i32,
}

/// One direct child of a group.
#[derive(Debug, Clone)]
pub enum GroupItems {
    Card(Card),
    Group(Group),
}

/// A group together with the trees of all its child groups.
#[derive(Debug)]
pub struct TreeNode {
    pub root: Group,
    pub children: Vec<TreeNode>,
}

impl Group {
    /// A field-by-field copy.
    pub fn cloned(&self) -> (r: Group)
        ensures
            r == *self,
    {
        Group {
            id: self.id,
            title: self.title.clone(),
            invite_code: self.invite_code.clone(),
            group_id: self.group_id,
        }
    }
}

impl Card {
    /// A field-by-field copy.
    pub fn cloned(&self) -> (r: Card)
        ensures
            r == *self,
    {
        Card {
            id: self.id,
            word: self.word.clone(),
            translation: self.translation.clone(),
            group_id: self.group_id,
        }
    }
}

/// Records that a user owns a root group.
#[derive(Debug, Clone, Copy, PartialEq, Eq, Structural)]
pub struct RootOwnership {
    pub user_id: i32,
    pub group_id: i32,
}

/// Request to add a card to a group.
#[derive(Debug, Clone)]
pub struct CreateCard {
    pub word: String,
    pub translation: String,
    pub group_id: i32,
}

/// Request to rewrite a card, possibly moving it to another group.
#[derive(Debug, Clone)]
pub struct UpdateCard {
    pub id: i32,
    pub word: String,
    pub translation: String,
    pub group_id: i32,
}

/// Request to add a group under the parent `group_id`.
#[derive(Debug, Clone)]
pub struct CreateGroup {
    pub title: String,
    pub group_id: Option<i32>,
}

/// Request to retitle a group and hang it under the parent `group_id`.
#[derive(Debug, Clone)]
pub struct UpdateGroup {
    pub id: i32,
    pub title: String,
    pub group_id: Option<i32>,
}

/// Request to copy the group known by `invite_code` under `parent_id`.
#[derive(Debug, Clone)]
pub struct CopyGroup {
    pub invite_code: String,
    pub parent_id: i32,
}

} // verus!

use langtree::model::{CopyGroup, CreateCard, CreateGroup, Group, GroupItems, TreeError, UpdateCard, UpdateGroup};
use langtree::store::{Store, MAX_DEPTH};

const U1: i32 = 1;
const U2: i32 = 2;

struct Scene {
    store: Store,
    r1: i32,
    g1: i32,
    c1: i32,
}

fn scene() -> Scene {
    let mut store = Store::new();
    let r1 = store.provision_root(U1, "R1".to_string()).unwrap();
    let g1 = store
        .create_group(&CreateGroup { title: "G1".to_string(), group_id: Some(r1) }, U1)
        .unwrap();
    let c1 = store
        .create_card(
            &CreateCard { word: "hund".to_string(), translation: "dog".to_string(), group_id: g1 },
            U1,
        )
        .unwrap();
    Scene { store, r1, g1, c1 }
}

fn group(store: &Store, id: i32) -> Group {
    store.groups.iter().find(|g| g.id == id).unwrap().clone()
}

#[test]
fn scenario_root_owner_and_path() {
    let s = scene();
    assert_eq!(s.store.find_root(s.g1), Ok(s.r1));
    let card_group = s.store.cards.iter().find(|c| c.id == s.c1).unwrap().group_id;
    assert_eq!(card_group, s.g1);
    assert!(s.store.user_is_owner_item(U1, card_group));
    let path: Vec<i32> = s.store.path_to_root(s.g1).unwrap().iter().map(|g| g.id).collect();
    assert_eq!(path, vec![s.g1, s.r1]);
}

#[test]
fn scenario_copy_by_invite_code() {
    let mut s = scene();
    let r2 = s.store.provision_root(U2, "R2".to_string()).unwrap();
    let code = group(&s.store, s.g1).invite_code;
    let found = s.store.find_group_by_invite_code(&code).unwrap();
    assert_eq!(found.id, s.g1);
    let copy = s.store.copy_group(&CopyGroup { invite_code: code.clone(), parent_id: r2 }, U2).unwrap();
    let g1c = group(&s.store, copy);
    assert_eq!(g1c.group_id, Some(r2));
    assert_eq!(g1c.title, "G1");
    assert_ne!(g1c.invite_code, code);
    assert_ne!(copy, s.g1);
    let cards = s.store.get_all_cards(copy);
    assert_eq!(cards.len(), 1);
    assert_eq!(cards[0].word, "hund");
    assert_eq!(cards[0].translation, "dog");
    assert_ne!(cards[0].id, s.c1);
    assert!(s.store.user_is_owner_item(U2, copy));
    assert!(!s.store.user_is_owner_item(U1, copy));
}

#[test]
fn scenario_delete_root_rejected() {
    let mut s = scene();
    assert_eq!(s.store.delete_group(s.r1, U1), Err(TreeError::InvalidOperation));
    assert_eq!(s.store.find_root(s.r1), Ok(s.r1));
    assert_eq!(s.store.delete_group(s.r1, U2), Err(TreeError::InvalidOperation));
}

#[test]
fn scenario_self_move_rejected() {
    let mut s = scene();
    let req = UpdateGroup { id: s.g1, title: "new title".to_string(), group_id: Some(s.g1) };
    assert_eq!(s.store.update_group(&req, U1), Err(TreeError::InvalidOperation));
    assert_eq!(group(&s.store, s.g1).title, "G1");
    let other = UpdateGroup { id: 999, title: "x".to_string(), group_id: Some(999) };
    assert_eq!(s.store.update_group(&other, U2), Err(TreeError::InvalidOperation));
}

#[test]
fn root_is_stable_across_unrelated_changes() {
    let mut s = scene();
    let before = s.store.find_root(s.g1);
    let r2 = s.store.provision_root(U2, "R2".to_string()).unwrap();
    let g2 = s.store.create_group(&CreateGroup { title: "G2".to_string(), group_id: Some(r2) }, U2).unwrap();
    s.store.delete_group(g2, U2).unwrap();
    assert_eq!(s.store.find_root(s.g1), before);
    assert_eq!(s.store.find_root(s.g1), before);
}

#[test]
fn ownership_is_inherited_by_every_level() {
    let mut s = scene();
    let g2 = s.store.create_group(&CreateGroup { title: "G2".to_string(), group_id: Some(s.g1) }, U1).unwrap();
    let g3 = s.store.create_group(&CreateGroup { title: "G3".to_string(), group_id: Some(g2) }, U1).unwrap();
    for g in [s.r1, s.g1, g2, g3] {
        assert!(s.store.user_is_owner_item(U1, g));
        assert!(!s.store.user_is_owner_item(U2, g));
    }
    assert!(!s.store.user_is_owner_item(U1, 12345));
}

#[test]
fn path_ends_at_a_root() {
    let mut s = scene();
    let g2 = s.store.create_group(&CreateGroup { title: "G2".to_string(), group_id: Some(s.g1) }, U1).unwrap();
    let path = s.store.path_to_root(g2).unwrap();
    assert_eq!(path.len(), 3);
    assert_eq!(path[0].id, g2);
    assert_eq!(path.last().unwrap().group_id, None);
    assert_eq!(path.last().unwrap().id, s.r1);
    assert_eq!(s.store.path_to_root(777).unwrap_err(), TreeError::NotFound);
}

#[test]
fn copy_mirrors_counts_and_text() {
    let mut s = scene();
    let g2 = s.store.create_group(&CreateGroup { title: "G2".to_string(), group_id: Some(s.g1) }, U1).unwrap();
    s.store.create_card(&CreateCard { word: "katze".to_string(), translation: "cat".to_string(), group_id: g2 }, U1).unwrap();
    s.store.create_card(&CreateCard { word: "maus".to_string(), translation: "mouse".to_string(), group_id: g2 }, U1).unwrap();
    let r2 = s.store.provision_root(U2, "R2".to_string()).unwrap();
    let groups_before = s.store.groups.len();
    let cards_before = s.store.cards.len();
    let old_ids: Vec<i32> = s.store.groups.iter().map(|g| g.id).collect();
    let old_codes: Vec<String> = s.store.groups.iter().map(|g| g.invite_code.clone()).collect();
    let copy = s.store.copy_subtree(s.g1, r2).unwrap();
    assert_eq!(s.store.groups.len(), groups_before + 2);
    assert_eq!(s.store.cards.len(), cards_before + 3);
    for g in &s.store.groups[groups_before..] {
        assert!(!old_ids.contains(&g.id));
        assert!(!old_codes.contains(&g.invite_code));
        assert_eq!(g.invite_code.len(), 36);
    }
    let inner = s.store.get_all_groups(copy);
    assert_eq!(inner.len(), 1);
    assert_eq!(inner[0].title, "G2");
    let words: Vec<String> = s.store.get_all_cards(inner[0].id).iter().map(|c| c.word.clone()).collect();
    assert_eq!(words, vec!["katze".to_string(), "maus".to_string()]);
}

#[test]
fn copy_items_into_existing_group() {
    let mut s = scene();
    let r2 = s.store.provision_root(U2, "R2".to_string()).unwrap();
    s.store.copy_items_recurive(s.g1, r2).unwrap();
    let cards = s.store.get_all_cards(r2);
    assert_eq!(cards.len(), 1);
    assert_eq!(cards[0].word, "hund");
    assert!(s.store.get_all_groups(r2).is_empty());
    assert_eq!(s.store.copy_items_recurive(s.g1, 4242), Err(TreeError::NotFound));
    assert_eq!(s.store.copy_items_recurive(4242, r2), Err(TreeError::NotFound));
}

#[test]
fn copy_into_own_subtree_copies_it_as_it_stood() {
    let mut s = scene();
    let copy = s.store.copy_subtree(s.r1, s.g1).unwrap();
    assert_eq!(s.store.groups.len(), 4);
    assert_eq!(s.store.cards.len(), 2);
    let inner: Vec<String> = s.store.get_all_groups(copy).iter().map(|g| g.title.clone()).collect();
    assert_eq!(inner, vec!["G1".to_string()]);
}

#[test]
fn copy_group_errors() {
    let mut s = scene();
    let r2 = s.store.provision_root(U2, "R2".to_string()).unwrap();
    let code = group(&s.store, s.g1).invite_code;
    let req = CopyGroup { invite_code: code, parent_id: r2 };
    assert_eq!(s.store.copy_group(&req, U1), Err(TreeError::Forbidden));
    let bad = CopyGroup { invite_code: "no-such-code".to_string(), parent_id: r2 };
    assert_eq!(s.store.copy_group(&bad, U2), Err(TreeError::NotFound));
}

#[test]
fn list_children_cards_then_groups() {
    let mut s = scene();
    let g2 = s.store.create_group(&CreateGroup { title: "G2".to_string(), group_id: Some(s.g1) }, U1).unwrap();
    let items = s.store.get_all_objects(s.g1);
    assert_eq!(items.len(), 2);
    assert!(matches!(&items[0], GroupItems::Card(c) if c.id == s.c1));
    assert!(matches!(&items[1], GroupItems::Group(g) if g.id == g2));
    assert!(s.store.get_all_objects(g2).is_empty());
    assert_eq!(s.store.get_items_in_group(s.g1, U1).unwrap().len(), 2);
    assert_eq!(s.store.get_items_in_group(s.g1, U2).unwrap_err(), TreeError::Forbidden);
    assert_eq!(s.store.get_cards_in_group(s.g1, U1).unwrap().len(), 1);
}

#[test]
fn full_tree_holds_every_group() {
    let mut s = scene();
    let g2 = s.store.create_group(&CreateGroup { title: "G2".to_string(), group_id: Some(s.r1) }, U1).unwrap();
    let g3 = s.store.create_group(&CreateGroup { title: "G3".to_string(), group_id: Some(s.g1) }, U1).unwrap();
    let tree = s.store.get_full_tree(U1).unwrap();
    assert_eq!(tree.root.id, s.r1);
    assert_eq!(tree.children.len(), 2);
    assert_eq!(tree.children[0].root.id, s.g1);
    assert_eq!(tree.children[1].root.id, g2);
    assert_eq!(tree.children[0].children.len(), 1);
    assert_eq!(tree.children[0].children[0].root.id, g3);
    assert!(tree.children[1].children.is_empty());
    assert_eq!(s.store.get_full_tree(U2).unwrap_err(), TreeError::NotFound);
    assert_eq!(s.store.get_tree(999, MAX_DEPTH).unwrap_err(), TreeError::NotFound);
    assert_eq!(s.store.get_tree(s.r1, 1).unwrap_err(), TreeError::DepthExceeded);
    assert!(s.store.get_tree(s.r1, 2).is_ok());
}

#[test]
fn create_errors() {
    let mut s = scene();
    let none = CreateGroup { title: "x".to_string(), group_id: None };
    assert_eq!(s.store.create_group(&none, U1), Err(TreeError::InvalidOperation));
    let foreign = CreateGroup { title: "x".to_string(), group_id: Some(s.g1) };
    assert_eq!(s.store.create_group(&foreign, U2), Err(TreeError::Forbidden));
    let card = CreateCard { word: "a".to_string(), translation: "b".to_string(), group_id: s.g1 };
    assert_eq!(s.store.create_card(&card, U2), Err(TreeError::Forbidden));
    assert_eq!(s.store.provision_root(U1, "again".to_string()), Err(TreeError::InvalidOperation));
    assert_eq!(s.store.get_root_for_user(U1), Ok(s.r1));
    assert_eq!(s.store.get_root_for_user(U2), Err(TreeError::NotFound));
}

#[test]
fn identifiers_exhausted() {
    let mut s = scene();
    s.store.next_group_id = i32::MAX;
    let req = CreateGroup { title: "x".to_string(), group_id: Some(s.g1) };
    assert_eq!(s.store.create_group(&req, U1), Err(TreeError::StorageFailure));
    s.store.next_card_id = i32::MAX;
    let card = CreateCard { word: "a".to_string(), translation: "b".to_string(), group_id: s.g1 };
    assert_eq!(s.store.create_card(&card, U1), Err(TreeError::StorageFailure));
    let r2 = s.store.provision_root(U2, "R2".to_string());
    assert_eq!(r2, Err(TreeError::StorageFailure));
    let groups = s.store.groups.len();
    assert_eq!(s.store.copy_subtree(s.g1, s.r1), Err(TreeError::StorageFailure));
    assert_eq!(s.store.groups.len(), groups);
}

#[test]
fn move_group() {
    let mut s = scene();
    let g2 = s.store.create_group(&CreateGroup { title: "G2".to_string(), group_id: Some(s.r1) }, U1).unwrap();
    let g3 = s.store.create_group(&CreateGroup { title: "G3".to_string(), group_id: Some(g2) }, U1).unwrap();
    let into_child = UpdateGroup { id: g2, title: "G2".to_string(), group_id: Some(g3) };
    assert_eq!(s.store.update_group(&into_child, U1), Err(TreeError::InvalidOperation));
    let ok = UpdateGroup { id: g2, title: "moved".to_string(), group_id: Some(s.g1) };
    assert_eq!(s.store.update_group(&ok, U1), Ok(()));
    assert_eq!(group(&s.store, g2).title, "moved");
    assert_eq!(group(&s.store, g2).group_id, Some(s.g1));
    let ids: Vec<i32> = s.store.path_to_root(g3).unwrap().iter().map(|g| g.id).collect();
    assert_eq!(ids, vec![g3, g2, s.g1, s.r1]);
    let root = UpdateGroup { id: s.r1, title: "R".to_string(), group_id: Some(s.g1) };
    assert_eq!(s.store.update_group(&root, U1), Err(TreeError::InvalidOperation));
    let missing = UpdateGroup { id: 500, title: "R".to_string(), group_id: Some(s.g1) };
    assert_eq!(s.store.update_group(&missing, U1), Err(TreeError::NotFound));
    let foreign = UpdateGroup { id: g2, title: "R".to_string(), group_id: Some(s.g1) };
    assert_eq!(s.store.update_group(&foreign, U2), Err(TreeError::Forbidden));
    let nowhere = UpdateGroup { id: g2, title: "R".to_string(), group_id: Some(600) };
    assert_eq!(s.store.update_group(&nowhere, U1), Err(TreeError::NotFound));
    let no_parent = UpdateGroup { id: g2, title: "R".to_string(), group_id: None };
    assert_eq!(s.store.update_group(&no_parent, U1), Err(TreeError::InvalidOperation));
}

#[test]
fn delete_group_leaves_children_orphaned() {
    let mut s = scene();
    let g2 = s.store.create_group(&CreateGroup { title: "G2".to_string(), group_id: Some(s.g1) }, U1).unwrap();
    assert_eq!(s.store.delete_group(s.g1, U2), Err(TreeError::Forbidden));
    assert_eq!(s.store.delete_group(s.g1, U1), Ok(()));
    assert_eq!(s.store.find_root(s.g1), Err(TreeError::NotFound));
    assert_eq!(s.store.find_root(g2), Err(TreeError::NotFound));
    assert!(!s.store.user_is_owner_item(U1, g2));
    assert_eq!(s.store.delete_group(s.g1, U1), Err(TreeError::NotFound));
}

#[test]
fn card_update_and_delete() {
    let mut s = scene();
    let g2 = s.store.create_group(&CreateGroup { title: "G2".to_string(), group_id: Some(s.r1) }, U1).unwrap();
    let upd = UpdateCard { id: s.c1, word: "hündin".to_string(), translation: "she-dog".to_string(), group_id: g2 };
    assert_eq!(s.store.update_card(&upd, U2), Err(TreeError::Forbidden));
    assert_eq!(s.store.update_card(&upd, U1), Ok(()));
    let c = s.store.get_all_cards(g2);
    assert_eq!(c.len(), 1);
    assert_eq!(c[0].word, "hündin");
    assert!(s.store.get_all_cards(s.g1).is_empty());
    let lost = UpdateCard { id: s.c1, word: "a".to_string(), translation: "b".to_string(), group_id: 900 };
    assert_eq!(s.store.update_card(&lost, U1), Err(TreeError::NotFound));
    let missing = UpdateCard { id: 901, word: "a".to_string(), translation: "b".to_string(), group_id: g2 };
    assert_eq!(s.store.update_card(&missing, U1), Err(TreeError::NotFound));
    assert_eq!(s.store.delete_card(s.c1, U2), Err(TreeError::Forbidden));
    assert_eq!(s.store.delete_card(s.c1, U1), Ok(()));
    assert!(s.store.cards.is_empty());
    assert_eq!(s.store.delete_card(s.c1, U1), Err(TreeError::NotFound));
}

fn chain(len: usize) -> Store {
    let mut store = Store::new();
    for i in 0..len {
        let id = i as i32 + 1;
        let parent = if i == 0 { None } else { Some(id - 1) };
        store.groups.push(Group { id, title: format!("g{}", id), invite_code: format!("code{}", id), group_id: parent });
    }
    store.next_group_id = len as i32 + 1;
    store
}

#[test]
fn depth_ceiling() {
    let store = chain(MAX_DEPTH + 1);
    assert_eq!(store.find_root(MAX_DEPTH as i32 + 1), Ok(1));
    assert_eq!(store.path_to_root(MAX_DEPTH as i32 + 1).unwrap().len(), MAX_DEPTH + 1);
    let deeper = chain(MAX_DEPTH + 2);
    assert_eq!(deeper.find_root(MAX_DEPTH as i32 + 2), Err(TreeError::DepthExceeded));
    assert_eq!(deeper.path_to_root(MAX_DEPTH as i32 + 2).unwrap_err(), TreeError::DepthExceeded);
}

#[test]
fn cycles_are_cut_off() {
    let mut store = Store::new();
    store.groups.push(Group { id: 1, title: "a".to_string(), invite_code: "c1".to_string(), group_id: Some(2) });
    store.groups.push(Group { id: 2, title: "b".to_string(), invite_code: "c2".to_string(), group_id: Some(1) });
    store.next_group_id = 3;
    assert_eq!(store.find_root(1), Err(TreeError::DepthExceeded));
    assert_eq!(store.layout_subtree(1).unwrap_err(), TreeError::DepthExceeded);
    assert_eq!(store.get_tree(1, MAX_DEPTH).unwrap_err(), TreeError::DepthExceeded);
    assert!(store.path_contains(1, 2));
    assert!(!store.path_contains(1, 3));
}

#[test]
fn layout_lists_groups_breadth_first() {
    let mut s = scene();
    let g2 = s.store.create_group(&CreateGroup { title: "G2".to_string(), group_id: Some(s.r1) }, U1).unwrap();
    let g3 = s.store.create_group(&CreateGroup { title: "G3".to_string(), group_id: Some(s.g1) }, U1).unwrap();
    let (gids, entries) = s.store.layout_subtree(s.r1).unwrap();
    assert_eq!(gids, vec![s.r1, s.g1, g2, g3]);
    assert_eq!(entries.len(), 4);
    let slots: Vec<usize> = entries.iter().map(|e| e.slot).collect();
    assert_eq!(slots, vec![0, 0, 1, 1]);
    assert!(matches!(&entries[2].item, GroupItems::Card(c) if c.id == s.c1));
    assert_eq!(s.store.layout_subtree(31337).unwrap_err(), TreeError::NotFound);
}

#[test]
fn point_lookups() {
    let s = scene();
    assert_eq!(s.store.find_group_by_id(s.g1).unwrap().title, "G1");
    assert_eq!(s.store.find_card_by_id(s.c1).unwrap().translation, "dog");
    assert_eq!(s.store.find_group_by_id(555).unwrap_err(), TreeError::NotFound);
    assert_eq!(s.store.find_card_by_id(555).unwrap_err(), TreeError::NotFound);
}

#[test]
fn copy_cards_only_until_ids_run_out() {
    let mut s = scene();
    let r2 = s.store.provision_root(U2, "R2".to_string()).unwrap();
    s.store.next_card_id = i32::MAX - 1;
    assert_eq!(s.store.copy_items_recurive(s.g1, r2), Ok(()));
    assert_eq!(s.store.get_all_cards(r2).len(), 1);
    s.store.create_card(&CreateCard { word: "x".to_string(), translation: "y".to_string(), group_id: s.g1 }, U1).unwrap_err();
    let mut t = scene();
    let r2 = t.store.provision_root(U2, "R2".to_string()).unwrap();
    t.store.create_card(&CreateCard { word: "katze".to_string(), translation: "cat".to_string(), group_id: t.g1 }, U1).unwrap();
    t.store.next_card_id = i32::MAX - 1;
    let cards = t.store.cards.len();
    assert_eq!(t.store.copy_items_recurive(t.g1, r2), Err(TreeError::StorageFailure));
    assert_eq!(t.store.cards.len(), cards);
}

#[test]
fn copy_with_groups_needs_group_ids() {
    let mut s = scene();
    s.store.create_group(&CreateGroup { title: "G2".to_string(), group_id: Some(s.g1) }, U1).unwrap();
    let r2 = s.store.provision_root(U2, "R2".to_string()).unwrap();
    s.store.next_group_id = i32::MAX;
    assert_eq!(s.store.copy_items_recurive(s.g1, r2), Err(TreeError::StorageFailure));
    assert_eq!(s.store.copy_subtree(s.g1, r2), Err(TreeError::StorageFailure));
}

#[test]
fn copy_refuses_source_past_the_ceiling() {
    let mut store = chain(MAX_DEPTH + 2);
    let bottom = MAX_DEPTH as i32 + 2;
    assert_eq!(store.copy_subtree(bottom, 1), Err(TreeError::DepthExceeded));
    assert_eq!(store.copy_items_recurive(bottom, 1), Err(TreeError::DepthExceeded));
    assert_eq!(store.layout_subtree(bottom).unwrap_err(), TreeError::DepthExceeded);
    assert!(store.copy_subtree(MAX_DEPTH as i32 + 1, 1).is_ok());
}

use vstd::prelude::*;

use crate::copier::{card_entries, copied_below, is_layout, CopyEntry};
use crate::model::{Group, RootOwnership};
use crate::mutator::on_path;
use crate::reader::{path_from, path_to};
use crate::store::{
    ascend, code_in_use, group_pos, lookup_group, owner_of, owns, root_of, Ascent, Store,
    MAX_DEPTH,
};

verus! {

/// Two group lists agree on the walk up from `id`: each group met within
/// `fuel` links is the same in both.
pub open spec fn chain_agrees(gs1: Seq<Group>, gs2: Seq<Group>, id: i32, fuel: nat) -> bool
    decreases fuel,
{
    &&& lookup_group(gs1, id) == lookup_group(gs2, id)
    &&& match lookup_group(gs1, id) {
        Some(g) => match g.group_id {
            Some(p) => fuel > 0 ==> chain_agrees(gs1, gs2, p, (fuel - 1) as nat),
            None => true,
        },
        None => true,
    }
}

proof fn lemma_walks_agree(gs1: Seq<Group>, gs2: Seq<Group>, id: i32, fuel: nat)
    requires
        chain_agrees(gs1, gs2, id, fuel),
    ensures
        ascend(gs1, id, fuel) == ascend(gs2, id, fuel),
        path_from(gs1, id, fuel) == path_from(gs2, id, fuel),
    decreases fuel,
{
    if let Some(g) = lookup_group(gs1, id) {
        if let Some(p) = g.group_id {
            if fuel > 0 {
                lemma_walks_agree(gs1, gs2, p, (fuel - 1) as nat);
            }
        }
    }
}

/// The root found from a group, and the path to it, depend only on the
/// groups along that path: as long as no change touches the chain of
/// parents above `id`, `find_root(id)` and `path_to_root(id)` keep their
/// results.
pub proof fn lemma_root_stable(gs1: Seq<Group>, gs2: Seq<Group>, id: i32)
    requires
        chain_agrees(gs1, gs2, id, MAX_DEPTH as nat),
    ensures
        root_of(gs1, id) == root_of(gs2, id),
        path_to(gs1, id) == path_to(gs2, id),
{
    lemma_walks_agree(gs1, gs2, id, MAX_DEPTH as nat);
}

proof fn lemma_lookup_push(gs: Seq<Group>, x: Group, id: i32)
    requires
        id != x.id,
    ensures
        lookup_group(gs.push(x), id) == lookup_group(gs, id),
{
    assert(gs.push(x).drop_last() == gs);
    crate::store::lemma_group_pos(gs, id);
}

proof fn lemma_append_chain(s: &Store, x: Group, id: i32, fuel: nat)
    requires
        s.wf(),
        x.id >= s.next_group_id,
        lookup_group(s.groups@, id) is Some,
    ensures
        chain_agrees(s.groups@, s.groups@.push(x), id, fuel),
    decreases fuel,
{
    let gs = s.groups@;
    s.lemma_group_at(id);
    lemma_lookup_push(gs, x, id);
    let g = lookup_group(gs, id)->0;
    assert(g == gs[group_pos(gs, id)]);
    if let Some(p) = g.group_id {
        if fuel > 0 {
            let pos = group_pos(gs, id);
            assert(s.groups@[pos].group_id == Some(p));
            assert(p < s.next_group_id);
            lemma_lookup_push(gs, x, p);
            if lookup_group(gs, p) is Some {
                lemma_append_chain(s, x, p, (fuel - 1) as nat);
            } else {
                assert(chain_agrees(gs, gs.push(x), p, (fuel - 1) as nat));
            }
        }
    }
}

/// Adding a group with a fresh id, as creating or copying groups does,
/// leaves the root and the path of every group already stored as they
/// were.
pub proof fn lemma_append_keeps_roots(s: &Store, x: Group, id: i32)
    requires
        s.wf(),
        x.id >= s.next_group_id,
        lookup_group(s.groups@, id) is Some,
    ensures
        root_of(s.groups@.push(x), id) == root_of(s.groups@, id),
        path_to(s.groups@.push(x), id) == path_to(s.groups@, id),
{
    lemma_append_chain(s, x, id, MAX_DEPTH as nat);
    lemma_root_stable(s.groups@, s.groups@.push(x), id);
}

proof fn lemma_root_on_walk(gs: Seq<Group>, id: i32, root: i32, fuel: nat, i: int)
    requires
        0 <= i < path_from(gs, id, fuel).len(),
        path_from(gs, id, fuel)[i].id == root,
        lookup_group(gs, root) matches Some(rg) && rg.group_id is None,
    ensures
        ascend(gs, id, fuel) == Ascent::Root(root),
    decreases fuel,
{
    lemma_lookup_id(gs, id);
    let g = lookup_group(gs, id)->0;
    match g.group_id {
        None => {},
        Some(q) => {
            if fuel > 0 && i > 0 {
                let rest = path_from(gs, q, (fuel - 1) as nat);
                assert(path_from(gs, id, fuel) == seq![g] + rest);
                assert(path_from(gs, id, fuel)[i] == rest[i - 1]);
                lemma_root_on_walk(gs, q, root, (fuel - 1) as nat, i - 1);
            } else {
                assert(path_from(gs, id, fuel)[0] == g);
            }
        },
    }
}

/// A walk up that passes a root ends there: when root group `root` lies on
/// the path from `id` (`id` itself included), `find_root(id)` succeeds and
/// returns `root`, on every call.
pub proof fn lemma_root_on_path(gs: Seq<Group>, id: i32, root: i32)
    requires
        on_path(gs, id, root),
        lookup_group(gs, root) matches Some(rg) && rg.group_id is None,
    ensures
        root_of(gs, id) == Ascent::Root(root),
{
    let i = choose|i: int| 0 <= i < path_to(gs, id).len() && #[trigger] path_to(gs, id)[i].id == root;
    lemma_root_on_walk(gs, id, root, MAX_DEPTH as nat, i);
}

/// Ownership is inherited: a user who owns root `root` owns every group
/// below it, that is every group whose path up passes `root` (`root`
/// itself included).
pub proof fn lemma_owner_transitive(
    gs: Seq<Group>,
    os: Seq<RootOwnership>,
    user: i32,
    id: i32,
    root: i32,
)
    requires
        owns(os, user, root),
        lookup_group(gs, root) matches Some(rg) && rg.group_id is None,
        on_path(gs, id, root),
    ensures
        owner_of(gs, os, user, id),
{
    lemma_root_on_path(gs, id, root);
}

proof fn lemma_path_ends(gs: Seq<Group>, id: i32, fuel: nat)
    requires
        ascend(gs, id, fuel) is Root,
    ensures
        path_from(gs, id, fuel).len() >= 1,
        path_from(gs, id, fuel)[0].id == id,
        path_from(gs, id, fuel).last().group_id is None,
        path_from(gs, id, fuel).last().id == ascend(gs, id, fuel)->Root_0,
        path_from(gs, id, fuel).len() <= fuel + 1,
    decreases fuel,
{
    lemma_lookup_id(gs, id);
    let g = lookup_group(gs, id)->0;
    if let Some(p) = g.group_id {
        lemma_path_ends(gs, p, (fuel - 1) as nat);
        let rest = path_from(gs, p, (fuel - 1) as nat);
        assert((seq![g] + rest).last() == rest.last());
    }
}

proof fn lemma_lookup_id(gs: Seq<Group>, id: i32)
    ensures
        lookup_group(gs, id) matches Some(g) ==> g.id == id,
{
    crate::store::lemma_group_pos(gs, id);
}

/// A path to the root is finite, starts at the group asked for and ends at
/// a root, a group without parent: the root that `find_root` reports.
pub proof fn lemma_path_terminates(gs: Seq<Group>, id: i32)
    requires
        root_of(gs, id) is Root,
    ensures
        1 <= path_to(gs, id).len() <= MAX_DEPTH + 1,
        path_to(gs, id)[0].id == id,
        path_to(gs, id).last().group_id is None,
        path_to(gs, id).last().id == root_of(gs, id)->Root_0,
{
    lemma_path_ends(gs, id, MAX_DEPTH as nat);
}

/// A copy mirrors its source: when the subtree below `source` holds `m`
/// groups (the source included, listed in `gids`) and `n` cards, a copy of
/// it adds exactly `m` groups and `n` cards, every new group with an id
/// above all earlier ones and an invite code no earlier group carries.
/// Titles, words, translations and the nesting are carried over entry by
/// entry, as `copied_below` states.
pub proof fn lemma_copy_isomorphic(
    before: &Store,
    after: &Store,
    source: i32,
    dest: i32,
    top: i32,
    gids: Seq<i32>,
    entries: Seq<CopyEntry>,
    targets: Seq<i32>,
)
    requires
        before.wf(),
        after.wf(),
        is_layout(before.groups@, before.cards@, source, gids, entries),
        copied_below(
            before.groups@,
            after.groups@,
            before.cards@,
            after.cards@,
            top,
            lookup_group(before.groups@, source)->0.title@,
            dest,
            targets,
            entries,
            before.next_group_id,
        ),
    ensures
        after.groups@.len() == before.groups@.len() + gids.len(),
        after.cards@.len() == before.cards@.len() + card_entries(entries).len(),
        after.groups@.subrange(0, before.groups@.len() as int) == before.groups@,
        after.cards@.subrange(0, before.cards@.len() as int) == before.cards@,
        forall|k: int|
            before.groups@.len() <= k < after.groups@.len() ==> {
                &&& #[trigger] after.groups@[k].id >= before.next_group_id
                &&& !code_in_use(before.groups@, after.groups@[k].invite_code@)
            },
{
    let gs0 = before.groups@;
    let gs1 = after.groups@;
    let mid = gs1.subrange(0, gs0.len() as int + 1);
    assert(gids.drop_first().len() == gids.len() - 1);
    assert(mid.subrange(0, gs0.len() as int) == gs0);
    assert(gs1.subrange(0, gs0.len() as int) == gs0) by {
        assert(gs1.subrange(0, gs0.len() as int) =~= mid.subrange(0, gs0.len() as int));
    }
    assert forall|k: int| gs0.len() <= k < gs1.len() implies !code_in_use(
        gs0,
        gs1[k].invite_code@,
    ) by {
        if code_in_use(gs0, gs1[k].invite_code@) {
            let j = choose|j: int| 0 <= j < gs0.len() && gs0[j].invite_code@ == gs1[k].invite_code@;
            assert(gs1[j] == gs0[j]);
        }
    }
}

} // verus!

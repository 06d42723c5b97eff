use vstd::prelude::*;

use crate::model::{Card, CopyGroup, Group, GroupItems, TreeError};
use crate::mutator::{appended_card, appended_group};
use crate::reader::items_of;
use crate::store::{child_cards, child_groups};
use crate::store::{ascend, group_pos, lookup_group, owner_of, root_of, Ascent, Store, MAX_DEPTH};
use vstd::set_lib::{lemma_int_range, lemma_len_subset, set_int_range};

verus! {

/// One item of a subtree laid out for copying. `slot` is the position, in
/// the layout's list of groups, of the group that holds the item.
#[derive(Debug, Clone)]
pub struct CopyEntry {
    pub slot: usize,
    pub item: GroupItems,
}

/// The id of the item in an entry.
pub open spec fn entry_id(e: CopyEntry) -> i32 {
    match e.item {
        GroupItems::Card(c) => c.id,
        GroupItems::Group(g) => g.id,
    }
}

/// The entries that hold groups.
pub open spec fn group_entries(entries: Seq<CopyEntry>) -> Seq<CopyEntry> {
    entries.filter(|e: CopyEntry| e.item is Group)
}

/// The entries that hold cards.
pub open spec fn card_entries(entries: Seq<CopyEntry>) -> Seq<CopyEntry> {
    entries.filter(|e: CopyEntry| e.item is Card)
}

/// The items placed in slot `j`, in layout order.
pub open spec fn slot_items(entries: Seq<CopyEntry>, j: int) -> Seq<GroupItems> {
    entries.filter(|e: CopyEntry| e.slot == j).map_values(|e: CopyEntry| e.item)
}

/// How many group entries come before position `i`.
pub open spec fn groups_before(entries: Seq<CopyEntry>, i: int) -> int {
    group_entries(entries.subrange(0, i)).len() as int
}

/// How many card entries come before position `i`.
pub open spec fn cards_before(entries: Seq<CopyEntry>, i: int) -> int {
    card_entries(entries.subrange(0, i)).len() as int
}

/// `gids` and `entries` lay out the whole subtree below `source`: `gids`
/// lists the source and then each group entry's id; the items in slot `j`
/// are exactly the direct children of group `gids[j]`; and every entry's
/// slot names a group listed before it.
pub open spec fn is_layout(
    gs: Seq<Group>,
    cs: Seq<Card>,
    source: i32,
    gids: Seq<i32>,
    entries: Seq<CopyEntry>,
) -> bool {
    &&& lookup_group(gs, source) is Some
    &&& gids.len() >= 1
    &&& gids[0] == source
    &&& gids.drop_first() == group_entries(entries).map_values(|e: CopyEntry| entry_id(e))
    &&& forall|j: int| 0 <= j < gids.len() ==> #[trigger] slot_items(entries, j) == items_of(gs, cs, gids[j])
    &&& forall|i: int|
        0 <= i < entries.len() ==> #[trigger] entries[i].slot < 1 + groups_before(entries, i)
}

/// The entry at `i` was written into the stores that grew from lengths
/// `glen` and `clen` to `gs1` and `cs1`: a group entry as group
/// `targets[groups_before(i) + 1]` with the same title, a card entry as a
/// card with the same word and translation, each inside the group that
/// stands for its slot.
pub open spec fn entry_written(
    glen: int,
    gs1: Seq<Group>,
    clen: int,
    cs1: Seq<Card>,
    targets: Seq<i32>,
    entries: Seq<CopyEntry>,
    i: int,
) -> bool {
    match entries[i].item {
        GroupItems::Group(g) => {
            let n = gs1[glen + groups_before(entries, i)];
            &&& n.id == targets[groups_before(entries, i) + 1]
            &&& n.title@ == g.title@
            &&& n.group_id == Some(targets[entries[i].slot as int])
        },
        GroupItems::Card(c) => {
            let n = cs1[clen + cards_before(entries, i)];
            &&& n.word@ == c.word@
            &&& n.translation@ == c.translation@
            &&& n.group_id == targets[entries[i].slot as int]
        },
    }
}

/// The stores after a write of `entries` below `targets[0]` are the stores
/// before with one new group per group entry and one new card per card
/// entry appended, each entry written as `entry_written` says.
pub open spec fn written(
    gs0: Seq<Group>,
    gs1: Seq<Group>,
    cs0: Seq<Card>,
    cs1: Seq<Card>,
    targets: Seq<i32>,
    entries: Seq<CopyEntry>,
) -> bool {
    &&& gs1.len() == gs0.len() + group_entries(entries).len()
    &&& cs1.len() == cs0.len() + card_entries(entries).len()
    &&& gs1.subrange(0, gs0.len() as int) == gs0
    &&& cs1.subrange(0, cs0.len() as int) == cs0
    &&& targets.len() == 1 + group_entries(entries).len()
    &&& forall|i: int|
        0 <= i < entries.len() ==> #[trigger] entry_written(
            gs0.len() as int,
            gs1,
            cs0.len() as int,
            cs1,
            targets,
            entries,
            i,
        )
}

/// Position of the last group with this invite code, or -1.
pub open spec fn code_pos(gs: Seq<Group>, code: Seq<char>) -> int
    decreases gs.len(),
{
    if gs.len() == 0 {
        -1
    } else if gs.last().invite_code@ == code {
        gs.len() - 1
    } else {
        code_pos(gs.drop_last(), code)
    }
}

/// The group with this invite code, if there is one.
pub open spec fn lookup_code(gs: Seq<Group>, code: Seq<char>) -> Option<Group> {
    if code_pos(gs, code) >= 0 {
        Some(gs[code_pos(gs, code)])
    } else {
        None
    }
}

/// Why a copy of `source` into `dest` is refused before anything is
/// written, if it is: one of the groups is missing, or the walk up from the
/// source is cut off by the depth ceiling.
pub open spec fn copy_refusal(gs: Seq<Group>, source: i32, dest: i32) -> Option<TreeError> {
    if lookup_group(gs, source) is None || lookup_group(gs, dest) is None {
        Some(TreeError::NotFound)
    } else if root_of(gs, source) is TooDeep {
        Some(TreeError::DepthExceeded)
    } else {
        None
    }
}

/// Every group past the old ones has an id no lower than `next`, the first
/// id that was free before.
pub open spec fn fresh_groups(gs0: Seq<Group>, gs1: Seq<Group>, next: i32) -> bool {
    forall|k: int| gs0.len() <= k < gs1.len() ==> #[trigger] gs1[k].id >= next
}

/// The stores grew from `gs0`, `cs0` to `gs1`, `cs1` by a new group `top`
/// with title `title` inside `dest`, followed by `entries` written below
/// `top`, all with ids no lower than `next`.
pub open spec fn copied_below(
    gs0: Seq<Group>,
    gs1: Seq<Group>,
    cs0: Seq<Card>,
    cs1: Seq<Card>,
    top: i32,
    title: Seq<char>,
    dest: i32,
    targets: Seq<i32>,
    entries: Seq<CopyEntry>,
    next: i32,
) -> bool {
    &&& targets[0] == top
    &&& appended_group(gs0, gs1.subrange(0, gs0.len() as int + 1), top, title, Some(dest))
    &&& written(gs1.subrange(0, gs0.len() as int + 1), gs1, cs0, cs1, targets, entries)
    &&& fresh_groups(gs0, gs1, next)
}

proof fn lemma_code_pos(gs: Seq<Group>, code: Seq<char>)
    ensures
        -1 <= code_pos(gs, code) < gs.len(),
        code_pos(gs, code) >= 0 ==> gs[code_pos(gs, code)].invite_code@ == code,
    decreases gs.len(),
{
    if gs.len() > 0 && gs.last().invite_code@ != code {
        lemma_code_pos(gs.drop_last(), code);
        assert(forall|j: int| 0 <= j < gs.len() - 1 ==> gs.drop_last()[j] == gs[j]);
    }
}

proof fn lemma_filter_push<A>(s: Seq<A>, e: A, pred: spec_fn(A) -> bool)
    ensures
        s.push(e).filter(pred) == if pred(e) {
            s.filter(pred).push(e)
        } else {
            s.filter(pred)
        },
{
    reveal(Seq::filter);
    assert(s.push(e).drop_last() == s);
}

proof fn lemma_empty_filter<A>(pred: spec_fn(A) -> bool)
    ensures
        Seq::<A>::empty().filter(pred) == Seq::<A>::empty(),
{
    reveal(Seq::filter);
}

proof fn lemma_entry_push(s: Seq<CopyEntry>, e: CopyEntry)
    ensures
        group_entries(s.push(e)) == if e.item is Group {
            group_entries(s).push(e)
        } else {
            group_entries(s)
        },
        card_entries(s.push(e)) == if e.item is Card {
            card_entries(s).push(e)
        } else {
            card_entries(s)
        },
        forall|j: int|
            #[trigger] slot_items(s.push(e), j) == if e.slot == j {
                slot_items(s, j).push(e.item)
            } else {
                slot_items(s, j)
            },
{
    lemma_filter_push(s, e, |e: CopyEntry| e.item is Group);
    lemma_filter_push(s, e, |e: CopyEntry| e.item is Card);
    assert forall|j: int|
        #[trigger] slot_items(s.push(e), j) == if e.slot == j {
            slot_items(s, j).push(e.item)
        } else {
            slot_items(s, j)
        } by {
        let p = |x: CopyEntry| x.slot == j;
        lemma_filter_push(s, e, p);
        let f = |x: CopyEntry| x.item;
        assert(s.filter(p).push(e).map_values(f) == s.filter(p).map_values(f).push(e.item));
    }
}

proof fn lemma_before_step(entries: Seq<CopyEntry>, i: int)
    requires
        0 <= i < entries.len(),
    ensures
        groups_before(entries, i + 1) == groups_before(entries, i) + if entries[i].item is Group {
            1int
        } else {
            0int
        },
        cards_before(entries, i + 1) == cards_before(entries, i) + if entries[i].item is Card {
            1int
        } else {
            0int
        },
{
    assert(entries.subrange(0, i + 1) == entries.subrange(0, i).push(entries[i]));
    lemma_entry_push(entries.subrange(0, i), entries[i]);
}

proof fn lemma_partition(entries: Seq<CopyEntry>, i: int)
    requires
        0 <= i <= entries.len(),
    ensures
        groups_before(entries, i) + cards_before(entries, i) == i,
    decreases i,
{
    if i == 0 {
        lemma_empty_filter(|e: CopyEntry| e.item is Group);
        lemma_empty_filter(|e: CopyEntry| e.item is Card);
        assert(entries.subrange(0, 0) == Seq::<CopyEntry>::empty());
    } else {
        lemma_partition(entries, i - 1);
        lemma_before_step(entries, i - 1);
    }
}

proof fn lemma_before_monotone(entries: Seq<CopyEntry>, a: int, b: int)
    requires
        0 <= a <= b <= entries.len(),
    ensures
        groups_before(entries, a) <= groups_before(entries, b),
        cards_before(entries, a) <= cards_before(entries, b),
    decreases b - a,
{
    if a < b {
        lemma_before_step(entries, b - 1);
        lemma_before_monotone(entries, a, b - 1);
    }
}

/// During the expansion of group `kid`, every group listed since the round
/// began is a child of it, taken from the item at `from[a]`, before `t`.
spec fn round_ok(
    gs: Seq<Group>,
    kid: i32,
    items: Seq<GroupItems>,
    gids: Seq<i32>,
    par: Seq<int>,
    from: Seq<int>,
    round_start: int,
    nc: int,
    k: int,
    t: int,
) -> bool {
    forall|a: int|
        round_start <= a < gids.len() ==> {
            &&& #[trigger] par[a] == k
            &&& nc <= from[a] < t
            &&& items[from[a]] == GroupItems::Group(child_groups(gs, kid)[from[a] - nc])
            &&& child_groups(gs, kid)[from[a] - nc].id == gids[a]
        }
}

/// Ghost bookkeeping of a breadth-first walk down from `source`: every
/// listed group exists, and each one after the first is a child of an
/// earlier one, one level deeper.
spec fn climbs(
    gs: Seq<Group>,
    gids: Seq<i32>,
    par: Seq<int>,
    depth: Seq<nat>,
    source: i32,
) -> bool {
    &&& gids.len() >= 1
    &&& par.len() == gids.len()
    &&& depth.len() == gids.len()
    &&& gids[0] == source
    &&& depth[0] == 0
    &&& forall|a: int| 0 <= a < gids.len() ==> #[trigger] lookup_group(gs, gids[a]) is Some
    &&& forall|a: int|
        1 <= a < gids.len() ==> {
            &&& 0 <= #[trigger] par[a] < a
            &&& depth[a] == depth[par[a]] + 1
            &&& lookup_group(gs, gids[a])->0.group_id == Some(gids[par[a]])
        }
}

proof fn lemma_climb(
    gs: Seq<Group>,
    gids: Seq<i32>,
    par: Seq<int>,
    depth: Seq<nat>,
    source: i32,
    a: int,
    f: nat,
)
    requires
        climbs(gs, gids, par, depth, source),
        0 <= a < gids.len(),
    ensures
        ascend(gs, gids[a], f) == if f < depth[a] {
            Ascent::TooDeep
        } else {
            ascend(gs, source, (f - depth[a]) as nat)
        },
    decreases depth[a],
{
    if a != 0 {
        let p = par[a];
        assert(lookup_group(gs, gids[a]) is Some);
        if f > 0 {
            lemma_climb(gs, gids, par, depth, source, p, (f - 1) as nat);
        }
    }
}

proof fn lemma_cycle(
    gs: Seq<Group>,
    gids: Seq<i32>,
    par: Seq<int>,
    depth: Seq<nat>,
    source: i32,
    k: int,
    f: nat,
)
    requires
        climbs(gs, gids, par, depth, source),
        0 <= k < gids.len(),
        lookup_group(gs, source) is Some,
        lookup_group(gs, source)->0.group_id == Some(gids[k]),
    ensures
        ascend(gs, source, f) is TooDeep,
    decreases f,
{
    if f > 0 {
        lemma_climb(gs, gids, par, depth, source, k, (f - 1) as nat);
        if f - 1 >= depth[k] {
            lemma_cycle(gs, gids, par, depth, source, k, (f - 1 - depth[k]) as nat);
        }
    }
}

proof fn lemma_distinct_in_store(s: &Store, gids: Seq<i32>)
    requires
        s.wf(),
        gids.no_duplicates(),
        forall|a: int| 0 <= a < gids.len() ==> #[trigger] lookup_group(s.groups@, gids[a]) is Some,
    ensures
        gids.len() <= s.groups@.len(),
{
    let gs = s.groups@;
    let ps = Seq::new(gids.len(), |a: int| group_pos(gs, gids[a]));
    assert forall|a: int| 0 <= a < gids.len() implies 0 <= #[trigger] ps[a] < gs.len()
        && gs[ps[a]].id == gids[a] by {
        s.lemma_group_at(gids[a]);
        assert(lookup_group(gs, gids[a]) is Some);
    }
    assert forall|a: int, b: int| 0 <= a < ps.len() && 0 <= b < ps.len() && a != b implies ps[a]
        != ps[b] by {
        assert(gs[ps[a]].id == gids[a]);
        assert(gs[ps[b]].id == gids[b]);
    }
    assert(ps.no_duplicates());
    ps.unique_seq_to_set();
    lemma_int_range(0, gs.len() as int);
    assert(ps.to_set().subset_of(set_int_range(0, gs.len() as int)));
    lemma_len_subset(ps.to_set(), set_int_range(0, gs.len() as int));
}

proof fn lemma_filter_increasing(gs: Seq<Group>, pred: spec_fn(Group) -> bool)
    requires
        forall|i: int, j: int| 0 <= i < j < gs.len() ==> gs[i].id < gs[j].id,
    ensures
        forall|i: int, j: int|
            0 <= i < j < gs.filter(pred).len() ==> gs.filter(pred)[i].id < gs.filter(pred)[j].id,
        forall|i: int| 0 <= i < gs.filter(pred).len() ==> pred(#[trigger] gs.filter(pred)[i]),
        forall|i: int|
            #![trigger gs.filter(pred)[i]]
            0 <= i < gs.filter(pred).len() ==> exists|j: int|
                0 <= j < gs.len() && #[trigger] gs[j] == gs.filter(pred)[i],
    decreases gs.len(),
{
    reveal(Seq::filter);
    if gs.len() > 0 {
        let d = gs.drop_last();
        lemma_filter_increasing(d, pred);
        let fd = d.filter(pred);
        assert forall|i: int| 0 <= i < fd.len() implies #[trigger] fd[i].id < gs.last().id by {
            let j = choose|j: int| 0 <= j < d.len() && d[j] == fd[i];
            assert(gs[j] == d[j]);
        }
        assert forall|i: int| #![trigger fd[i]] 0 <= i < fd.len() implies exists|j: int|
            0 <= j < gs.len() && #[trigger] gs[j] == fd[i] by {
            let j = choose|j: int| 0 <= j < d.len() && d[j] == fd[i];
            assert(gs[j] == d[j]);
        }
        if pred(gs.last()) {
            assert(gs.filter(pred) == fd.push(gs.last()));
            assert(gs[gs.len() - 1] == gs.last());
        }
    }
}

proof fn lemma_child_groups_facts(s: &Store, id: i32)
    requires
        s.wf(),
    ensures
        forall|i: int, j: int|
            0 <= i < j < child_groups(s.groups@, id).len() ==> child_groups(s.groups@, id)[i].id
                < child_groups(s.groups@, id)[j].id,
        forall|i: int|
            0 <= i < child_groups(s.groups@, id).len() ==> {
                &&& #[trigger] child_groups(s.groups@, id)[i].group_id == Some(id)
                &&& lookup_group(s.groups@, child_groups(s.groups@, id)[i].id) == Some(
                    child_groups(s.groups@, id)[i],
                )
            },
{
    let gs = s.groups@;
    let pred = |g: Group| g.group_id == Some(id);
    assert(child_groups(gs, id) == gs.filter(pred));
    lemma_filter_increasing(gs, pred);
    let cg = child_groups(gs, id);
    assert forall|i: int| 0 <= i < cg.len() implies lookup_group(gs, cg[i].id) == Some(cg[i]) by {
        let j = choose|j: int| 0 <= j < gs.len() && #[trigger] gs[j] == cg[i];
        s.lemma_group_at(cg[i].id);
    }
}

impl Store {
    /// Lays out the subtree below `source` breadth first. A source whose walk
    /// up is cut off by the depth ceiling is refused; this covers every
    /// source that lies on a cycle of parent links, so the walk down never
    /// meets the source again and lists each group once.
    #[verifier::spinoff_prover]
    pub fn layout_subtree(&self, source: i32) -> (r: Result<(Vec<i32>, Vec<CopyEntry>), TreeError>)
        requires
            self.wf(),
        ensures
            r matches Ok((gids, entries)) ==> is_layout(
                self.groups@,
                self.cards@,
                source,
                gids@,
                entries@,
            ),
            r matches Err(e) ==> e == if lookup_group(self.groups@, source) is None {
                TreeError::NotFound
            } else {
                TreeError::DepthExceeded
            },
            lookup_group(self.groups@, source) is None ==> r is Err,
            r == Err::<(Vec<i32>, Vec<CopyEntry>), TreeError>(TreeError::DepthExceeded) <==> lookup_group(
                self.groups@,
                source,
            ) is Some && root_of(self.groups@, source) is TooDeep,
            r matches Ok((gids, entries)) ==> {
                &&& group_entries(entries@).len() + 1 == gids@.len()
                &&& child_groups(self.groups@, source).len() == 0 ==> group_entries(entries@).len()
                    == 0 && card_entries(entries@).len() == child_cards(self.cards@, source).len()
                &&& child_groups(self.groups@, source).len() > 0 ==> group_entries(entries@).len() > 0
            },
    {
        let ghost gs = self.groups@;
        let ghost cs = self.cards@;
        let sidx = match self.group_index(source) {
            None => {
                return Err(TreeError::NotFound);
            },
            Some(i) => i,
        };
        if let Err(TreeError::DepthExceeded) = self.find_root(source) {
            return Err(TreeError::DepthExceeded);
        }
        let limit = self.groups.len();
        let mut gids: Vec<i32> = Vec::new();
        gids.push(source);
        let ghost mut par: Seq<int> = seq![0int];
        let ghost mut depth: Seq<nat> = seq![0nat];
        let ghost mut from: Seq<int> = seq![0int];
        let mut entries: Vec<CopyEntry> = Vec::new();
        proof {
            lemma_empty_filter(|e: CopyEntry| e.item is Group);
            assert forall|j: int| #[trigger] slot_items(entries@, j).len() == 0 by {
                lemma_empty_filter(|e: CopyEntry| e.slot == j);
            }
            assert(gids@.drop_first() =~= group_entries(entries@).map_values(
                |e: CopyEntry| entry_id(e),
            ));
            assert(lookup_group(gs, source) == Some(gs[sidx as int]));
            assert(climbs(gs, gids@, par, depth, source));
        }
        let mut k: usize = 0;
        while k < gids.len()
            invariant
                self.wf(),
                gs == self.groups@,
                cs == self.cards@,
                lookup_group(gs, source) is Some,
                limit == gs.len(),
                k <= gids@.len() <= limit,
                climbs(gs, gids@, par, depth, source),
                from.len() == gids@.len(),
                gids@.no_duplicates(),
                forall|a: int| 1 <= a < gids@.len() ==> #[trigger] par[a] < k,
                gids@.drop_first() == group_entries(entries@).map_values(|e: CopyEntry| entry_id(e)),
                forall|j: int| 0 <= j < k ==> #[trigger] slot_items(entries@, j) == items_of(gs, cs, gids@[j]),
                forall|j: int| j >= k ==> #[trigger] slot_items(entries@, j).len() == 0,
                forall|i: int|
                    0 <= i < entries@.len() ==> #[trigger] entries@[i].slot < 1 + groups_before(
                        entries@,
                        i,
                    ),
                forall|i: int| 0 <= i < entries@.len() ==> #[trigger] entries@[i].slot < k,
                !(root_of(gs, source) is TooDeep),
                k == 0 ==> entries@.len() == 0 && gids@.len() == 1,
                k >= 1 ==> gids@.len() >= 1 + child_groups(gs, source).len(),
                child_groups(gs, source).len() == 0 && k >= 1 ==> gids@.len() == 1 && entries@.len()
                    == items_of(gs, cs, source).len(),
            decreases limit - k,
        {
            let items = self.get_all_objects(gids[k]);
            let ghost round_start = gids@.len();
            let ghost kid = gids@[k as int];
            let ghost nc = child_cards(cs, gids@[k as int]).len();
            let ghost round_entries = entries@.len();
            proof {
                lemma_child_groups_facts(self, gids@[k as int]);
            }
            let mut t: usize = 0;
            assert(slot_items(entries@, k as int) =~= items@.subrange(0, 0));
            proof {
                let cm = child_cards(cs, kid).map_values(|c: Card| GroupItems::Card(c));
                let gm = child_groups(gs, kid).map_values(|g: Group| GroupItems::Group(g));
                assert(items@ == cm + gm);
                assert forall|u: int| nc <= u < items@.len() implies #[trigger] items@[u]
                    == GroupItems::Group(child_groups(gs, kid)[u - nc]) by {
                    assert(items@[u] == gm[u - nc]);
                }
                assert forall|u: int| 0 <= u < nc implies #[trigger] items@[u] is Card by {
                    assert(items@[u] == cm[u]);
                }
            }
            while t < items.len()
                invariant
                    self.wf(),
                    gs == self.groups@,
                    cs == self.cards@,
                    lookup_group(gs, source) is Some,
                    limit == gs.len(),
                    k < round_start <= gids@.len() <= limit,
                    t <= items@.len(),
                    kid == gids@[k as int],
                    items@ == items_of(gs, cs, kid),
                    nc == child_cards(cs, kid).len(),
                    climbs(gs, gids@, par, depth, source),
                    gids@.no_duplicates(),
                    forall|a: int| 1 <= a < round_start ==> #[trigger] par[a] < k,
                    from.len() == gids@.len(),
                    round_ok(
                        gs,
                        kid,
                        items@,
                        gids@,
                        par,
                        from,
                        round_start as int,
                        nc as int,
                        k as int,
                        t as int,
                    ),
                    forall|i: int, j: int|
                        0 <= i < j < child_groups(gs, kid).len() ==> child_groups(
                            gs,
                            gids@[k as int],
                        )[i].id < child_groups(gs, kid)[j].id,
                    forall|i: int|
                        0 <= i < child_groups(gs, kid).len() ==> {
                            &&& #[trigger] child_groups(gs, kid)[i].group_id == Some(
                                gids@[k as int],
                            )
                            &&& lookup_group(gs, child_groups(gs, kid)[i].id) == Some(
                                child_groups(gs, kid)[i],
                            )
                        },
                    gids@.drop_first() == group_entries(entries@).map_values(
                        |e: CopyEntry| entry_id(e),
                    ),
                    forall|j: int|
                        0 <= j < k ==> #[trigger] slot_items(entries@, j) == items_of(gs, cs, gids@[j]),
                    slot_items(entries@, k as int) == items@.subrange(0, t as int),
                    forall|j: int| j > k ==> #[trigger] slot_items(entries@, j).len() == 0,
                    forall|i: int|
                        0 <= i < entries@.len() ==> #[trigger] entries@[i].slot < 1 + groups_before(
                            entries@,
                            i,
                        ),
                    forall|i: int| 0 <= i < entries@.len() ==> #[trigger] entries@[i].slot <= k,
                    !(root_of(gs, source) is TooDeep),
                    items@.len() == nc + child_groups(gs, kid).len(),
                    forall|u: int| nc <= u < items@.len() ==> #[trigger] items@[u] == GroupItems::Group(
                        child_groups(gs, kid)[u - nc],
                    ),
                    forall|u: int| 0 <= u < nc ==> #[trigger] items@[u] is Card,
                    gids@.len() == round_start + if t >= nc {
                        t - nc
                    } else {
                        0int
                    },
                    entries@.len() == round_entries + t,
                    k == 0 ==> round_start == 1 && round_entries == 0 && kid == source,
                    k >= 1 ==> round_start >= 1 + child_groups(gs, source).len(),
                    child_groups(gs, source).len() == 0 ==> k == 0,
                decreases items@.len() - t,
            {
                let item = match &items[t] {
                    GroupItems::Card(c) => GroupItems::Card(c.cloned()),
                    GroupItems::Group(g) => GroupItems::Group(g.cloned()),
                };
                let e = CopyEntry { slot: k, item };
                let ghost before = entries@;
                let ghost gids_before = gids@;
                let ghost par_before = par;
                let ghost from_before = from;
                if let GroupItems::Group(g) = &e.item {
                    let ghost cg = child_groups(gs, kid);
                    proof {
                        if (t as int) < nc {
                            assert(items@[t as int] is Card);
                        }
                        assert(items@[t as int] == GroupItems::Group(cg[t - nc]));
                        assert(*g == cg[t - nc]);
                    }
                    if g.id == source {
                        proof {
                            lemma_cycle(gs, gids@, par, depth, source, k as int, MAX_DEPTH as nat);
                        }
                        return Err(TreeError::DepthExceeded);
                    }
                    proof {
                        assert forall|a: int| 0 <= a < gids_before.len() implies gids_before[a]
                            != g.id by {
                            if a == 0 {
                            } else if a >= round_start {
                                assert(par[a] == k);
                                let u = from[a];
                                assert(nc <= u < t && cg[u - nc].id == gids_before[a]);
                                assert(cg[u - nc].id < cg[t - nc].id);
                            } else {
                                assert(lookup_group(gs, gids_before[a])->0.group_id == Some(
                                    gids_before[par[a]],
                                ));
                                if gids_before[a] == g.id {
                                    assert(gids_before[par[a]] == gids_before[k as int]);
                                }
                            }
                        }
                        lemma_distinct_in_store(self, gids_before);
                    }
                    gids.push(g.id);
                    proof {
                        par = par.push(k as int);
                        depth = depth.push(depth[k as int] + 1);
                        from = from.push(t as int);
                        assert(gids@ == gids_before.push(g.id));
                        assert forall|a: int| 0 <= a < gids@.len() implies #[trigger] lookup_group(
                            gs,
                            gids@[a],
                        ) is Some by {
                            if a < gids_before.len() {
                                assert(gids@[a] == gids_before[a]);
                            }
                        }
                        assert(climbs(gs, gids@, par, depth, source));
                        assert(gids@.no_duplicates());
                        lemma_distinct_in_store(self, gids@);
                        assert(nc <= t && items@[t as int] == GroupItems::Group(cg[t - nc]));
                    }
                }
                assert(gids@ == gids_before && par == par_before || {
                    &&& gids@ == gids_before.push(child_groups(gs, kid)[t - nc].id)
                    &&& par == par_before.push(k as int)
                    &&& from == from_before.push(t as int)
                    &&& nc <= t
                    &&& items@[t as int] == GroupItems::Group(child_groups(gs, kid)[t - nc])
                });
                entries.push(e);
                proof {
                    lemma_entry_push(before, e);
                    assert(entries@ == before.push(e));
                    assert(entries@.subrange(0, before.len() as int) == before);
                    assert forall|i: int|
                        0 <= i < entries@.len() implies #[trigger] entries@[i].slot < 1
                        + groups_before(entries@, i) by {
                        if i < before.len() {
                            assert(entries@.subrange(0, i) == before.subrange(0, i));
                        } else {
                            assert(entries@.subrange(0, i) == before);
                            assert(group_entries(before).map_values(|e: CopyEntry| entry_id(e)).len()
                                == group_entries(before).len());
                        }
                    }
                    let f = |e: CopyEntry| entry_id(e);
                    if e.item is Group {
                        assert(group_entries(before).push(e).map_values(f) == group_entries(
                            before,
                        ).map_values(f).push(entry_id(e)));
                    }
                    assert(gids@.drop_first() == group_entries(entries@).map_values(f));
                    assert(items@.subrange(0, t as int).push(items@[t as int]) == items@.subrange(
                        0,
                        t + 1,
                    ));
                    assert forall|a: int| round_start <= a < gids@.len() implies #[trigger] par[a] == k
                        && nc <= from[a] && from[a] < t + 1 && items@[from[a]] == GroupItems::Group(
                        child_groups(gs, kid)[from[a] - nc],
                    ) && child_groups(gs, kid)[from[a] - nc].id == gids@[a] by {
                        if a < gids_before.len() {
                            assert(round_ok(
                                gs,
                                kid,
                                items@,
                                gids_before,
                                par_before,
                                from_before,
                                round_start as int,
                                nc as int,
                                k as int,
                                t as int,
                            ));
                            assert(par_before[a] == k);
                            assert(par[a] == par_before[a]);
                            assert(from[a] == from_before[a]);
                            assert(gids@[a] == gids_before[a]);
                        } else {
                            assert(par[a] == k);
                            assert(from[a] == t);
                        }
                    }
                    assert(round_ok(
                        gs,
                        kid,
                        items@,
                        gids@,
                        par,
                        from,
                        round_start as int,
                        nc as int,
                        k as int,
                        t + 1,
                    ));
                }
                t = t + 1;
            }
            assert(items@.subrange(0, t as int) == items@);
            k = k + 1;
        }
        proof {
            let n = entries@.len() as int;
            lemma_partition(entries@, n);
            assert(entries@.subrange(0, n) == entries@);
            assert(group_entries(entries@).map_values(|e: CopyEntry| entry_id(e)).len()
                == group_entries(entries@).len());
            assert(gids@.drop_first().len() == gids@.len() - 1);
            assert(items_of(gs, cs, source).len() == child_cards(cs, source).len() + child_groups(
                gs,
                source,
            ).len());
        }
        Ok((gids, entries))
    }

    /// Writes `entries` below the existing group `top`: slot 0 stands for
    /// `top`, and each group entry's slot for the group written for it.
    /// Either every entry is written, or nothing is and the stores are as
    /// they were.
    fn write_layout(&mut self, top: i32, entries: &Vec<CopyEntry>) -> (r: Result<
        Vec<i32>,
        TreeError,
    >)
        requires
            old(self).wf(),
            top < old(self).next_group_id,
            forall|i: int|
                0 <= i < entries@.len() ==> #[trigger] entries@[i].slot < 1 + groups_before(
                    entries@,
                    i,
                ),
        ensures
            final(self).wf(),
            final(self).owners == old(self).owners,
            match r {
                Ok(targets) => {
                    &&& targets@[0] == top
                    &&& written(
                        old(self).groups@,
                        final(self).groups@,
                        old(self).cards@,
                        final(self).cards@,
                        targets@,
                        entries@,
                    )
                    &&& forall|k: int|
                        old(self).groups@.len() <= k < final(self).groups@.len()
                            ==> #[trigger] final(self).groups@[k].id >= old(self).next_group_id
                },
                Err(e) => {
                    &&& e == TreeError::StorageFailure
                    &&& final(self).groups@ == old(self).groups@
                    &&& final(self).cards@ == old(self).cards@
                },
            },
            r is Ok ==> old(self).next_card_id + card_entries(entries@).len() <= i32::MAX
                && old(self).next_group_id + group_entries(entries@).len() <= i32::MAX,
            group_entries(entries@).len() == 0 && old(self).next_card_id + card_entries(
                entries@,
            ).len() <= i32::MAX ==> r is Ok,
    {
        let ghost gs0 = self.groups@;
        let ghost cs0 = self.cards@;
        let glen = self.groups.len();
        let clen = self.cards.len();
        let next_group = self.next_group_id;
        let next_card = self.next_card_id;
        let mut targets: Vec<i32> = Vec::new();
        targets.push(top);
        let mut i: usize = 0;
        proof {
            lemma_empty_filter(|e: CopyEntry| e.item is Group);
            lemma_empty_filter(|e: CopyEntry| e.item is Card);
            assert(entries@.subrange(0, 0) == Seq::<CopyEntry>::empty());
            assert(self.groups@.subrange(0, glen as int) == gs0);
            assert(self.cards@.subrange(0, clen as int) == cs0);
        }
        while i < entries.len()
            invariant
                self.wf(),
                self.owners == old(self).owners,
                gs0 == old(self).groups@,
                cs0 == old(self).cards@,
                glen == gs0.len(),
                clen == cs0.len(),
                next_group == old(self).next_group_id,
                next_card == old(self).next_card_id,
                old(self).wf(),
                forall|k: int|
                    0 <= k < entries@.len() ==> #[trigger] entries@[k].slot < 1 + groups_before(
                        entries@,
                        k,
                    ),
                i <= entries@.len(),
                targets@.len() == 1 + groups_before(entries@, i as int),
                targets@[0] == top,
                forall|t: int| 0 <= t < targets@.len() ==> #[trigger] targets@[t] < self.next_group_id,
                self.groups@.len() == glen + groups_before(entries@, i as int),
                self.cards@.len() == clen + cards_before(entries@, i as int),
                self.groups@.subrange(0, glen as int) == gs0,
                self.cards@.subrange(0, clen as int) == cs0,
                forall|k: int|
                    0 <= k < i ==> #[trigger] entry_written(
                        glen as int,
                        self.groups@,
                        clen as int,
                        self.cards@,
                        targets@,
                        entries@,
                        k,
                    ),
                forall|k: int|
                    glen <= k < self.groups@.len() ==> #[trigger] self.groups@[k].id >= next_group,
                self.next_group_id >= next_group,
                self.next_group_id == next_group + groups_before(entries@, i as int),
                self.next_card_id == next_card + cards_before(entries@, i as int),
            decreases entries@.len() - i,
        {
            let ghost gs_prev = self.groups@;
            let ghost cs_prev = self.cards@;
            let ghost t_prev = targets@;
            proof {
                lemma_before_step(entries@, i as int);
            }
            let slot = entries[i].slot;
            let parent = targets[slot];
            let res = match &entries[i].item {
                GroupItems::Group(g) => {
                    let res = self.insert_group(g.title.clone(), Some(parent));
                    if let Ok(id) = res {
                        targets.push(id);
                    }
                    res
                },
                GroupItems::Card(c) => self.insert_card(
                    c.word.clone(),
                    c.translation.clone(),
                    parent,
                ),
            };
            if res.is_err() {
                proof {
                    let n = entries@.len() as int;
                    lemma_before_monotone(entries@, i + 1, n);
                    assert(entries@.subrange(0, n) == entries@);
                }
                self.groups.truncate(glen);
                self.cards.truncate(clen);
                self.next_group_id = next_group;
                self.next_card_id = next_card;
                return Err(TreeError::StorageFailure);
            }
            proof {
                assert(forall|k: int| 0 <= k < gs_prev.len() ==> self.groups@[k] == gs_prev[k]);
                assert(forall|k: int| 0 <= k < cs_prev.len() ==> self.cards@[k] == cs_prev[k]);
                assert(forall|k: int| 0 <= k < t_prev.len() ==> targets@[k] == t_prev[k]);
                assert(self.groups@.subrange(0, glen as int) =~= gs0);
                assert forall|k: int| glen <= k < self.groups@.len() implies #[trigger] self.groups@[
                    k].id >= next_group by {
                    if k < gs_prev.len() {
                        assert(gs_prev[k].id >= next_group);
                    }
                }
                assert(self.cards@.subrange(0, clen as int) =~= cs0);
                assert forall|k: int| 0 <= k <= i implies #[trigger] entry_written(
                    glen as int,
                    self.groups@,
                    clen as int,
                    self.cards@,
                    targets@,
                    entries@,
                    k,
                ) by {
                    if k == i {
                        assert(slot < t_prev.len());
                        assert(targets@[slot as int] == parent);
                        match entries@[k].item {
                            GroupItems::Group(g) => {
                                assert(self.groups@.len() == gs_prev.len() + 1);
                                assert(self.groups@[glen + groups_before(entries@, k)]
                                    == self.groups@.last());
                            },
                            GroupItems::Card(c) => {
                                assert(self.cards@.len() == cs_prev.len() + 1);
                                assert(self.cards@[clen + cards_before(entries@, k)]
                                    == self.cards@.last());
                            },
                        }
                    } else {
                        lemma_before_step(entries@, k);
                        lemma_before_monotone(entries@, k + 1, i as int);
                        assert(entry_written(
                            glen as int,
                            gs_prev,
                            clen as int,
                            cs_prev,
                            t_prev,
                            entries@,
                            k,
                        ));
                        assert(entries@[k].slot < 1 + groups_before(entries@, k));
                        lemma_before_monotone(entries@, k, i as int);
                    }
                }
            }
            i = i + 1;
        }
        proof {
            assert(entries@.subrange(0, i as int) == entries@);
        }
        Ok(targets)
    }

    /// The group that carries invite code `code`.
    pub fn find_group_by_invite_code(&self, code: &String) -> (r: Result<Group, TreeError>)
        ensures
            r == match lookup_code(self.groups@, code@) {
                Some(g) => Ok::<Group, TreeError>(g),
                None => Err(TreeError::NotFound),
            },
    {
        let mut i = self.groups.len();
        assert(self.groups@.subrange(0, i as int) == self.groups@);
        while i > 0
            invariant
                i <= self.groups@.len(),
                code_pos(self.groups@, code@) == code_pos(self.groups@.subrange(0, i as int), code@),
            decreases i,
        {
            proof {
                let s = self.groups@.subrange(0, i as int);
                assert(s.drop_last() == self.groups@.subrange(0, i - 1));
            }
            if self.groups[i - 1].invite_code == *code {
                return Ok(self.groups[i - 1].cloned());
            }
            i = i - 1;
        }
        Err(TreeError::NotFound)
    }

    /// Copies everything below group `orig_id` into the existing group
    /// `copy_id`: every card and group, at every level, gets a new copy with
    /// a new identifier, and every copied group a new invite code. The source
    /// is read in full before anything is written, so a copy into the
    /// source's own subtree copies the subtree as it stood. Either the whole
    /// copy is written or nothing is. `copy_refusal` says when the copy is
    /// refused before anything is written; otherwise it fails only when the
    /// store refuses a write.
    pub fn copy_items_recurive(&mut self, orig_id: i32, copy_id: i32) -> (r: Result<(), TreeError>)
        requires
            old(self).wf(),
        ensures
            final(self).wf(),
            final(self).owners == old(self).owners,
            r is Err ==> final(self).groups@ == old(self).groups@ && final(self).cards@ == old(
                self,
            ).cards@,
            match copy_refusal(old(self).groups@, orig_id, copy_id) {
                Some(e) => r == Err::<(), TreeError>(e),
                None => r is Ok || r == Err::<(), TreeError>(TreeError::StorageFailure),
            },
            copy_refusal(old(self).groups@, orig_id, copy_id) is None && child_groups(
                old(self).groups@,
                orig_id,
            ).len() == 0 ==> (r is Ok <==> old(self).next_card_id + child_cards(
                old(self).cards@,
                orig_id,
            ).len() <= i32::MAX),
            copy_refusal(old(self).groups@, orig_id, copy_id) is None && child_groups(
                old(self).groups@,
                orig_id,
            ).len() > 0 && old(self).next_group_id == i32::MAX ==> r == Err::<(), TreeError>(
                TreeError::StorageFailure,
            ),
            r is Ok ==> exists|gids: Seq<i32>, entries: Seq<CopyEntry>, targets: Seq<i32>|
                {
                    &&& is_layout(old(self).groups@, old(self).cards@, orig_id, gids, entries)
                    &&& targets[0] == copy_id
                    &&& written(
                        old(self).groups@,
                        final(self).groups@,
                        old(self).cards@,
                        final(self).cards@,
                        targets,
                        entries,
                    )
                    &&& fresh_groups(old(self).groups@, final(self).groups@, old(self).next_group_id)
                },
    {
        if self.group_index(copy_id).is_none() {
            return Err(TreeError::NotFound);
        }
        let (gids, entries) = self.layout_subtree(orig_id)?;
        proof {
            self.lemma_group_at(copy_id);
        }
        let targets = self.write_layout(copy_id, &entries)?;
        assert(is_layout(old(self).groups@, old(self).cards@, orig_id, gids@, entries@));
        assert(written(
            old(self).groups@,
            self.groups@,
            old(self).cards@,
            self.cards@,
            targets@,
            entries@,
        ));
        Ok(())
    }

    /// Copies group `source` itself, with everything below it, into group
    /// `dest`, and returns the id of the new copy of `source`. The copy of
    /// `source` keeps its title and gets a new id and invite code; below it
    /// the copy proceeds as `copy_items_recurive` does. Either the whole copy
    /// is written or nothing is.
    pub fn copy_subtree(&mut self, source: i32, dest: i32) -> (r: Result<i32, TreeError>)
        requires
            old(self).wf(),
        ensures
            final(self).wf(),
            final(self).owners == old(self).owners,
            r is Err ==> final(self).groups@ == old(self).groups@ && final(self).cards@ == old(
                self,
            ).cards@,
            match copy_refusal(old(self).groups@, source, dest) {
                Some(e) => r == Err::<i32, TreeError>(e),
                None => r is Ok || r == Err::<i32, TreeError>(TreeError::StorageFailure),
            },
            copy_refusal(old(self).groups@, source, dest) is None && old(self).next_group_id
                == i32::MAX ==> r == Err::<i32, TreeError>(TreeError::StorageFailure),
            r matches Ok(id) ==> exists|gids: Seq<i32>, entries: Seq<CopyEntry>, targets: Seq<i32>|
                #[trigger] is_layout(old(self).groups@, old(self).cards@, source, gids, entries)
                    && #[trigger] copied_below(
                    old(self).groups@,
                    final(self).groups@,
                    old(self).cards@,
                    final(self).cards@,
                    id,
                    lookup_group(old(self).groups@, source)->0.title@,
                    dest,
                    targets,
                    entries,
                    old(self).next_group_id,
                ),
    {
        let sidx = match self.group_index(source) {
            None => {
                return Err(TreeError::NotFound);
            },
            Some(i) => i,
        };
        if self.group_index(dest).is_none() {
            return Err(TreeError::NotFound);
        }
        let ghost gs0 = self.groups@;
        let ghost cs0 = self.cards@;
        let glen = self.groups.len();
        let (gids, entries) = self.layout_subtree(source)?;
        proof {
            self.lemma_group_at(dest);
            self.lemma_group_at(source);
        }
        let title = self.groups[sidx].title.clone();
        let top = self.insert_group(title, Some(dest))?;
        let ghost mid = self.groups@;
        let ghost next_mid = self.next_group_id;
        let targets = match self.write_layout(top, &entries) {
            Ok(t) => t,
            Err(e) => {
                self.groups.truncate(glen);
                self.next_group_id = top;
                assert(self.groups@ == mid.drop_last());
                return Err(e);
            },
        };
        proof {
            assert(self.groups@.subrange(0, gs0.len() as int + 1) == mid);
            assert forall|k: int| gs0.len() <= k < self.groups@.len() implies #[trigger] self.groups@[
                k].id >= old(self).next_group_id by {
                if k == gs0.len() {
                    assert(self.groups@[k] == mid[k]);
                }
            }
            assert(is_layout(gs0, cs0, source, gids@, entries@));
            assert(copied_below(
                gs0,
                self.groups@,
                cs0,
                self.cards@,
                top,
                gs0[sidx as int].title@,
                dest,
                targets@,
                entries@,
                old(self).next_group_id,
            ));
        }
        Ok(top)
    }

    /// Copies the group known by `req.invite_code`, with everything below
    /// it, into group `req.parent_id`, which `user_id` must own; returns the
    /// id of the new copy. Knowing the code is what grants reading the source.
    pub fn copy_group(&mut self, req: &CopyGroup, user_id: i32) -> (r: Result<i32, TreeError>)
        requires
            old(self).wf(),
        ensures
            final(self).wf(),
            final(self).owners == old(self).owners,
            r is Err ==> final(self).groups@ == old(self).groups@ && final(self).cards@ == old(
                self,
            ).cards@,
            r == Err::<i32, TreeError>(TreeError::Forbidden) <==> !owner_of(
                old(self).groups@,
                old(self).owners@,
                user_id,
                req.parent_id,
            ),
            r == Err::<i32, TreeError>(TreeError::NotFound) <==> owner_of(
                old(self).groups@,
                old(self).owners@,
                user_id,
                req.parent_id,
            ) && lookup_code(old(self).groups@, req.invite_code@) is None,
            owner_of(old(self).groups@, old(self).owners@, user_id, req.parent_id) ==> (lookup_code(
                old(self).groups@,
                req.invite_code@,
            ) matches Some(src) ==> match copy_refusal(old(self).groups@, src.id, req.parent_id) {
                Some(e) => r == Err::<i32, TreeError>(e),
                None => {
                    &&& r is Ok || r == Err::<i32, TreeError>(TreeError::StorageFailure)
                    &&& old(self).next_group_id == i32::MAX ==> r == Err::<i32, TreeError>(
                        TreeError::StorageFailure,
                    )
                },
            }),
            r matches Ok(id) ==> exists|gids: Seq<i32>, entries: Seq<CopyEntry>, targets: Seq<i32>|
                #[trigger] is_layout(
                    old(self).groups@,
                    old(self).cards@,
                    lookup_code(old(self).groups@, req.invite_code@)->0.id,
                    gids,
                    entries,
                ) && #[trigger] copied_below(
                    old(self).groups@,
                    final(self).groups@,
                    old(self).cards@,
                    final(self).cards@,
                    id,
                    lookup_code(old(self).groups@, req.invite_code@)->0.title@,
                    req.parent_id,
                    targets,
                    entries,
                    old(self).next_group_id,
                ),
    {
        if !self.user_is_owner_item(user_id, req.parent_id) {
            return Err(TreeError::Forbidden);
        }
        let src = self.find_group_by_invite_code(&req.invite_code)?;
        proof {
            lemma_code_pos(self.groups@, req.invite_code@);
            self.lemma_group_at(src.id);
            assert(lookup_group(self.groups@, src.id) == Some(src));
            assert(lookup_group(self.groups@, req.parent_id) is Some);
        }
        self.copy_subtree(src.id, req.parent_id)
    }
}

} // verus!

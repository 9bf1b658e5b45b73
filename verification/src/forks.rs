//! Filling a store with a tree of slots.

use vstd::prelude::*;
use crate::batch::ledger_sound;
use crate::blockstore::{Blockstore, BlockstoreView};
use crate::column::Column;
use crate::fixtures::{
    can_follow, create_ticks, entries_to_test_shreds, lemma_storable_allowed, test_shreds, ticks,
};
use crate::insert::{batch_inserted, unrepaired};
use crate::metrics::BlockstoreInsertionMetrics;
use crate::shred::shred_views;
use crate::types::{Blockhash, Slot};

verus! {

/// The tree type of the crate `trees`.
#[verifier::external_type_specification]
#[verifier::external_body]
#[verifier::reject_recursive_types(T)]
pub struct ExTree<T>(trees::Tree<T>);

/// The depth-first walk of the crate `trees`.
#[verifier::external_type_specification]
#[verifier::external_body]
#[verifier::reject_recursive_types(T)]
pub struct ExTreeWalk<T>(trees::TreeWalk<T>);

/// The nodes of a tree in the order in which a depth-first walk comes to them, each with its
/// parent. The walk comes to a node with children twice, before and after them.
pub uninterp spec fn tree_visits(forks: trees::Tree<u64>) -> Seq<(u64, Option<u64>)>;

/// The nodes that a walk has still to come to, from the one where it stands on.
pub uninterp spec fn walk_visits(walk: trees::TreeWalk<u64>) -> Seq<(u64, Option<u64>)>;

/// Calls `TreeWalk::from`. The walk stands at the root, and has all of the tree before it.
#[verifier::external_body]
fn start_walk(forks: trees::Tree<u64>) -> (result: trees::TreeWalk<u64>)
    ensures
        walk_visits(result) == tree_visits(forks),
{
    trees::TreeWalk::from(forks)
}

/// Calls `TreeWalk::get`. It gives the node where the walk stands, and none at its end.
#[verifier::external_body]
fn current_node(walk: &trees::TreeWalk<u64>) -> (result: Option<u64>)
    ensures
        result == if walk_visits(*walk).len() == 0 {
            None
        } else {
            Some(walk_visits(*walk)[0].0)
        },
{
    walk.get().map(|visit| *visit.node().data())
}

/// Calls `TreeWalk::get_parent`. It gives the parent of the node where the walk stands, and
/// none at the root.
#[verifier::external_body]
fn current_parent(walk: &trees::TreeWalk<u64>) -> (result: Option<u64>)
    requires
        walk_visits(*walk).len() > 0,
    ensures
        result == walk_visits(*walk)[0].1,
{
    walk.get_parent().map(|node| *node.data())
}

/// Calls `TreeWalk::forward`. The walk goes to the next node.
#[verifier::external_body]
fn go_forward(walk: &mut trees::TreeWalk<u64>)
    requires
        walk_visits(*old(walk)).len() > 0,
    ensures
        walk_visits(*final(walk)) == walk_visits(*old(walk)).drop_first(),
{
    walk.forward()
}

/// The parent that the shreds of a node name. The root names itself.
pub open spec fn node_parent(visit: (u64, Option<u64>)) -> Slot {
    match visit.1 {
        Some(parent) => parent,
        None => visit.0,
    }
}

/// How many ticks the slot of a node has: `num_ticks` for each slot that it stands for.
pub open spec fn node_ticks(visit: (u64, Option<u64>), num_ticks: u64) -> int {
    num_ticks * if visit.0 - node_parent(visit) < 1 {
        1
    } else {
        visit.0 - node_parent(visit)
    }
}

/// The slot of a node can follow that of its parent, and its ticks can be counted.
pub open spec fn node_fits(visit: (u64, Option<u64>), num_ticks: u64) -> bool {
    can_follow(visit.0, node_parent(visit)) && node_ticks(visit, num_ticks) <= u64::MAX
}

/// The state of a walk: the store, the last hash of each slot, and whether every slot so far
/// could be filled.
pub struct Growth {
    pub store: BlockstoreView,
    pub hashes: Map<u64, Blockhash>,
    pub succeeded: bool,
}

/// The slot of a node is there, and no orphan.
pub open spec fn node_known(store: BlockstoreView, slot: Slot) -> bool {
    store.ledger.meta.contains_key(slot) && !store.ledger.orphans.contains_key(slot)
}

/// The hash that the ticks of a node's slot end in: that of its parent.
pub open spec fn node_hash(
    hashes: Map<u64, Blockhash>,
    visit: (u64, Option<u64>),
    starting_hash: Blockhash,
) -> Blockhash {
    if visit.1 is Some && hashes.contains_key(visit.1->0) {
        hashes[visit.1->0]
    } else {
        starting_hash
    }
}

/// The walk comes to a node: its slot is filled with ticks, unless it is there, or the node is
/// the root of a tree of orphans. A slot that is not to be complete lacks its last tick. The
/// walk fails where the slot cannot follow that of its parent, or its ticks take too many shreds.
pub open spec fn growth_step(
    g: Growth,
    visit: (u64, Option<u64>),
    is_orphan: bool,
    is_slot_complete: bool,
    num_ticks: u64,
    starting_hash: Blockhash,
    now: u64,
) -> Growth {
    let hash = node_hash(g.hashes, visit, starting_hash);
    let n = if is_slot_complete {
        node_ticks(visit, num_ticks)
    } else {
        node_ticks(visit, num_ticks) - 1
    };
    if !g.succeeded || node_known(g.store, visit.0) || (visit.1 is None && is_orphan) {
        g
    } else if !node_fits(visit, num_ticks) {
        Growth { succeeded: false, ..g }
    } else {
        match test_shreds(
            ticks(n as nat, hash),
            visit.0,
            node_parent(visit),
            is_slot_complete,
            0,
        ) {
            None => Growth { succeeded: false, ..g },
            Some(shreds) => Growth {
                store: batch_inserted(
                    g.store,
                    shreds,
                    unrepaired(shreds.len()),
                    false,
                    now,
                    BlockstoreInsertionMetrics::zero(),
                    None,
                    false,
                ).0,
                hashes: g.hashes.insert(visit.0, hash),
                succeeded: true,
            },
        }
    }
}

/// The walk comes to some nodes, one after the other.
pub open spec fn growth(
    g: Growth,
    visits: Seq<(u64, Option<u64>)>,
    is_orphan: bool,
    is_slot_complete: bool,
    num_ticks: u64,
    starting_hash: Blockhash,
    now: u64,
) -> Growth
    decreases visits.len(),
{
    if visits.len() == 0 {
        g
    } else {
        growth(
            growth_step(
                g,
                visits[0],
                is_orphan,
                is_slot_complete,
                num_ticks,
                starting_hash,
                now,
            ),
            visits.drop_first(),
            is_orphan,
            is_slot_complete,
            num_ticks,
            starting_hash,
            now,
        )
    }
}

proof fn lemma_growth_failed(
    g: Growth,
    visits: Seq<(u64, Option<u64>)>,
    is_orphan: bool,
    is_slot_complete: bool,
    num_ticks: u64,
    starting_hash: Blockhash,
    now: u64,
)
    requires
        !g.succeeded,
    ensures
        growth(g, visits, is_orphan, is_slot_complete, num_ticks, starting_hash, now) == g,
    decreases visits.len(),
{
    if visits.len() > 0 {
        lemma_growth_failed(
            g,
            visits.drop_first(),
            is_orphan,
            is_slot_complete,
            num_ticks,
            starting_hash,
            now,
        );
    }
}

/// The nodes of a tree in the order of a depth-first walk, each with its parent.
fn walk_tree(forks: trees::Tree<u64>) -> (result: Vec<(u64, Option<u64>)>)
    ensures
        result@ == tree_visits(forks),
{
    let ghost all = tree_visits(forks);
    let mut walk = start_walk(forks);
    let mut visits: Vec<(u64, Option<u64>)> = Vec::new();
    assert(visits@ + walk_visits(walk) =~= all);
    loop
        invariant
            visits@ + walk_visits(walk) == all,
        ensures
            walk_visits(walk).len() == 0,
        decreases walk_visits(walk).len(),
    {
        let slot: u64 = match current_node(&walk) {
            Some(slot) => slot,
            None => {
                break;
            },
        };
        let ghost left = walk_visits(walk);
        let ghost so_far = visits@;
        let parent: Option<u64> = current_parent(&walk);
        visits.push((slot, parent));
        go_forward(&mut walk);
        assert(visits@ + walk_visits(walk) =~= so_far + left);
    }
    assert(visits@ =~= all);
    visits
}

impl Blockstore {
    /// Fills the slot of one node with ticks, unless it is there already or the node is the root
    /// of a tree of orphans, and notes the hash that the ticks end in. Returns whether the slot
    /// could be filled, where it had to be.
    fn add_node(
        &mut self,
        visit: (u64, Option<u64>),
        blockhashes: &mut Column<u64, Blockhash>,
        is_orphan: bool,
        is_slot_complete: bool,
        num_ticks: u64,
        starting_hash: Blockhash,
        now: u64,
    ) -> (result: bool)
        requires
            num_ticks > 0,
            ledger_sound(old(self)@.ledger),
        ensures
            (Growth { store: final(self)@, hashes: final(blockhashes)@, succeeded: result })
                == growth_step(
                (Growth { store: old(self)@, hashes: old(blockhashes)@, succeeded: true }),
                visit,
                is_orphan,
                is_slot_complete,
                num_ticks,
                starting_hash,
                now,
            ),
            ledger_sound(final(self)@.ledger),
    {
        let slot: u64 = visit.0;
        let parent: Option<u64> = visit.1;
        if self.ledger.meta.contains(&slot) && !self.ledger.orphans.contains(&slot) {
            return true;
        }
        if parent.is_none() && is_orphan {
            return true;
        }
        let parent_hash: Blockhash = match parent {
            Some(parent) => match blockhashes.get(&parent) {
                Some(hash) => *hash,
                None => starting_hash,
            },
            None => starting_hash,
        };
        let parent_slot: u64 = match parent {
            Some(parent) => parent,
            None => slot,
        };
        if parent_slot > slot || slot - parent_slot > u16::MAX as u64 {
            return false;
        }
        let spanned: u64 = if slot - parent_slot < 1 {
            1
        } else {
            slot - parent_slot
        };
        assert(num_ticks * spanned == node_ticks(visit, num_ticks));
        let total: u64 = match num_ticks.checked_mul(spanned) {
            Some(total) => total,
            None => {
                return false;
            },
        };
        assert(total >= 1) by (nonlinear_arith)
            requires
                num_ticks > 0,
                spanned >= 1,
                total == num_ticks * spanned,
        ;
        let count: u64 = if is_slot_complete {
            total
        } else {
            total - 1
        };
        let entries = create_ticks(count, parent_hash);
        match entries_to_test_shreds(&entries, slot, parent_slot, is_slot_complete, 0) {
            None => false,
            Some(shreds) => {
                proof {
                    lemma_storable_allowed(self@, shred_views(shreds@), now);
                }
                let _ = self.insert_unrepaired(shreds, false, now);
                blockhashes.put(slot, parent_hash);
                true
            },
        }
    }

    /// Fills the slots of the nodes of a tree, given in the order of a depth-first walk, with
    /// ticks: each slot that is not there yet, but for the root of a tree of orphans. Returns
    /// whether every slot could be filled; it stops at the first that could not.
    pub fn add_nodes(
        &mut self,
        visits: &Vec<(u64, Option<u64>)>,
        is_orphan: bool,
        is_slot_complete: bool,
        num_ticks: u64,
        starting_hash: Blockhash,
        now: u64,
    ) -> (result: bool)
        requires
            num_ticks > 0,
            ledger_sound(old(self)@.ledger),
        ensures
            ({
                let g = growth(
                    Growth { store: old(self)@, hashes: Map::empty(), succeeded: true },
                    visits@,
                    is_orphan,
                    is_slot_complete,
                    num_ticks,
                    starting_hash,
                    now,
                );
                final(self)@ == g.store && result == g.succeeded
            }),
            ledger_sound(final(self)@.ledger),
    {
        let ghost goal = growth(
            Growth { store: self@, hashes: Map::empty(), succeeded: true },
            visits@,
            is_orphan,
            is_slot_complete,
            num_ticks,
            starting_hash,
            now,
        );
        let mut blockhashes: Column<u64, Blockhash> = Column::new();
        let mut next: usize = 0;
        assert(visits@.skip(0) =~= visits@);
        while next < visits.len()
            invariant
                0 <= next <= visits@.len(),
                num_ticks > 0,
                ledger_sound(self@.ledger),
                goal == growth(
                    Growth { store: self@, hashes: blockhashes@, succeeded: true },
                    visits@.skip(next as int),
                    is_orphan,
                    is_slot_complete,
                    num_ticks,
                    starting_hash,
                    now,
                ),
                goal == growth(
                    Growth { store: old(self)@, hashes: Map::empty(), succeeded: true },
                    visits@,
                    is_orphan,
                    is_slot_complete,
                    num_ticks,
                    starting_hash,
                    now,
                ),
            decreases visits@.len() - next,
        {
            proof {
                let left = visits@.skip(next as int);
                assert(left[0] == visits@[next as int]);
                assert(left.drop_first() =~= visits@.skip(next + 1));
            }
            if !self.add_node(
                visits[next],
                &mut blockhashes,
                is_orphan,
                is_slot_complete,
                num_ticks,
                starting_hash,
                now,
            ) {
                proof {
                    lemma_growth_failed(
                        Growth { store: self@, hashes: blockhashes@, succeeded: false },
                        visits@.skip(next + 1),
                        is_orphan,
                        is_slot_complete,
                        num_ticks,
                        starting_hash,
                        now,
                    );
                }
                return false;
            }
            next += 1;
        }
        true
    }

    /// Fills the slots of a tree with ticks: each slot that is not there yet, but for the root
    /// of a tree of orphans. Returns whether every slot could be filled; it stops at the first
    /// that could not.
    pub fn add_tree(
        &mut self,
        forks: trees::Tree<u64>,
        is_orphan: bool,
        is_slot_complete: bool,
        num_ticks: u64,
        starting_hash: Blockhash,
        now: u64,
    ) -> (result: bool)
        requires
            num_ticks > 0,
            ledger_sound(old(self)@.ledger),
        ensures
            ({
                let g = growth(
                    Growth { store: old(self)@, hashes: Map::empty(), succeeded: true },
                    tree_visits(forks),
                    is_orphan,
                    is_slot_complete,
                    num_ticks,
                    starting_hash,
                    now,
                );
                final(self)@ == g.store && result == g.succeeded
            }),
            ledger_sound(final(self)@.ledger),
    {
        let visits = walk_tree(forks);
        self.add_nodes(
            &visits,
            is_orphan,
            is_slot_complete,
            num_ticks,
            starting_hash,
            now,
        )
    }
}

} // verus!

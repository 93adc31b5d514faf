//! Laws of the sampler and the evaluator, stated and proved once for every
//! catalog, drop list and generator state.

use vstd::prelude::*;

use crate::LootrV;
use crate::drops::Drop;
use crate::item::ItemV;
use crate::item::Modifier;
use crate::rng::RngState;
use crate::rng::rng_from_seed;
use crate::rng::rng_next;
use crate::roll::spec_batch;
use crate::roll::spec_drop_ok;
use crate::roll::spec_target;
use crate::roll::spec_copies;
use crate::roll::spec_loot;
use crate::roll::spec_pick;
use crate::roll::spec_pick_branches;
use crate::branch_index;
use crate::branch_value;
use crate::paths;

verus! {

/// Determinism: a loot evaluation is a function of the catalog value, the
/// drop list and the generator state, and a generator built from a seed is
/// a function of the seed alone — so two seeded evaluations with equal
/// catalogs, drops and seeds yield equal reward sequences.
pub proof fn lemma_loot_deterministic(
    t1: LootrV,
    t2: LootrV,
    drops1: Seq<Drop>,
    drops2: Seq<Drop>,
    seed1: u64,
    seed2: u64,
)
    requires
        t1 == t2,
        drops1 == drops2,
        seed1 == seed2,
    ensures
        spec_loot(t1, drops1, rng_from_seed(seed1)) == spec_loot(t2, drops2, rng_from_seed(seed2)),
{
}

/// Determinism of single rolls, in the same way.
pub proof fn lemma_roll_deterministic(
    t1: LootrV,
    t2: LootrV,
    nesting: int,
    threshold: int,
    seed1: u64,
    seed2: u64,
)
    requires
        t1 == t2,
        seed1 == seed2,
    ensures
        spec_pick(t1, nesting, threshold, rng_from_seed(seed1)) == spec_pick(
            t2,
            nesting,
            threshold,
            rng_from_seed(seed2),
        ),
{
}

/// How many copies a copy run produces: exactly the requested count.
pub proof fn lemma_copies_len(
    mods: Seq<Box<dyn Modifier>>,
    modify: bool,
    it: ItemV,
    cnt: int,
    s: RngState,
)
    ensures
        spec_copies(mods, modify, it, cnt, s).0.len() == if cnt <= 0 {
            0int
        } else {
            cnt
        },
    decreases cnt,
{
    if cnt > 0 {
        let one = if modify && mods.len() > 0 {
            let dm = rng_next(s, mods.len() as u64);
            (mods[(dm.0 as int) % (mods.len() as int)].transformed(it), dm.1)
        } else {
            (it, s)
        };
        lemma_copies_len(mods, modify, it, cnt - 1, one.1);
    }
}

/// Stack bounds: one drop contributes either nothing, or between
/// `stack_low` and `stack_high` copies inclusive, whatever the draws.
pub proof fn lemma_batch_stack_bounds(t: LootrV, d: Drop, s: RngState)
    requires
        d.stack_low <= d.stack_high,
    ensures
        spec_batch(t, d, s).0.len() == 0 || (d.stack_low <= spec_batch(t, d, s).0.len()
            <= d.stack_high),
{
    let p = spec_pick(spec_target(t, d.path).unwrap(), d.depth as int, d.luck as int, s);
    match p.0 {
        None => {},
        Some(it) => {
            let span = d.stack_high - d.stack_low + 1;
            let dk = rng_next(p.1, span as u64);
            let cnt = d.stack_low + (dk.0 as int) % span;
            assert(0 <= (dk.0 as int) % span < span);
            lemma_copies_len(t.modifiers, d.modify, it, cnt, dk.1);
        },
    }
}

/// The items a roll with depth budget `nesting` may reach: the level's own
/// items, and those of every branch within the remaining budget.
pub open spec fn items_within(t: LootrV, nesting: int) -> Seq<ItemV>
    decreases t,
{
    t.items + if nesting > 0 {
        branches_items_within(t.branches, nesting)
    } else {
        Seq::<ItemV>::empty()
    }
}

pub open spec fn branches_items_within(bs: Seq<(Seq<char>, LootrV)>, nesting: int) -> Seq<ItemV>
    decreases bs,
{
    if bs.len() == 0 {
        Seq::<ItemV>::empty()
    } else {
        items_within(bs[0].1, nesting - 1) + branches_items_within(bs.drop_first(), nesting)
    }
}

/// Depth bound, in its general form: whatever the draws, a pick only ever
/// returns an item reachable within the depth budget; with `nesting <= 0`
/// that means an item owned by the node itself.
pub proof fn lemma_pick_within(t: LootrV, nesting: int, threshold: int, s: RngState)
    ensures
        spec_pick(t, nesting, threshold, s).0 is Some ==> items_within(t, nesting).contains(
            spec_pick(t, nesting, threshold, s).0.unwrap(),
        ),
    decreases t, 1int,
{
    let step1 = if t.items.len() > 0 {
        let d1 = rng_next(s, t.items.len() as u64);
        let d2 = rng_next(d1.1, 100);
        if (d2.0 % 100) < threshold {
            (seq![t.items[(d1.0 as int) % (t.items.len() as int)]], d2.1)
        } else {
            (Seq::<ItemV>::empty(), d2.1)
        }
    } else {
        (Seq::<ItemV>::empty(), s)
    };
    assert forall|j: int| 0 <= j < step1.0.len() implies items_within(t, nesting).contains(
        step1.0[j],
    ) by {
        if t.items.len() > 0 {
            let d1 = rng_next(s, t.items.len() as u64);
            let idx = (d1.0 as int) % (t.items.len() as int);
            assert(0 <= idx < t.items.len());
            assert(items_within(t, nesting)[idx] == t.items[idx]);
        }
    }
    lemma_pick_branches_within(t.branches, nesting, threshold, step1.0, step1.1, t, nesting);
    let walked = spec_pick_branches(t.branches, nesting, threshold, step1.0, step1.1);
    if walked.0.len() > 0 {
        let d3 = rng_next(walked.1, walked.0.len() as u64);
        let idx = (d3.0 as int) % (walked.0.len() as int);
        assert(0 <= idx < walked.0.len());
    }
}

/// Every pool entry after the branch walk was in the pool before, or came
/// from a branch pick within the remaining budget.
proof fn lemma_pick_branches_within(
    bs: Seq<(Seq<char>, LootrV)>,
    nesting: int,
    threshold: int,
    bag: Seq<ItemV>,
    s: RngState,
    t: LootrV,
    tn: int,
)
    requires
        bs.len() <= t.branches.len(),
        forall|k: int| 0 <= k < bs.len() ==> bs[k] == t.branches[t.branches.len() - bs.len() + k],
        nesting == tn,
        forall|j: int|
            0 <= j < bag.len() ==> items_within(t, tn).contains(#[trigger] bag[j]),
    ensures
        forall|j: int|
            0 <= j < spec_pick_branches(bs, nesting, threshold, bag, s).0.len()
                ==> items_within(t, tn).contains(
                #[trigger] spec_pick_branches(bs, nesting, threshold, bag, s).0[j],
            ),
    decreases bs, 0int,
{
    if bs.len() > 0 {
        let dk = rng_next(s, 99);
        let nt = crate::roll::spec_decay(threshold, (dk.0 % 99) + 1);
        let stepped = if nesting > 0 {
            let sub = spec_pick(bs[0].1, nesting - 1, nt, dk.1);
            (
                match sub.0 {
                    Some(it) => bag.push(it),
                    None => bag,
                },
                sub.1,
            )
        } else {
            (bag, dk.1)
        };
        if nesting > 0 {
            let sub = spec_pick(bs[0].1, nesting - 1, nt, dk.1);
            if sub.0 is Some {
                lemma_pick_within(bs[0].1, nesting - 1, nt, dk.1);
                let ci = t.branches.len() - bs.len();
                assert(bs[0] == t.branches[ci]);
                lemma_within_member_lifts(t, tn, ci);
                assert(items_within(t, tn).contains(sub.0.unwrap()));
                assert(forall|j: int|
                    0 <= j < stepped.0.len() ==> items_within(t, tn).contains(
                        #[trigger] stepped.0[j],
                    ));
            }
        }
        assert(forall|k: int|
            0 <= k < bs.drop_first().len() ==> bs.drop_first()[k] == t.branches[t.branches.len()
                - bs.drop_first().len() + k]);
        lemma_pick_branches_within(bs.drop_first(), nesting, threshold, stepped.0, stepped.1, t, tn);
        let full = spec_pick_branches(bs, nesting, threshold, bag, s);
        let fullrest = spec_pick_branches(bs.drop_first(), nesting, threshold, stepped.0, stepped.1);
        assert(full == fullrest);
        assert forall|j: int| 0 <= j < full.0.len() implies items_within(t, tn).contains(
            #[trigger] full.0[j],
        ) by {
            assert(full.0[j] == fullrest.0[j]);
        }
    }
}

/// An item within a branch's budget is within the parent's.
proof fn lemma_within_member_lifts(t: LootrV, tn: int, ci: int)
    requires
        tn > 0,
        0 <= ci < t.branches.len(),
    ensures
        forall|x: ItemV|
            items_within(t.branches[ci].1, tn - 1).contains(x) ==> #[trigger] items_within(
                t,
                tn,
            ).contains(x),
{
    assert forall|x: ItemV| items_within(t.branches[ci].1, tn - 1).contains(x) implies items_within(
        t,
        tn,
    ).contains(x) by {
        lemma_branches_within_member(t.branches, tn, ci, x);
        let w = choose|w: int|
            0 <= w < branches_items_within(t.branches, tn).len() && #[trigger] branches_items_within(
                t.branches,
                tn,
            )[w] == x;
        assert(items_within(t, tn)[t.items.len() + w] == x);
    }
}

proof fn lemma_branches_within_member(
    bs: Seq<(Seq<char>, LootrV)>,
    nesting: int,
    ci: int,
    x: ItemV,
)
    requires
        0 <= ci < bs.len(),
        items_within(bs[ci].1, nesting - 1).contains(x),
    ensures
        branches_items_within(bs, nesting).contains(x),
    decreases bs,
{
    if ci == 0 {
        let w = choose|w: int|
            0 <= w < items_within(bs[0].1, nesting - 1).len() && #[trigger] items_within(
                bs[0].1,
                nesting - 1,
            )[w] == x;
        assert(branches_items_within(bs, nesting)[w] == x);
    } else {
        assert(bs.drop_first()[ci - 1] == bs[ci]);
        lemma_branches_within_member(bs.drop_first(), nesting, ci - 1, x);
        let w = choose|w: int|
            0 <= w < branches_items_within(bs.drop_first(), nesting).len()
                && #[trigger] branches_items_within(bs.drop_first(), nesting)[w] == x;
        assert(branches_items_within(bs, nesting)[items_within(bs[0].1, nesting - 1).len() + w]
            == x);
    }
}

/// Depth bound at zero: with no descent budget, only an item owned by the
/// node itself can ever be returned.
pub proof fn lemma_pick_depth_zero(t: LootrV, threshold: int, s: RngState)
    ensures
        spec_pick(t, 0, threshold, s).0 is Some ==> t.items.contains(
            spec_pick(t, 0, threshold, s).0.unwrap(),
        ),
{
    lemma_pick_within(t, 0, threshold, s);
    assert(items_within(t, 0) =~= t.items);
}

/// Empty-bag safety: when nothing is reachable within the budget, a roll
/// yields no item, whatever the draws.
pub proof fn lemma_pick_empty(t: LootrV, nesting: int, threshold: int, s: RngState)
    requires
        items_within(t, nesting).len() == 0,
    ensures
        spec_pick(t, nesting, threshold, s).0 is None,
{
    lemma_pick_within(t, nesting, threshold, s);
    if spec_pick(t, nesting, threshold, s).0 is Some {
        let x = spec_pick(t, nesting, threshold, s).0.unwrap();
        assert(items_within(t, nesting).contains(x));
    }
}

/// The branch walk never shrinks the pool.
proof fn lemma_pick_branches_grow(
    bs: Seq<(Seq<char>, LootrV)>,
    nesting: int,
    threshold: int,
    bag: Seq<ItemV>,
    s: RngState,
)
    ensures
        spec_pick_branches(bs, nesting, threshold, bag, s).0.len() >= bag.len(),
    decreases bs,
{
    if bs.len() > 0 {
        let dk = rng_next(s, 99);
        let nt = crate::roll::spec_decay(threshold, (dk.0 % 99) + 1);
        let stepped = if nesting > 0 {
            let sub = spec_pick(bs[0].1, nesting - 1, nt, dk.1);
            (
                match sub.0 {
                    Some(it) => bag.push(it),
                    None => bag,
                },
                sub.1,
            )
        } else {
            (bag, dk.1)
        };
        lemma_pick_branches_grow(bs.drop_first(), nesting, threshold, stepped.0, stepped.1);
    }
}

/// Certainty: a threshold of at least a hundred hundredths always admits
/// one of the node's own items, so a node that owns items always yields a
/// pick, whatever the draws.
pub proof fn lemma_pick_certain(t: LootrV, nesting: int, threshold: int, s: RngState)
    requires
        threshold >= 100,
        t.items.len() > 0,
    ensures
        spec_pick(t, nesting, threshold, s).0 is Some,
{
    let d1 = rng_next(s, t.items.len() as u64);
    let d2 = rng_next(d1.1, 100);
    assert(d2.0 % 100 < 100);
    let step1 = (seq![t.items[(d1.0 as int) % (t.items.len() as int)]], d2.1);
    lemma_pick_branches_grow(t.branches, nesting, threshold, step1.0, step1.1);
}

/// A certain drop pays out: with luck at full certainty, a target that
/// owns items, and a stack range starting at one or more, a drop always
/// contributes at least one copy, whatever the draws.
pub proof fn lemma_batch_certain(t: LootrV, d: Drop, s: RngState)
    requires
        d.stack_low <= d.stack_high,
        d.luck >= 100,
        spec_target(t, d.path).unwrap().items.len() > 0,
        d.stack_low >= 1,
    ensures
        spec_batch(t, d, s).0.len() >= d.stack_low,
{
    let target = spec_target(t, d.path).unwrap();
    lemma_pick_certain(target, d.depth as int, d.luck as int, s);
    let p = spec_pick(target, d.depth as int, d.luck as int, s);
    let it = p.0.unwrap();
    let span = d.stack_high - d.stack_low + 1;
    let dk = rng_next(p.1, span as u64);
    let cnt = d.stack_low + (dk.0 as int) % span;
    assert(0 <= (dk.0 as int) % span < span);
    lemma_copies_len(t.modifiers, d.modify, it, cnt, dk.1);
}

/// A batch of certain drops pays out at least one copy per drop.
pub proof fn lemma_loot_certain(t: LootrV, drops: Seq<Drop>, s: RngState)
    requires
        forall|q: int|
            0 <= q < drops.len() ==> spec_drop_ok(t, #[trigger] drops[q]) && drops[q].luck >= 100
                && spec_target(t, drops[q].path).unwrap().items.len() > 0 && drops[q].stack_low
                >= 1,
    ensures
        spec_loot(t, drops, s).0.len() >= drops.len(),
    decreases drops.len(),
{
    if drops.len() > 0 {
        lemma_batch_certain(t, drops[0], s);
        let b = spec_batch(t, drops[0], s);
        assert(forall|k: int| 0 <= k < drops.drop_first().len() ==> drops.drop_first()[k] == drops[k
            + 1]);
        lemma_loot_certain(t, drops.drop_first(), b.1);
    }
}

/// Two-tier precedence: when the whole trimmed path names a branch
/// directly, resolution returns that branch, never the segmented walk.
pub proof fn lemma_branch_direct_precedence(t: LootrV, path: Seq<char>)
    requires
        branch_index(t.branches, paths::trimmed(path)) >= 0,
    ensures
        t.branch_target(path) == branch_value(t.branches, paths::trimmed(path)),
        t.branch_target(path) is Some,
{
}

/// Modifier gating, negative half: a drop with `modify` unset yields plain
/// copies of the picked item, modifiers or not.
pub proof fn lemma_copies_unmodified(
    mods: Seq<Box<dyn Modifier>>,
    it: ItemV,
    cnt: int,
    s: RngState,
)
    ensures
        forall|j: int|
            0 <= j < spec_copies(mods, false, it, cnt, s).0.len() ==> #[trigger] spec_copies(
                mods,
                false,
                it,
                cnt,
                s,
            ).0[j] == it,
    decreases cnt,
{
    if cnt > 0 {
        lemma_copies_unmodified(mods, it, cnt - 1, s);
    }
}

/// Modifier gating, positive half: a drop with `modify` set, on a catalog
/// with registered modifiers, puts every copy through exactly one of them.
pub proof fn lemma_copies_modified(mods: Seq<Box<dyn Modifier>>, it: ItemV, cnt: int, s: RngState)
    requires
        mods.len() > 0,
    ensures
        forall|j: int|
            0 <= j < spec_copies(mods, true, it, cnt, s).0.len() ==> exists|m: int|
                0 <= m < mods.len() && #[trigger] spec_copies(mods, true, it, cnt, s).0[j]
                    == mods[m].transformed(it),
    decreases cnt,
{
    if cnt > 0 {
        let dm = rng_next(s, mods.len() as u64);
        let midx = (dm.0 as int) % (mods.len() as int);
        assert(0 <= midx < mods.len());
        lemma_copies_modified(mods, it, cnt - 1, dm.1);
        let full = spec_copies(mods, true, it, cnt, s).0;
        let rest = spec_copies(mods, true, it, cnt - 1, dm.1).0;
        assert(full[0] == mods[midx].transformed(it));
        assert forall|j: int| 0 <= j < full.len() implies exists|m: int|
            0 <= m < mods.len() && #[trigger] full[j] == mods[m].transformed(it) by {
            if j > 0 {
                assert(full[j] == rest[j - 1]);
            }
        }
    }
}

} // verus!

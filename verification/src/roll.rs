//! The weighted random sampler and the loot evaluator.
//!
//! A roll walks a branch tree: at each level it may include one of the
//! level's own items in a candidate pool, with a chance that decays per
//! visited branch, and in the end one candidate is picked uniformly. A loot
//! evaluation performs one roll per drop specification and resolves stack
//! counts and optional modifiers into a reward list.

use vstd::prelude::*;

use crate::Lootr;
use crate::LootrV;
use crate::LootRng;
use crate::drops::Drop;
use crate::item::Item;
use crate::item::ItemV;
use crate::item::Modifier;
use crate::rng::RngState;
use crate::views::node_view;
use crate::rng::rng_next;
use vstd::pervasive::unreached;

verus! {

broadcast use crate::views::group_node_views;

/// The luck after one visited branch: scaled by `decay` hundredths, rounded
/// to the nearest hundredth, capped at certainty.
pub open spec fn spec_decay(threshold: int, decay: int) -> int {
    let scaled = (threshold * decay + 50) / 100;
    if scaled > 100 {
        100
    } else {
        scaled
    }
}

/// One roll at one node: possibly one of its own items joins the pool, then
/// every branch is visited, then one pool entry wins. Returns the pick and
/// the generator state left behind.
pub open spec fn spec_pick(t: LootrV, nesting: int, threshold: int, s: RngState) -> (
    Option<ItemV>,
    RngState,
)
    decreases t,
{
    let step1 = if t.items.len() > 0 {
        let d1 = rng_next(s, t.items.len() as u64);
        let d2 = rng_next(d1.1, 100);
        if (d2.0 % 100) < threshold {
            (seq![t.items[(d1.0 as int) % (t.items.len() as int)]], d2.1)
        } else {
            (Seq::<ItemV>::empty(), d2.1)
        }
    } else {
        (Seq::<ItemV>::empty(), s)
    };
    let walked = spec_pick_branches(t.branches, nesting, threshold, step1.0, step1.1);
    if walked.0.len() == 0 {
        (None, walked.1)
    } else {
        let d3 = rng_next(walked.1, walked.0.len() as u64);
        (Some(walked.0[(d3.0 as int) % (walked.0.len() as int)]), d3.1)
    }
}

/// Visit each branch in order: one decay draw per branch, and a recursive
/// pick when the depth budget allows it, whose hit joins the pool.
pub open spec fn spec_pick_branches(
    bs: Seq<(Seq<char>, LootrV)>,
    nesting: int,
    threshold: int,
    bag: Seq<ItemV>,
    s: RngState,
) -> (Seq<ItemV>, RngState)
    decreases bs,
{
    if bs.len() == 0 {
        (bag, s)
    } else {
        let dk = rng_next(s, 99);
        let nt = spec_decay(threshold, (dk.0 % 99) + 1);
        let stepped = if nesting > 0 {
            let sub = spec_pick(bs[0].1, nesting - 1, nt, dk.1);
            (
                match sub.0 {
                    Some(it) => bag.push(it),
                    None => bag,
                },
                sub.1,
            )
        } else {
            (bag, dk.1)
        };
        spec_pick_branches(bs.drop_first(), nesting, threshold, stepped.0, stepped.1)
    }
}

proof fn lemma_mod_small(x: u64, m: int)
    requires
        1 <= m,
        x < m,
    ensures
        (x as int) % m == x,
{
    vstd::arithmetic::div_mod::lemma_small_mod(x as nat, m as nat);
}

/// Item values of a pool of borrowed items.
pub open spec fn views_of_refs(bag: Seq<&Item>) -> Seq<ItemV> {
    bag.map_values(|x: &Item| x@)
}

impl Lootr {
    /// One roll at this node, drawing from `rng`.
    fn random_pick<'a>(&'a self, nesting: i16, threshold: u32, rng: &mut LootRng) -> (r: Option<
        &'a Item,
    >)
        ensures
            ({
                let p = spec_pick(self@, nesting as int, threshold as int, old(rng)@);
                (match r {
                    None => p.0 is None,
                    Some(it) => p.0 == Some(it@),
                }) && final(rng)@ == p.1
            }),
        decreases *self,
    {
        let ghost s0 = rng@;
        let ghost p = spec_pick(self@, nesting as int, threshold as int, s0);
        let mut bag: Vec<&Item> = Vec::new();
        proof {
            assert(self@.items.len() == self.items@.len());
        }
        if self.items.len() > 0 {
            let d1 = rng.gen_index(self.items.len() as u64);
            let d2 = rng.gen_index(100);
            if d2 < threshold as u64 {
                proof {
                    assert(d1 < self@.items.len());
                    assert(self@.items[d1 as int] == self.items@[d1 as int]@);
                }
                bag.push(&self.items[d1 as usize]);
            }
        }
        let ghost step1bag = views_of_refs(bag@);
        let ghost s1 = rng@;
        proof {
            if self.items@.len() > 0 {
                let n64 = self@.items.len() as u64;
                assert(n64 == self@.items.len());
                let d1 = rng_next(s0, n64);
                let d2 = rng_next(d1.1, 100);
                assert(d1.0 < n64);
                lemma_mod_small(d1.0, self@.items.len() as int);
                assert(d2.0 % 100 == d2.0);
                if (d2.0 % 100) < threshold as int {
                    assert(step1bag =~= seq![
                        self@.items[(d1.0 % (self@.items.len() as u64)) as int],
                    ]);
                } else {
                    assert(step1bag =~= Seq::<ItemV>::empty());
                }
            } else {
                assert(step1bag =~= Seq::<ItemV>::empty());
            }
        }
        let mut k: usize = 0;
        let m = self.branchs.len();
        proof {
            assert(self@.branches.subrange(0, m as int) =~= self@.branches);
        }
        while k < m
            invariant
                0 <= k <= m,
                m == self.branchs@.len(),
                self@.branches.len() == m,
                spec_pick_branches(
                    self@.branches,
                    nesting as int,
                    threshold as int,
                    step1bag,
                    s1,
                ) == spec_pick_branches(
                    self@.branches.subrange(k as int, m as int),
                    nesting as int,
                    threshold as int,
                    views_of_refs(bag@),
                    rng@,
                ),
            decreases m - k,
        {
            let ghost rest = self@.branches.subrange(k as int, m as int);
            let ghost bag0 = views_of_refs(bag@);
            let ghost sk = rng@;
            let decay = rng.gen_index(99);
            let k64: u64 = decay + 1;
            proof {
                assert((threshold as u64) * k64 <= 0xFFFF_FFFFu64 * 99) by (nonlinear_arith)
                    requires
                        threshold as u64 <= 0xFFFF_FFFFu64,
                        1 <= k64 <= 99,
                ;
            }
            let nt64 = ((threshold as u64) * k64 + 50) / 100;
            let nt: u32 = if nt64 > 100 {
                100
            } else {
                nt64 as u32
            };
            proof {
                assert(rest[0] == self@.branches[k as int]);
                assert(nt as int == spec_decay(threshold as int, (rng_next(sk, 99).0 % 99) + 1));
            }
            if nesting > 0 {
                proof {
                    assert(decreases_to!(*self => self.branchs@[k as int].1));
                    assert(node_view(self.branchs@[k as int].1) == self@.branches[k as int].1);
                }
                match self.branchs[k].1.random_pick(nesting - 1, nt, rng) {
                    Some(it) => {
                        bag.push(it);
                        proof {
                            let sub = spec_pick(rest[0].1, nesting - 1, nt as int, rng_next(
                                sk,
                                99,
                            ).1);
                            assert(views_of_refs(bag@) =~= bag0.push(sub.0.unwrap()));
                        }
                    },
                    None => {},
                }
            }
            proof {
                assert(rest.drop_first() =~= self@.branches.subrange(k + 1 as int, m as int));
            }
            k += 1;
        }
        let ghost walked = spec_pick_branches(
            self@.branches,
            nesting as int,
            threshold as int,
            step1bag,
            s1,
        );
        proof {
            assert(self@.branches.subrange(m as int, m as int) =~= Seq::<(Seq<char>, LootrV)>::empty());
            assert(walked == (views_of_refs(bag@), rng@));
            assert(views_of_refs(bag@).len() == bag@.len());
        }
        if bag.len() == 0 {
            proof {
                assert(views_of_refs(bag@).len() == 0);
            }
            None
        } else {
            let d3 = rng.gen_index(bag.len() as u64);
            let picked = bag[d3 as usize];
            proof {
                lemma_mod_small(d3, views_of_refs(bag@).len() as int);
                assert(views_of_refs(bag@)[d3 as int] == picked@);
            }
            Some(picked)
        }
    }
}

/// The node a drop rolls on: the tree itself, or the resolved branch.
pub open spec fn spec_target(t: LootrV, path: Option<&str>) -> Option<LootrV> {
    match path {
        None => Some(t),
        Some(p) => t.branch_target(p@),
    }
}

/// What a drop asks of the catalog: a resolvable target and an ordered
/// stack range.
pub open spec fn spec_drop_ok(t: LootrV, d: Drop) -> bool {
    (match d.path {
        None => true,
        Some(p) => t.branch_ok(p@) && t.branch_target(p@) is Some,
    }) && d.stack_low <= d.stack_high
}

/// Item values of a sequence of owned items.
pub open spec fn views_of(s: Seq<Item>) -> Seq<ItemV> {
    s.map_values(|it: Item| it@)
}

/// The copies one hit produces: each copy is the picked item, or its image
/// under one uniformly drawn modifier when the drop asks for that.
pub open spec fn spec_copies(
    mods: Seq<Box<dyn Modifier>>,
    modify: bool,
    it: ItemV,
    cnt: int,
    s: RngState,
) -> (Seq<ItemV>, RngState)
    decreases cnt,
{
    if cnt <= 0 {
        (Seq::<ItemV>::empty(), s)
    } else {
        let one = if modify && mods.len() > 0 {
            let dm = rng_next(s, mods.len() as u64);
            (mods[(dm.0 as int) % (mods.len() as int)].transformed(it), dm.1)
        } else {
            (it, s)
        };
        let rest = spec_copies(mods, modify, it, cnt - 1, one.1);
        (seq![one.0] + rest.0, rest.1)
    }
}

/// What one drop adds to the rewards: nothing on a miss; on a hit, a
/// stack-draw many copies.
pub open spec fn spec_batch(t: LootrV, d: Drop, s: RngState) -> (Seq<ItemV>, RngState) {
    let p = spec_pick(spec_target(t, d.path).unwrap(), d.depth as int, d.luck as int, s);
    match p.0 {
        None => (Seq::<ItemV>::empty(), p.1),
        Some(it) => {
            let span = d.stack_high - d.stack_low + 1;
            let dk = rng_next(p.1, span as u64);
            let cnt = d.stack_low + (dk.0 as int) % span;
            spec_copies(t.modifiers, d.modify, it, cnt, dk.1)
        },
    }
}

/// A whole loot evaluation: drops in order, their batches concatenated.
pub open spec fn spec_loot(t: LootrV, drops: Seq<Drop>, s: RngState) -> (Seq<ItemV>, RngState)
    decreases drops.len(),
{
    if drops.len() == 0 {
        (Seq::<ItemV>::empty(), s)
    } else {
        let b = spec_batch(t, drops[0], s);
        let rest = spec_loot(t, drops.drop_first(), b.1);
        (b.0 + rest.0, rest.1)
    }
}

impl Lootr {
    /// Pick a random item from the branch at `catalog_path` (or this node),
    /// drawing from the given generator.
    pub fn roll_seeded<'a>(
        &'a self,
        catalog_path: Option<&str>,
        nesting: i16,
        threshold: u32,
        rng: &mut LootRng,
    ) -> (r: Option<&'a Item>)
        requires
            (match catalog_path {
                None => true,
                Some(p) => self@.branch_ok(p@) && self@.branch_target(p@) is Some,
            }),
        ensures
            ({
                let p = spec_pick(
                    spec_target(self@, catalog_path).unwrap(),
                    nesting as int,
                    threshold as int,
                    old(rng)@,
                );
                (match r {
                    None => p.0 is None,
                    Some(it) => p.0 == Some(it@),
                }) && final(rng)@ == p.1
            }),
    {
        let node = match catalog_path {
            None => self,
            Some(p) => match self.branch(p) {
                Some(b) => b,
                None => unreached(),
            },
        };
        proof {
            assert(node@ == spec_target(self@, catalog_path).unwrap());
        }
        node.random_pick(nesting, threshold, rng)
    }

    /// Pick a random item from the branch at `catalog_path` (or this node),
    /// drawing from a fresh, entropy-seeded generator.
    pub fn roll(&self, catalog_path: Option<&str>, nesting: i16, threshold: u32) -> (r: Option<
        &Item,
    >)
        requires
            (match catalog_path {
                None => true,
                Some(p) => self@.branch_ok(p@) && self@.branch_target(p@) is Some,
            }),
        ensures
            exists|s: RngState|
                #![trigger spec_pick(
                    spec_target(self@, catalog_path).unwrap(),
                    nesting as int,
                    threshold as int,
                    s,
                )]
                ({
                    let p = spec_pick(
                        spec_target(self@, catalog_path).unwrap(),
                        nesting as int,
                        threshold as int,
                        s,
                    );
                    match r {
                        None => p.0 is None,
                        Some(it) => p.0 == Some(it@),
                    }
                }),
            r is Some ==> crate::laws::items_within(
                spec_target(self@, catalog_path).unwrap(),
                nesting as int,
            ).contains(r.unwrap()@),
            crate::laws::items_within(spec_target(self@, catalog_path).unwrap(), nesting as int).len()
                == 0 ==> r is None,
            threshold >= 100 && spec_target(self@, catalog_path).unwrap().items.len() > 0
                ==> r is Some,
    {
        let mut rng = LootRng::from_entropy();
        let ghost s0 = rng@;
        let r = self.roll_seeded(catalog_path, nesting, threshold, &mut rng);
        proof {
            let target = spec_target(self@, catalog_path).unwrap();
            let p = spec_pick(target, nesting as int, threshold as int, s0);
            assert(match r {
                None => p.0 is None,
                Some(it) => p.0 == Some(it@),
            });
            crate::laws::lemma_pick_within(target, nesting as int, threshold as int, s0);
            if crate::laws::items_within(target, nesting as int).len() == 0 {
                crate::laws::lemma_pick_empty(target, nesting as int, threshold as int, s0);
            }
            if threshold >= 100 && target.items.len() > 0 {
                crate::laws::lemma_pick_certain(target, nesting as int, threshold as int, s0);
            }
        }
        r
    }

    /// Pick a random item anywhere in this node's subtree.
    pub fn roll_any(&self) -> (r: Option<&Item>)
        ensures
            exists|s: RngState|
                #![trigger spec_pick(self@, i16::MAX as int, 100int, s)]
                ({
                    let p = spec_pick(self@, i16::MAX as int, 100int, s);
                    match r {
                        None => p.0 is None,
                        Some(it) => p.0 == Some(it@),
                    }
                }),
            r is Some ==> crate::laws::items_within(self@, i16::MAX as int).contains(r.unwrap()@),
            crate::laws::items_within(self@, i16::MAX as int).len() == 0 ==> r is None,
            self@.items.len() > 0 ==> r is Some,
    {
        self.roll(None, i16::MAX, 100)
    }

    /// Evaluate a batch of drops into a reward list, drawing from the given
    /// generator. Two calls on equal catalogs, drops and generator states
    /// yield equal rewards.
    pub fn loot_seeded(&self, drops: &[Drop], rng: &mut LootRng) -> (r: Vec<Item>)
        requires
            forall|q: int| 0 <= q < drops@.len() ==> spec_drop_ok(self@, #[trigger] drops@[q]),
        ensures
            views_of(r@) == spec_loot(self@, drops@, old(rng)@).0,
            final(rng)@ == spec_loot(self@, drops@, old(rng)@).1,
    {
        let ghost s0 = rng@;
        let mut rewards: Vec<Item> = Vec::new();
        let n = drops.len();
        proof {
            assert(drops@.subrange(0, n as int) =~= drops@);
            assert(views_of(rewards@) =~= Seq::<ItemV>::empty());
            assert(views_of(rewards@) + spec_loot(self@, drops@, s0).0 =~= spec_loot(
                self@,
                drops@,
                s0,
            ).0);
        }
        let mut i: usize = 0;
        while i < n
            invariant
                0 <= i <= n,
                n == drops@.len(),
                forall|q: int| 0 <= q < drops@.len() ==> spec_drop_ok(self@, #[trigger] drops@[q]),
                spec_loot(self@, drops@, s0) == ({
                    let rem = spec_loot(self@, drops@.subrange(i as int, n as int), rng@);
                    (views_of(rewards@) + rem.0, rem.1)
                }),
            decreases n - i,
        {
            let ghost rest = drops@.subrange(i as int, n as int);
            let ghost si = rng@;
            let ghost rewards0 = views_of(rewards@);
            let d = drops[i];
            proof {
                assert(rest[0] == d);
                assert(rest.drop_first() =~= drops@.subrange(i + 1 as int, n as int));
            }
            let picked = self.roll_seeded(d.path, d.depth, d.luck, rng);
            match picked {
                None => {
                    proof {
                        let b = spec_batch(self@, d, si);
                        assert(b.0.len() == 0);
                        assert(rewards0 + (b.0 + spec_loot(self@, rest.drop_first(), b.1).0)
                            =~= rewards0 + spec_loot(self@, rest.drop_first(), b.1).0);
                    }
                },
                Some(item) => {
                    let citem = item.clone();
                    let span64: u64 = ((d.stack_high - d.stack_low) as u64) + 1;
                    let dk = rng.gen_index(span64);
                    let cnt: u32 = d.stack_low + (dk as u32);
                    let ghost itv = item@;
                    let ghost sc0 = rng@;
                    let ghost batchfull = spec_copies(
                        self@.modifiers,
                        d.modify,
                        itv,
                        cnt as int,
                        sc0,
                    );
                    proof {
                        lemma_mod_small(dk, span64 as int);
                        assert(spec_batch(self@, d, si) == batchfull);
                        assert(views_of(Seq::<Item>::empty()) =~= Seq::<ItemV>::empty());
                    }
                    let mut batch: Vec<Item> = Vec::new();
                    let mut c: u32 = 0;
                    proof {
                        assert(views_of(batch@) + spec_copies(
                            self@.modifiers,
                            d.modify,
                            itv,
                            cnt as int,
                            rng@,
                        ).0 =~= spec_copies(self@.modifiers, d.modify, itv, cnt as int, rng@).0);
                    }
                    while c < cnt
                        invariant
                            0 <= c <= cnt,
                            citem@ == itv,
                            batchfull == ({
                                let rem = spec_copies(
                                    self@.modifiers,
                                    d.modify,
                                    itv,
                                    cnt - c,
                                    rng@,
                                );
                                (views_of(batch@) + rem.0, rem.1)
                            }),
                        decreases cnt - c,
                    {
                        let ghost sk = rng@;
                        let ghost batch0 = views_of(batch@);
                        let copy = if d.modify && self.modifiers.len() > 0 {
                            let dm = rng.gen_index(self.modifiers.len() as u64);
                            proof {
                                lemma_mod_small(dm, self.modifiers@.len() as int);
                                assert(self@.modifiers[dm as int] == self.modifiers@[dm as int]);
                            }
                            self.modifiers[dm as usize].modify(citem.clone())
                        } else {
                            citem.clone()
                        };
                        batch.push(copy);
                        proof {
                            let rem = spec_copies(self@.modifiers, d.modify, itv, cnt - c, sk);
                            let one = if d.modify && self@.modifiers.len() > 0 {
                                let dm = rng_next(sk, self@.modifiers.len() as u64);
                                (
                                    self@.modifiers[(dm.0 % (self@.modifiers.len() as u64)) as int]
                                        .transformed(itv),
                                    dm.1,
                                )
                            } else {
                                (itv, sk)
                            };
                            assert(copy@ == one.0);
                            assert(views_of(batch@) =~= batch0.push(copy@));
                            assert(batch0 + (seq![one.0] + spec_copies(
                                self@.modifiers,
                                d.modify,
                                itv,
                                cnt - c - 1,
                                one.1,
                            ).0) =~= batch0.push(one.0) + spec_copies(
                                self@.modifiers,
                                d.modify,
                                itv,
                                cnt - c - 1,
                                one.1,
                            ).0);
                        }
                        c += 1;
                    }
                    proof {
                        assert(spec_copies(self@.modifiers, d.modify, itv, 0, rng@)
                            == (Seq::<ItemV>::empty(), rng@));
                        assert(views_of(batch@) + Seq::<ItemV>::empty() =~= views_of(batch@));
                        assert(batchfull == (views_of(batch@), rng@));
                    }
                    let ghost batchv = views_of(batch@);
                    let mut tail = batch;
                    rewards.append(&mut tail);
                    proof {
                        assert(views_of(rewards@) =~= rewards0 + batchv);
                        assert(rewards0 + (batchv + spec_loot(
                            self@,
                            rest.drop_first(),
                            rng@,
                        ).0) =~= (rewards0 + batchv) + spec_loot(self@, rest.drop_first(), rng@).0);
                    }
                },
            }
            i += 1;
        }
        proof {
            assert(drops@.subrange(n as int, n as int) =~= Seq::<Drop>::empty());
            assert(spec_loot(self@, drops@.subrange(n as int, n as int), rng@)
                == (Seq::<ItemV>::empty(), rng@));
            assert(views_of(rewards@) + Seq::<ItemV>::empty() =~= views_of(rewards@));
        }
        rewards
    }

    /// Evaluate a batch of drops into a reward list, drawing from a fresh,
    /// entropy-seeded generator.
    pub fn loot(&self, drops: &[Drop]) -> (r: Vec<Item>)
        requires
            forall|q: int| 0 <= q < drops@.len() ==> spec_drop_ok(self@, #[trigger] drops@[q]),
        ensures
            exists|s: RngState|
                #![trigger spec_loot(self@, drops@, s)]
                views_of(r@) == spec_loot(self@, drops@, s).0,
            (forall|q: int|
                0 <= q < drops@.len() ==> (#[trigger] drops@[q]).luck >= 100 && spec_target(
                    self@,
                    drops@[q].path,
                ).unwrap().items.len() > 0 && drops@[q].stack_low >= 1) ==> r@.len()
                >= drops@.len(),
    {
        let mut rng = LootRng::from_entropy();
        let ghost s0 = rng@;
        let r = self.loot_seeded(drops, &mut rng);
        proof {
            assert(views_of(r@) == spec_loot(self@, drops@, s0).0);
            assert(r@.len() == views_of(r@).len());
            if forall|q: int|
                0 <= q < drops@.len() ==> (#[trigger] drops@[q]).luck >= 100 && spec_target(
                    self@,
                    drops@[q].path,
                ).unwrap().items.len() > 0 && drops@[q].stack_low >= 1 {
                crate::laws::lemma_loot_certain(self@, drops@, s0);
            }
        }
        r
    }
}


} // verus!

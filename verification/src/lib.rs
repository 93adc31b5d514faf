//! A loot-table sampling engine.
//!
//! A [`Lootr`] is a tree of weighted items organized into named branches.
//! Items are picked pseudo-randomly under a per-request policy: a target
//! branch, a maximum descent depth, an inclusion chance that decays per
//! level, a stack-count range and an optional transformation step.

use vstd::prelude::*;

pub mod drops;
pub mod item;
pub mod paths;
mod render;
pub mod laws;
pub mod roll;
pub mod rng;
mod views;

pub use crate::item::Item;
pub use crate::item::Modifier;
pub use crate::rng::LootRng;
pub use crate::views::Lootr;
pub use crate::views::LootrV;

use crate::item::ItemV;
use crate::item::str_eq;
use crate::views::branches_view;
use crate::views::node_view;
use vstd::pervasive::unreached;

verus! {

broadcast use crate::views::group_node_views;

/// The path to the current node: no descent at all.
pub const ROOT: Option<&'static str> = None;

/// First index carrying `name`, or `-1` when no branch matches.
pub open spec fn branch_index(bs: Seq<(Seq<char>, LootrV)>, name: Seq<char>) -> int
    decreases bs.len(),
{
    if bs.len() == 0 {
        -1
    } else if bs[0].0 == name {
        0
    } else {
        let r = branch_index(bs.drop_first(), name);
        if r < 0 {
            -1
        } else {
            1 + r
        }
    }
}

/// The subtree under `name`, going by the first matching branch.
pub open spec fn branch_value(bs: Seq<(Seq<char>, LootrV)>, name: Seq<char>) -> Option<LootrV> {
    if branch_index(bs, name) < 0 {
        None
    } else {
        Some(bs[branch_index(bs, name)].1)
    }
}

proof fn lemma_branch_index_at(bs: Seq<(Seq<char>, LootrV)>, name: Seq<char>, i: int)
    requires
        0 <= i < bs.len(),
        bs[i].0 == name,
        forall|k: int| 0 <= k < i ==> bs[k].0 != name,
    ensures
        branch_index(bs, name) == i,
    decreases i,
{
    if i > 0 {
        assert(forall|k: int| 0 <= k < i - 1 ==> bs.drop_first()[k] == bs[k + 1]);
        lemma_branch_index_at(bs.drop_first(), name, i - 1);
    }
}

proof fn lemma_branch_index_none(bs: Seq<(Seq<char>, LootrV)>, name: Seq<char>)
    requires
        forall|k: int| 0 <= k < bs.len() ==> bs[k].0 != name,
    ensures
        branch_index(bs, name) == -1,
    decreases bs.len(),
{
    if bs.len() > 0 {
        assert(forall|k: int| 0 <= k < bs.len() - 1 ==> bs.drop_first()[k] == bs[k + 1]);
        lemma_branch_index_none(bs.drop_first(), name);
    }
}

/// Each branch name appears at most once.
pub open spec fn unique_branch_names(bs: Seq<(Seq<char>, LootrV)>) -> bool {
    forall|i: int, j: int| 0 <= i < j < bs.len() ==> bs[i].0 != bs[j].0
}

impl LootrV {
    /// Branch names are unique at every level, so path lookups are
    /// unambiguous.
    pub open spec fn wf(self) -> bool
        decreases self,
    {
        unique_branch_names(self.branches) && (forall|i: int|
            0 <= i < self.branches.len() ==> (#[trigger] self.branches[i].1).wf())
    }

    /// Insert or replace the branch under `name`.
    pub open spec fn with_branch(self, name: Seq<char>, b: LootrV) -> LootrV {
        let i = branch_index(self.branches, name);
        LootrV {
            branches: if i < 0 {
                self.branches.push((name, b))
            } else {
                self.branches.update(i, (name, b))
            },
            ..self
        }
    }

    /// Follow `segs` as branch lookups, one level each.
    pub open spec fn descend(self, segs: Seq<Seq<char>>) -> Option<LootrV>
        decreases segs.len(),
    {
        if segs.len() == 0 {
            Some(self)
        } else {
            match branch_value(self.branches, segs[0]) {
                None => None,
                Some(c) => c.descend(segs.drop_first()),
            }
        }
    }

    /// The two-tier resolution: the whole trimmed path as a single branch
    /// name first, then the segment-by-segment walk.
    pub open spec fn branch_target(self, path: Seq<char>) -> Option<LootrV> {
        let t = paths::trimmed(path);
        if branch_index(self.branches, t) >= 0 {
            branch_value(self.branches, t)
        } else if !paths::has_sep(t) {
            None
        } else {
            self.descend(paths::split_path(t))
        }
    }

    /// The lookups that resolving `path` performs, one name per level.
    pub open spec fn branch_route(self, path: Seq<char>) -> Seq<Seq<char>> {
        let t = paths::trimmed(path);
        if branch_index(self.branches, t) >= 0 {
            seq![t]
        } else {
            paths::split_path(t)
        }
    }

    /// Resolving `path` stays clear of the fatal mid-walk case: either the
    /// whole name matches, or there is nothing to walk, or the walk succeeds.
    pub open spec fn branch_ok(self, path: Seq<char>) -> bool {
        let t = paths::trimmed(path);
        branch_index(self.branches, t) >= 0 || !paths::has_sep(t) || self.descend(
            paths::split_path(t),
        ) is Some
    }

    /// The tree with the node reached by `segs` replaced by `sub`.
    pub open spec fn replace_at(self, segs: Seq<Seq<char>>, sub: LootrV) -> LootrV
        decreases segs.len(),
    {
        if segs.len() == 0 {
            sub
        } else {
            let i = branch_index(self.branches, segs[0]);
            if i < 0 {
                self
            } else {
                LootrV {
                    branches: self.branches.update(
                        i,
                        (self.branches[i].0, self.branches[i].1.replace_at(segs.drop_first(), sub)),
                    ),
                    ..self
                }
            }
        }
    }
}

proof fn lemma_branch_index_bounds(bs: Seq<(Seq<char>, LootrV)>, name: Seq<char>)
    ensures
        -1 <= branch_index(bs, name) < bs.len(),
        branch_index(bs, name) >= 0 ==> bs[branch_index(bs, name)].0 == name,
    decreases bs.len(),
{
    if bs.len() > 0 && bs[0].0 != name {
        lemma_branch_index_bounds(bs.drop_first(), name);
    }
}

/// Replacing a subtree along a route keeps the catalog well-formed when the
/// new subtree is: branch names stay as they were, and every level stays
/// unique.
pub proof fn lemma_replace_at_wf(t: LootrV, segs: Seq<Seq<char>>, sub: LootrV)
    requires
        t.wf(),
        sub.wf(),
    ensures
        t.replace_at(segs, sub).wf(),
    decreases segs.len(),
{
    if segs.len() > 0 {
        lemma_branch_index_bounds(t.branches, segs[0]);
        let i = branch_index(t.branches, segs[0]);
        if i >= 0 {
            assert(t.branches[i].1.wf());
            lemma_replace_at_wf(t.branches[i].1, segs.drop_first(), sub);
            let r = t.replace_at(segs, sub);
            assert forall|a: int, b: int|
                0 <= a < b < r.branches.len() implies r.branches[a].0 != r.branches[b].0 by {
                assert(r.branches[a].0 == t.branches[a].0);
                assert(r.branches[b].0 == t.branches[b].0);
            }
            assert(forall|k: int|
                0 <= k < r.branches.len() ==> (#[trigger] r.branches[k].1).wf());
        }
    }
}

/// Items of the whole subtree: this level first, then each branch in order.
pub open spec fn spec_all_items(t: LootrV) -> Seq<ItemV>
    decreases t,
{
    t.items + spec_branches_items(t.branches)
}

pub open spec fn spec_branches_items(bs: Seq<(Seq<char>, LootrV)>) -> Seq<ItemV>
    decreases bs,
{
    if bs.len() == 0 {
        Seq::empty()
    } else {
        spec_all_items(bs[0].1) + spec_branches_items(bs.drop_first())
    }
}

impl Lootr {
    /// First position holding a branch named `name`, if any.
    fn find_branch(&self, name: &str) -> (r: Option<usize>)
        ensures
            match r {
                Some(i) => (i as int) < self@.branches.len() && branch_index(
                    self@.branches,
                    name@,
                ) == i as int,
                None => branch_index(self@.branches, name@) == -1,
            },
    {
        let mut i: usize = 0;
        let n = self.branchs.len();
        while i < n
            invariant
                0 <= i <= n,
                n == self.branchs@.len(),
                forall|k: int| 0 <= k < i ==> self@.branches[k].0 != name@,
            decreases n - i,
        {
            if str_eq(&self.branchs[i].0, name) {
                proof {
                    lemma_branch_index_at(self@.branches, name@, i as int);
                }
                return Some(i);
            }
            i += 1;
        }
        proof {
            lemma_branch_index_none(self@.branches, name@);
        }
        None
    }

    /// A new, empty catalog node.
    pub fn new() -> (r: Lootr)
        ensures
            r@.items == Seq::<ItemV>::empty(),
            r@.branches == Seq::<(Seq<char>, LootrV)>::empty(),
            r@.modifiers == Seq::<Box<dyn Modifier>>::empty(),
            r@.wf(),
    {
        Lootr::from(Vec::new())
    }

    /// A catalog node seeded with the given items.
    pub fn from(items: Vec<Item>) -> (r: Lootr)
        ensures
            r@.items == items@.map_values(|i: Item| i@),
            r@.branches == Seq::<(Seq<char>, LootrV)>::empty(),
            r@.modifiers == Seq::<Box<dyn Modifier>>::empty(),
            r@.wf(),
    {
        let r = Lootr { items, branchs: Vec::new(), modifiers: Vec::new() };
        proof {
            assert(branches_view(r.branchs@) =~= Seq::<(Seq<char>, LootrV)>::empty());
        }
        r
    }

    /// The child branches, as name/subtree pairs in insertion order.
    pub fn branchs(&self) -> (r: &Vec<(String, Lootr)>)
        ensures
            r@.len() == self@.branches.len(),
            forall|i: int|
                0 <= i < r@.len() ==> ((#[trigger] r@[i]).0@, r@[i].1@) == self@.branches[i],
    {
        &self.branchs
    }

    /// The items held at this level.
    pub fn items(&self) -> (r: &Vec<Item>)
        ensures
            r@.map_values(|i: Item| i@) == self@.items,
    {
        &self.items
    }

    /// How many items this level holds.
    pub fn self_count(&self) -> (n: usize)
        ensures
            n == self@.items.len(),
    {
        self.items.len()
    }

    /// Append an item at this level; returns the node for chaining.
    pub fn add(&mut self, item: Item) -> (r: &mut Lootr)
        ensures
            r@.items == old(self)@.items.push(item@),
            r@.branches == old(self)@.branches,
            r@.modifiers == old(self)@.modifiers,
            old(self)@.wf() ==> r@.wf(),
            *final(self) == *final(r),
    {
        self.items.push(item);
        proof {
            assert(self@.items =~= old(self)@.items.push(item@));
        }
        self
    }

    /// Insert a branch under `path`, replacing any subtree already there;
    /// returns the owner for chaining.
    pub fn add_branch(&mut self, path: &str, branch: Lootr) -> (r: &mut Lootr)
        ensures
            r@ == old(self)@.with_branch(path@, branch@),
            old(self)@.wf() && branch@.wf() ==> r@.wf(),
            *final(self) == *final(r),
    {
        let mut i: usize = 0;
        let n = self.branchs.len();
        while i < n
            invariant
                0 <= i <= n,
                n == self.branchs@.len(),
                *self == *old(self),
                forall|k: int| 0 <= k < i ==> self@.branches[k].0 != path@,
            decreases n - i,
        {
            if str_eq(&self.branchs[i].0, path) {
                proof {
                    lemma_branch_index_at(self@.branches, path@, i as int);
                }
                let elem = &mut self.branchs[i];
                *elem = (path.to_owned(), branch);
                proof {
                    assert(self.branchs@ =~= old(self).branchs@.update(
                        i as int,
                        self.branchs@[i as int],
                    ));
                    assert(self@.branches =~= old(self)@.branches.update(
                        i as int,
                        (path@, branch@),
                    ));
                    assert(self@ == old(self)@.with_branch(path@, branch@));
                    if old(self)@.wf() && branch@.wf() {
                        assert forall|a: int, b: int|
                            0 <= a < b < self@.branches.len() implies self@.branches[a].0
                            != self@.branches[b].0 by {
                            assert(old(self)@.branches[a].0 == self@.branches[a].0);
                            assert(old(self)@.branches[b].0 == self@.branches[b].0);
                        }
                        assert(forall|k: int|
                            0 <= k < self@.branches.len() ==> (#[trigger] self@.branches[k].1).wf());
                        assert(self@.wf());
                    }
                }
                return self;
            }
            i += 1;
        }
        proof {
            lemma_branch_index_none(self@.branches, path@);
        }
        self.branchs.push((path.to_owned(), branch));
        proof {
            assert(self.branchs@ =~= old(self).branchs@.push(self.branchs@.last()));
            assert(self@.branches =~= old(self)@.branches.push((path@, branch@)));
            assert(self@ == old(self)@.with_branch(path@, branch@));
            if old(self)@.wf() && branch@.wf() {
                assert(self@.wf());
            }
        }
        self
    }

    /// Register a transformation at this level; returns the node for
    /// chaining.
    pub fn add_modifier(&mut self, modifier: Box<dyn Modifier>) -> (r: &mut Lootr)
        ensures
            r@.modifiers == old(self)@.modifiers.push(modifier),
            r@.items == old(self)@.items,
            r@.branches == old(self)@.branches,
            old(self)@.wf() ==> r@.wf(),
            *final(self) == *final(r),
    {
        self.modifiers.push(modifier);
        self
    }

    /// The branch at `path`, or `None` when the trimmed path is a single
    /// absent name.
    ///
    /// The whole trimmed path is tried as one branch name before the
    /// segmented walk, so a branch literally named `"a/b"` wins over the
    /// nested chain `a`, `b`.
    pub fn branch(&self, path: &str) -> (r: Option<&Lootr>)
        requires
            self@.branch_ok(path@),
        ensures
            match r {
                Some(b) => self@.branch_target(path@) == Some(b@),
                None => self@.branch_target(path@) is None,
            },
    {
        let t = paths::trim_seps(path);
        if let Some(i) = self.find_branch(t) {
            return Some(&self.branchs[i].1);
        }
        if !paths::contains_sep(t) {
            return None;
        }
        let segs = paths::split_segments(t);
        let ghost dv = segs.deep_view();
        let ghost full = self@.descend(dv);
        proof {
            assert(full is Some);
            assert(dv.subrange(0, dv.len() as int) =~= dv);
        }
        let mut cur: &Lootr = self;
        let mut j: usize = 0;
        let m = segs.len();
        while j < m
            invariant
                0 <= j <= m,
                m == dv.len(),
                dv == segs.deep_view(),
                m == segs@.len(),
                cur@.descend(dv.subrange(j as int, m as int)) == full,
                full is Some,
            decreases m - j,
        {
            let name: &String = &segs[j];
            let ghost restj = dv.subrange(j as int, m as int);
            proof {
                assert(restj[0] == dv[j as int]);
                assert(dv[j as int] == name@);
            }
            match cur.find_branch(name.as_str()) {
                Some(i) => {
                    proof {
                        assert(branch_value(cur@.branches, name@) == Some(
                            cur@.branches[i as int].1,
                        ));
                        assert(restj.drop_first() =~= dv.subrange(j + 1 as int, m as int));
                    }
                    cur = &cur.branchs[i].1;
                },
                None => {
                    proof {
                        assert(false);
                    }
                },
            }
            j += 1;
        }
        proof {
            assert(dv.subrange(m as int, m as int) =~= Seq::<Seq<char>>::empty());
        }
        Some(cur)
    }

    /// Every item of this node and its subtree: this level first, then each
    /// branch in order.
    pub fn all_items(&self) -> (r: Vec<Item>)
        ensures
            r@.map_values(|i: Item| i@) == spec_all_items(self@),
        decreases *self,
    {
        let mut bag: Vec<Item> = Vec::new();
        let mut i: usize = 0;
        let n = self.items.len();
        proof {
            assert(bag@.map_values(|it: Item| it@) =~= self@.items.subrange(0, 0));
        }
        while i < n
            invariant
                0 <= i <= n,
                n == self.items@.len(),
                self@.items.len() == n,
                bag@.map_values(|it: Item| it@) == self@.items.subrange(0, i as int),
            decreases n - i,
        {
            proof {
                assert(bag@.map_values(|it: Item| it@).len() == bag@.len());
                assert(bag@.len() == i);
            }
            bag.push(self.items[i].clone());
            proof {
                assert(bag@.len() == i + 1);
                assert(self@.items == self.items@.map_values(|it: Item| it@));
                assert(self@.items[i as int] == self.items@[i as int]@);
                assert(bag@[i as int]@ == self@.items[i as int]);
                assert(bag@.map_values(|it: Item| it@) =~= self@.items.subrange(0, i + 1 as int));
            }
            i += 1;
        }
        let mut k: usize = 0;
        let m = self.branchs.len();
        proof {
            assert(self@.items.subrange(0, n as int) =~= self@.items);
            assert(self@.branches.subrange(0, 0) =~= Seq::<(Seq<char>, LootrV)>::empty());
            assert(spec_branches_items(self@.branches.subrange(0, 0)) == Seq::<ItemV>::empty());
            assert(bag@.map_values(|it: Item| it@) =~= self@.items + spec_branches_items(
                self@.branches.subrange(0, 0),
            ));
        }
        while k < m
            invariant
                0 <= k <= m,
                m == self.branchs@.len(),
                self@.branches.len() == m,
                bag@.map_values(|it: Item| it@) == self@.items + spec_branches_items(
                    self@.branches.subrange(0, k as int),
                ),
            decreases m - k,
        {
            proof {
                assert(decreases_to!(*self => self.branchs@[k as int].1));
            }
            let mut sub = self.branchs[k].1.all_items();
            let ghost subv = sub@.map_values(|it: Item| it@);
            let ghost bag0 = bag@.map_values(|it: Item| it@);
            bag.append(&mut sub);
            proof {
                assert(bag@.map_values(|it: Item| it@) =~= bag0 + subv);
                lemma_branches_items_snoc(self@.branches, k as int);
                assert(bag0 + subv =~= self@.items + spec_branches_items(
                    self@.branches.subrange(0, k + 1 as int),
                ));
            }
            k += 1;
        }
        proof {
            assert(self@.branches.subrange(0, m as int) =~= self@.branches);
        }
        bag
    }

    /// Walk the remaining segments of `segs` mutably, one branch lookup per
    /// level, and hand back the reached node.
    fn walk_mut<'a>(&'a mut self, segs: &Vec<String>, j: usize) -> (r: &'a mut Lootr)
        requires
            j <= segs@.len(),
            old(self)@.descend(
                segs.deep_view().subrange(j as int, segs.deep_view().len() as int),
            ) is Some,
        ensures
            old(self)@.descend(segs.deep_view().subrange(j as int, segs.deep_view().len() as int))
                == Some((*r)@),
            final(self)@ == old(self)@.replace_at(
                segs.deep_view().subrange(j as int, segs.deep_view().len() as int),
                (*final(r))@,
            ),
        decreases segs@.len() - j,
    {
        let ghost dv = segs.deep_view();
        let ghost restj = dv.subrange(j as int, dv.len() as int);
        proof {
            assert(dv.len() == segs@.len());
        }
        if j == segs.len() {
            proof {
                assert(restj =~= Seq::<Seq<char>>::empty());
            }
            return self;
        }
        let name: &String = &segs[j];
        proof {
            assert(restj[0] == dv[j as int]);
            assert(dv[j as int] == name@);
        }
        match self.find_branch(name.as_str()) {
            None => {
                proof {
                    assert(false);
                }
                unreached()
            },
            Some(i) => {
                proof {
                    assert(branch_value(old(self)@.branches, name@) == Some(
                        old(self)@.branches[i as int].1,
                    ));
                    assert(restj.drop_first() =~= dv.subrange(j + 1 as int, dv.len() as int));
                }
                let child = &mut self.branchs[i].1;
                proof {
                    assert(node_view(*child) == old(self)@.branches[i as int].1);
                }
                let r = child.walk_mut(segs, j + 1);
                r
            },
        }
    }

    /// The branch at `path`, mutably, or `None` when the trimmed path is a
    /// single absent name.
    ///
    /// The whole trimmed path is tried as one branch name before the
    /// segmented walk, so a branch literally named `"a/b"` wins over the
    /// nested chain `a`, `b`.
    pub fn branch_mut<'a>(&'a mut self, path: &str) -> (r: Option<&'a mut Lootr>)
        requires
            old(self)@.branch_ok(path@),
        ensures
            r is None ==> old(self)@.branch_target(path@) is None && *final(self) == *old(self),
            r is Some ==> old(self)@.branch_target(path@) == Some((*r.unwrap())@),
            r is Some ==> final(self)@ == old(self)@.replace_at(
                old(self)@.branch_route(path@),
                (*final(r.unwrap()))@,
            ),
    {
        let t = paths::trim_seps(path);
        if self.find_branch(t).is_some() {
            let mut seg1: Vec<String> = Vec::new();
            seg1.push(t.to_owned());
            proof {
                assert(seg1.deep_view() =~= seq![t@]);
                assert(old(self)@.branch_route(path@) =~= seq![t@]);
                assert(seq![t@].drop_first() =~= Seq::<Seq<char>>::empty());
                let c = branch_value(old(self)@.branches, t@).unwrap();
                assert(c.descend(seq![t@].drop_first()) == Some(c));
                assert(old(self)@.descend(seq![t@]) == Some(c));
                assert(seg1.deep_view().subrange(0, seg1.deep_view().len() as int)
                    =~= seg1.deep_view());
            }
            let r = self.walk_mut(&seg1, 0);
            return Some(r);
        }
        if !paths::contains_sep(t) {
            return None;
        }
        let segs = paths::split_segments(t);
        proof {
            assert(segs.deep_view().subrange(0, segs.deep_view().len() as int) =~= segs.deep_view());
        }
        let r = self.walk_mut(&segs, 0);
        Some(r)
    }

    /// Add an item to the branch at `path`; returns the owner for chaining.
    pub fn add_in(&mut self, item: Item, path: &str) -> (r: &mut Lootr)
        requires
            old(self)@.branch_ok(path@),
            old(self)@.branch_target(path@) is Some,
        ensures
            r@ == old(self)@.replace_at(
                old(self)@.branch_route(path@),
                ({
                    let t = old(self)@.branch_target(path@).unwrap();
                    LootrV { items: t.items.push(item@), ..t }
                }),
            ),
            *final(self) == *final(r),
    {
        match self.branch_mut(path) {
            Some(b) => {
                b.add(item);
            },
            None => {
                proof {
                    assert(false);
                }
            },
        }
        self
    }

    /// How many items the whole subtree holds.
    pub fn all_count(&self) -> (n: usize)
        ensures
            n == spec_all_items(self@).len(),
    {
        self.all_items().len()
    }
}

proof fn lemma_branches_items_snoc(bs: Seq<(Seq<char>, LootrV)>, k: int)
    requires
        0 <= k < bs.len(),
    ensures
        spec_branches_items(bs.subrange(0, k + 1)) == spec_branches_items(bs.subrange(0, k))
            + spec_all_items(bs[k].1),
    decreases k,
{
    if k == 0 {
        let pre = bs.subrange(0, 1);
        assert(pre[0] == bs[0]);
        assert(pre.drop_first() =~= Seq::<(Seq<char>, LootrV)>::empty());
        assert(spec_branches_items(pre.drop_first()) == Seq::<ItemV>::empty());
        assert(bs.subrange(0, 0) =~= Seq::<(Seq<char>, LootrV)>::empty());
        assert(spec_branches_items(pre) =~= spec_branches_items(bs.subrange(0, 0))
            + spec_all_items(bs[0].1));
    } else {
        let pre1 = bs.subrange(0, k + 1);
        let pre0 = bs.subrange(0, k);
        lemma_branches_items_snoc(bs.drop_first(), k - 1);
        assert(pre1[0] == bs[0]);
        assert(pre0[0] == bs[0]);
        assert(pre1.drop_first() =~= bs.drop_first().subrange(0, k));
        assert(pre0.drop_first() =~= bs.drop_first().subrange(0, k - 1));
        assert(bs.drop_first()[k - 1] == bs[k]);
        assert(spec_branches_items(pre1) == spec_all_items(bs[0].1) + spec_branches_items(
            bs.drop_first().subrange(0, k),
        ));
        assert(spec_branches_items(pre0) == spec_all_items(bs[0].1) + spec_branches_items(
            bs.drop_first().subrange(0, k - 1),
        ));
        assert(spec_all_items(bs[0].1) + (spec_branches_items(bs.drop_first().subrange(0, k - 1))
            + spec_all_items(bs[k].1)) =~= (spec_all_items(bs[0].1) + spec_branches_items(
            bs.drop_first().subrange(0, k - 1),
        )) + spec_all_items(bs[k].1));
    }
}

} // verus!

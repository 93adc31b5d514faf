//! Drop specifications: what one roll against a catalog should fetch.
//!
//! A [`Drop`] names a target branch, how deep the pick may descend, the
//! starting luck, how many copies to hand out, and whether the copies go
//! through a registered modifier. [`DropBuilder`] builds one fluently.

use vstd::prelude::*;

verus! {

/// One roll specification.
///
/// `luck` is a chance in hundredths: `100` means certain inclusion at the
/// target level, `0` means none, and values above `100` also mean certain
/// inclusion. It decays at each visited sub-branch.
#[derive(Clone, Copy)]
pub struct Drop {
    /// The branch to drop from; `None` means the node itself.
    pub path: Option<&'static str>,
    /// How many branch levels the pick may descend.
    pub depth: i16,
    /// The starting inclusion chance, in hundredths.
    pub luck: u32,
    /// The fewest copies one hit produces.
    pub stack_low: u32,
    /// The most copies one hit produces.
    pub stack_high: u32,
    /// Whether a registered modifier is applied to each copy.
    pub modify: bool,
}

impl Default for Drop {
    /// One unmodified copy from the node itself, one level deep, certain.
    fn default() -> (r: Self)
        ensures
            r.path is None,
            r.depth == 1,
            r.luck == 100,
            r.stack_low == 1,
            r.stack_high == 1,
            r.modify == false,
    {
        Drop { path: None, depth: 1, luck: 100, stack_low: 1, stack_high: 1, modify: false }
    }
}

/// A fluent factory for [`Drop`] values.
pub struct DropBuilder {
    pub path: Option<&'static str>,
    pub depth: i16,
    pub luck: u32,
    pub stack_low: u32,
    pub stack_high: u32,
    pub modify: bool,
}

impl Default for DropBuilder {
    fn default() -> (r: Self)
        ensures
            r.path is None,
            r.depth == 1,
            r.luck == u32::MAX,
            r.stack_low == 1,
            r.stack_high == 1,
            r.modify == false,
    {
        DropBuilder::new()
    }
}

impl DropBuilder {
    /// Start from the node itself, one level deep, with boundless luck and a
    /// single unmodified copy.
    pub fn new() -> (r: DropBuilder)
        ensures
            r.path is None,
            r.depth == 1,
            r.luck == u32::MAX,
            r.stack_low == 1,
            r.stack_high == 1,
            r.modify == false,
    {
        DropBuilder {
            path: None,
            depth: 1,
            luck: u32::MAX,
            stack_low: 1,
            stack_high: 1,
            modify: false,
        }
    }

    /// Target the branch under `path`.
    pub fn path(self, path: &'static str) -> (r: DropBuilder)
        ensures
            r.path == Some(path),
            r.depth == self.depth,
            r.luck == self.luck,
            r.stack_low == self.stack_low,
            r.stack_high == self.stack_high,
            r.modify == self.modify,
    {
        DropBuilder { path: Some(path), ..self }
    }

    /// Set the starting luck, in hundredths.
    pub fn luck(self, luck: u32) -> (r: DropBuilder)
        ensures
            r.luck == luck,
            r.path == self.path,
            r.depth == self.depth,
            r.stack_low == self.stack_low,
            r.stack_high == self.stack_high,
            r.modify == self.modify,
    {
        DropBuilder { luck, ..self }
    }

    /// Set the maximum descent depth.
    pub fn depth(self, depth: i16) -> (r: DropBuilder)
        ensures
            r.depth == depth,
            r.path == self.path,
            r.luck == self.luck,
            r.stack_low == self.stack_low,
            r.stack_high == self.stack_high,
            r.modify == self.modify,
    {
        DropBuilder { depth, ..self }
    }

    /// Allow descending the whole subtree.
    pub fn anydepth(self) -> (r: DropBuilder)
        ensures
            r.depth == i16::MAX,
            r.path == self.path,
            r.luck == self.luck,
            r.stack_low == self.stack_low,
            r.stack_high == self.stack_high,
            r.modify == self.modify,
    {
        DropBuilder { depth: i16::MAX, ..self }
    }

    /// Set the inclusive range of copies one hit produces.
    pub fn stack(self, low: u32, high: u32) -> (r: DropBuilder)
        requires
            low <= high,
        ensures
            r.stack_low == low,
            r.stack_high == high,
            r.path == self.path,
            r.depth == self.depth,
            r.luck == self.luck,
            r.modify == self.modify,
    {
        DropBuilder { stack_low: low, stack_high: high, ..self }
    }

    /// Finish the sequence and hand out the [`Drop`].
    pub fn build(&self) -> (r: Drop)
        ensures
            r.path == self.path,
            r.depth == self.depth,
            r.luck == self.luck,
            r.stack_low == self.stack_low,
            r.stack_high == self.stack_high,
            r.modify == self.modify,
    {
        Drop {
            path: self.path,
            depth: self.depth,
            luck: self.luck,
            stack_low: self.stack_low,
            stack_high: self.stack_high,
            modify: self.modify,
        }
    }
}

} // verus!

//! Human-readable catalog rendering.
//!
//! Debug output only: each node shows its own items, then each branch
//! subtree under its name. Nothing in the sampler depends on this text.

use vstd::prelude::*;

use crate::Lootr;

verus! {

#[verifier::external_type_specification]
#[verifier::external_body]
pub struct ExTree(ascii_tree::Tree);

/// Relies on `ascii_tree::Tree::Leaf`: builds the leaf holding these lines.
#[verifier::external_body]
fn tree_leaf(lines: Vec<String>) -> ascii_tree::Tree {
    ascii_tree::Tree::Leaf(lines)
}

/// Relies on `ascii_tree::Tree::Node`: builds the node with this title and
/// these children.
#[verifier::external_body]
fn tree_node(title: String, children: Vec<ascii_tree::Tree>) -> ascii_tree::Tree {
    ascii_tree::Tree::Node(title, children)
}

/// Relies on `ascii_tree::write_tree`: renders the tree as indented text.
#[verifier::external_body]
fn write_tree_text(tree: &ascii_tree::Tree) -> String {
    let mut out = String::new();
    let _ = ascii_tree::write_tree(&mut out, tree);
    out
}

impl Lootr {
    /// The subtree as a rendering node: this level's items as one leaf,
    /// then each branch under its name.
    fn render_node(&self, name: &str) -> ascii_tree::Tree
        decreases *self,
    {
        let mut lines: Vec<String> = Vec::new();
        let mut i: usize = 0;
        let n = self.items.len();
        while i < n
            invariant
                0 <= i <= n,
                n == self.items@.len(),
            decreases n - i,
        {
            lines.push(self.items[i].render());
            i += 1;
        }
        let mut children: Vec<ascii_tree::Tree> = Vec::new();
        children.push(tree_leaf(lines));
        let mut k: usize = 0;
        let m = self.branchs.len();
        while k < m
            invariant
                0 <= k <= m,
                m == self.branchs@.len(),
            decreases m - k,
        {
            proof {
                assert(decreases_to!(*self => self.branchs@[k as int].1));
            }
            let sub = self.branchs[k].1.render_node(self.branchs[k].0.as_str());
            children.push(sub);
            k += 1;
        }
        tree_node(name.to_owned(), children)
    }

    /// This catalog as indented text, for humans.
    pub fn render(&self) -> String {
        write_tree_text(&self.render_node("ROOT"))
    }
}

} // verus!

//! The catalog tree and its mathematical view.
//!
//! [`Lootr`] is the executable tree; [`LootrV`] is its value: item values,
//! named branch values in order, and the registered modifiers.

use vstd::prelude::*;

use crate::item::Item;
use crate::item::ItemV;
use crate::item::Modifier;

verus! {

/// A catalog node: items at this level, named child branches, and the
/// transformations registered here.
pub struct Lootr {
    pub(crate) items: Vec<Item>,
    pub(crate) branchs: Vec<(String, Lootr)>,
    pub(crate) modifiers: Vec<Box<dyn Modifier>>,
}

/// The mathematical value of a [`Lootr`] tree.
pub ghost struct LootrV {
    pub items: Seq<ItemV>,
    pub branches: Seq<(Seq<char>, LootrV)>,
    pub modifiers: Seq<Box<dyn Modifier>>,
}

pub closed spec fn branches_view(bs: Seq<(String, Lootr)>) -> Seq<(Seq<char>, LootrV)>
    decreases bs,
{
    if bs.len() == 0 {
        Seq::empty()
    } else {
        seq![(bs[0].0@, node_view(bs[0].1))] + branches_view(bs.drop_first())
    }
}

pub closed spec fn node_view(l: Lootr) -> LootrV
    decreases l,
{
    LootrV {
        items: l.items@.map_values(|i: Item| i@),
        branches: branches_view(l.branchs@),
        modifiers: l.modifiers@,
    }
}

impl View for Lootr {
    type V = LootrV;

    closed spec fn view(&self) -> LootrV {
        node_view(*self)
    }
}

pub(crate) broadcast proof fn lemma_node_view_fields(l: Lootr)
    ensures
        (#[trigger] node_view(l)).items == l.items@.map_values(|i: Item| i@),
        node_view(l).branches == branches_view(l.branchs@),
        node_view(l).modifiers == l.modifiers@,
{
}

pub(crate) broadcast proof fn lemma_lootr_at(l: &Lootr)
    ensures
        (#[trigger] l.view()) == node_view(*l),
{
}

pub(crate) broadcast proof fn lemma_branches_view_len(bs: Seq<(String, Lootr)>)
    ensures
        #[trigger] branches_view(bs).len() == bs.len(),
    decreases bs,
{
    if bs.len() > 0 {
        lemma_branches_view_len(bs.drop_first());
    }
}

pub(crate) broadcast proof fn lemma_branches_view_at(bs: Seq<(String, Lootr)>, i: int)
    requires
        0 <= i < bs.len(),
    ensures
        (#[trigger] branches_view(bs)[i]) == (bs[i].0@, node_view(bs[i].1)),
    decreases bs,
{
    if i > 0 {
        assert(bs.drop_first()[i - 1] == bs[i]);
        lemma_branches_view_at(bs.drop_first(), i - 1);
        lemma_branches_view_len(bs.drop_first());
        assert(branches_view(bs)[i] == branches_view(bs.drop_first())[i - 1]);
    }
}

pub(crate) broadcast proof fn lemma_branches_view_update(
    bs: Seq<(String, Lootr)>,
    i: int,
    p: (String, Lootr),
)
    requires
        0 <= i < bs.len(),
    ensures
        #[trigger] branches_view(bs.update(i, p)) == branches_view(bs).update(
            i,
            (p.0@, node_view(p.1)),
        ),
{
    lemma_branches_view_len(bs);
    lemma_branches_view_len(bs.update(i, p));
    assert forall|k: int| 0 <= k < bs.len() implies branches_view(bs.update(i, p))[k]
        == branches_view(bs).update(i, (p.0@, node_view(p.1)))[k] by {
        lemma_branches_view_at(bs.update(i, p), k);
        lemma_branches_view_at(bs, k);
    }
    assert(branches_view(bs.update(i, p)) =~= branches_view(bs).update(i, (p.0@, node_view(p.1))));
}

pub(crate) broadcast proof fn lemma_branches_view_push(bs: Seq<(String, Lootr)>, x: (String, Lootr))
    ensures
        #[trigger] branches_view(bs.push(x)) == branches_view(bs).push((x.0@, node_view(x.1))),
{
    lemma_branches_view_len(bs);
    lemma_branches_view_len(bs.push(x));
    assert forall|k: int| 0 <= k < bs.len() + 1 implies branches_view(bs.push(x))[k]
        == branches_view(bs).push((x.0@, node_view(x.1)))[k] by {
        lemma_branches_view_at(bs.push(x), k);
        if k < bs.len() {
            lemma_branches_view_at(bs, k);
            assert(bs.push(x)[k] == bs[k]);
        } else {
            assert(bs.push(x)[k] == x);
        }
    }
    assert(branches_view(bs.push(x)) =~= branches_view(bs).push((x.0@, node_view(x.1))));
}

pub(crate) broadcast group group_node_views {
    lemma_node_view_fields,
    lemma_lootr_at,
    lemma_branches_view_len,
    lemma_branches_view_at,
    lemma_branches_view_update,
    lemma_branches_view_push,
}

} // verus!

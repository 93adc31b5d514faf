//! Items and their properties.
//!
//! An [`Item`] is a named value with an optional key/value property set.
//! Items are what a catalog stores and what rolls and loots hand back.

use vstd::prelude::*;

verus! {

/// Whether a stored string equals the given slice.
pub(crate) fn str_eq(a: &String, b: &str) -> (r: bool)
    ensures
        r == (a@ == b@),
{
    *a == b.to_owned()
}

/// First index whose key equals `key`, or `-1` when no pair matches.
pub open spec fn prop_index(ps: Seq<(Seq<char>, Seq<char>)>, key: Seq<char>) -> int
    decreases ps.len(),
{
    if ps.len() == 0 {
        -1
    } else if ps[0].0 == key {
        0
    } else {
        let r = prop_index(ps.drop_first(), key);
        if r < 0 {
            -1
        } else {
            1 + r
        }
    }
}

/// Value stored under `key`, going by the first matching pair.
pub open spec fn prop_value(ps: Seq<(Seq<char>, Seq<char>)>, key: Seq<char>) -> Option<Seq<char>> {
    if prop_index(ps, key) < 0 {
        None
    } else {
        Some(ps[prop_index(ps, key)].1)
    }
}

/// Store `value` under `key`: replace the value of the first matching pair,
/// or append a fresh pair when the key is absent.
pub open spec fn prop_put(
    ps: Seq<(Seq<char>, Seq<char>)>,
    key: Seq<char>,
    value: Seq<char>,
) -> Seq<(Seq<char>, Seq<char>)> {
    let i = prop_index(ps, key);
    if i < 0 {
        ps.push((key, value))
    } else {
        ps.update(i, (key, value))
    }
}

/// Merge `ext` into `base`, pair by pair; on a key clash the pair of `ext` wins.
pub open spec fn prop_merge(
    base: Seq<(Seq<char>, Seq<char>)>,
    ext: Seq<(Seq<char>, Seq<char>)>,
) -> Seq<(Seq<char>, Seq<char>)>
    decreases ext.len(),
{
    if ext.len() == 0 {
        base
    } else {
        prop_merge(prop_put(base, ext[0].0, ext[0].1), ext.drop_first())
    }
}

/// Each key appears at most once.
pub open spec fn unique_prop_keys(ps: Seq<(Seq<char>, Seq<char>)>) -> bool {
    forall|i: int, j: int| 0 <= i < j < ps.len() ==> ps[i].0 != ps[j].0
}

/// The pair that a front-to-back scan finds first is the one `prop_index`
/// points at.
proof fn lemma_prop_index_at(ps: Seq<(Seq<char>, Seq<char>)>, key: Seq<char>, i: int)
    requires
        0 <= i < ps.len(),
        ps[i].0 == key,
        forall|k: int| 0 <= k < i ==> ps[k].0 != key,
    ensures
        prop_index(ps, key) == i,
    decreases i,
{
    if i > 0 {
        assert(forall|k: int| 0 <= k < i - 1 ==> ps.drop_first()[k] == ps[k + 1]);
        lemma_prop_index_at(ps.drop_first(), key, i - 1);
    }
}

proof fn lemma_prop_index_none(ps: Seq<(Seq<char>, Seq<char>)>, key: Seq<char>)
    requires
        forall|k: int| 0 <= k < ps.len() ==> ps[k].0 != key,
    ensures
        prop_index(ps, key) == -1,
    decreases ps.len(),
{
    if ps.len() > 0 {
        assert(forall|k: int| 0 <= k < ps.len() - 1 ==> ps.drop_first()[k] == ps[k + 1]);
        lemma_prop_index_none(ps.drop_first(), key);
    }
}

proof fn lemma_prop_merge_snoc(
    base: Seq<(Seq<char>, Seq<char>)>,
    ext: Seq<(Seq<char>, Seq<char>)>,
    x: (Seq<char>, Seq<char>),
)
    ensures
        prop_merge(base, ext.push(x)) == prop_put(prop_merge(base, ext), x.0, x.1),
    decreases ext.len(),
{
    if ext.len() == 0 {
        assert(ext.push(x)[0] == x);
        assert(ext.push(x).drop_first() =~= Seq::<(Seq<char>, Seq<char>)>::empty());
        assert(prop_merge(base, ext.push(x)) == prop_merge(
            prop_put(base, x.0, x.1),
            Seq::<(Seq<char>, Seq<char>)>::empty(),
        ));
        assert(prop_merge(prop_put(base, x.0, x.1), Seq::<(Seq<char>, Seq<char>)>::empty())
            == prop_put(base, x.0, x.1));
        assert(prop_merge(base, ext) == base);
    } else {
        assert(ext.push(x)[0] == ext[0]);
        assert(ext.push(x).drop_first() =~= ext.drop_first().push(x));
        let base2 = prop_put(base, ext[0].0, ext[0].1);
        lemma_prop_merge_snoc(base2, ext.drop_first(), x);
        assert(prop_merge(base, ext.push(x)) == prop_merge(base2, ext.drop_first().push(x)));
        assert(prop_merge(base, ext) == prop_merge(base2, ext.drop_first()));
    }
}

/// An ordered key/value store with unique string keys.
///
/// Writing an existing key replaces its value in place; a fresh key is
/// appended, so the pair order is the insertion order.
pub struct Props {
    pairs: Vec<(String, String)>,
}

impl View for Props {
    type V = Seq<(Seq<char>, Seq<char>)>;

    closed spec fn view(&self) -> Seq<(Seq<char>, Seq<char>)> {
        Seq::new(self.pairs@.len(), |i: int| (self.pairs@[i].0@, self.pairs@[i].1@))
    }
}

impl Props {
    /// Keys are unique, so lookups and writes are unambiguous.
    pub open spec fn wf(&self) -> bool {
        unique_prop_keys(self@)
    }

    /// An empty property set.
    pub fn new() -> (r: Props)
        ensures
            r@ == Seq::<(Seq<char>, Seq<char>)>::empty(),
            r.wf(),
    {
        let r = Props { pairs: Vec::new() };
        proof {
            assert(r@ =~= Seq::<(Seq<char>, Seq<char>)>::empty());
        }
        r
    }

    /// Build a property set from the given pairs; on a repeated key the later
    /// pair wins.
    pub fn from<const N: usize>(pairs: [(&str, &str); N]) -> (r: Props)
        ensures
            r@ == prop_merge(
                Seq::<(Seq<char>, Seq<char>)>::empty(),
                pairs@.map_values(|p: (&str, &str)| (p.0@, p.1@)),
            ),
            r.wf(),
    {
        let ghost all = pairs@.map_values(|p: (&str, &str)| (p.0@, p.1@));
        let mut r = Props { pairs: Vec::new() };
        proof {
            assert(r@ =~= Seq::<(Seq<char>, Seq<char>)>::empty());
            assert(all.subrange(0, 0) =~= Seq::<(Seq<char>, Seq<char>)>::empty());
        }
        let mut j: usize = 0;
        while j < N
            invariant
                0 <= j <= N,
                all.len() == N,
                all == pairs@.map_values(|p: (&str, &str)| (p.0@, p.1@)),
                r@ == prop_merge(Seq::<(Seq<char>, Seq<char>)>::empty(), all.subrange(0, j as int)),
                r.wf(),
            decreases N - j,
        {
            let (k, v) = pairs[j];
            proof {
                assert(all[j as int] == (k@, v@));
            }
            r.set(k, v);
            proof {
                lemma_prop_merge_snoc(
                    Seq::<(Seq<char>, Seq<char>)>::empty(),
                    all.subrange(0, j as int),
                    all[j as int],
                );
                assert(all.subrange(0, j as int).push(all[j as int]) =~= all.subrange(
                    0,
                    j + 1 as int,
                ));
            }
            j += 1;
        }
        proof {
            assert(all.subrange(0, N as int) =~= all);
        }
        r
    }

    /// Number of stored pairs.
    pub fn len(&self) -> (n: usize)
        ensures
            n == self@.len(),
    {
        self.pairs.len()
    }

    /// The pair at position `i`, as borrowed slices.
    pub fn pair(&self, i: usize) -> (r: (&str, &str))
        requires
            i < self@.len(),
        ensures
            r.0@ == self@[i as int].0,
            r.1@ == self@[i as int].1,
    {
        (self.pairs[i].0.as_str(), self.pairs[i].1.as_str())
    }

    /// Whether `key` is present.
    pub fn has(&self, key: &str) -> (r: bool)
        ensures
            r == (prop_index(self@, key@) >= 0),
    {
        let mut i: usize = 0;
        let n = self.pairs.len();
        while i < n
            invariant
                0 <= i <= n,
                n == self.pairs@.len(),
                forall|k: int| 0 <= k < i ==> self@[k].0 != key@,
            decreases n - i,
        {
            if str_eq(&self.pairs[i].0, key) {
                proof {
                    lemma_prop_index_at(self@, key@, i as int);
                }
                return true;
            }
            i += 1;
        }
        proof {
            lemma_prop_index_none(self@, key@);
        }
        false
    }

    /// The value under `key`, or `None` when absent.
    pub fn get(&self, key: &str) -> (r: Option<&str>)
        ensures
            match r {
                Some(v) => prop_value(self@, key@) == Some(v@),
                None => prop_value(self@, key@) is None,
            },
    {
        let mut i: usize = 0;
        let n = self.pairs.len();
        while i < n
            invariant
                0 <= i <= n,
                n == self.pairs@.len(),
                forall|k: int| 0 <= k < i ==> self@[k].0 != key@,
            decreases n - i,
        {
            if str_eq(&self.pairs[i].0, key) {
                proof {
                    lemma_prop_index_at(self@, key@, i as int);
                }
                return Some(self.pairs[i].1.as_str());
            }
            i += 1;
        }
        proof {
            lemma_prop_index_none(self@, key@);
        }
        None
    }

    /// Store `value` under `key`, replacing any earlier value.
    pub fn set(&mut self, key: &str, value: &str)
        ensures
            final(self)@ == prop_put(old(self)@, key@, value@),
            old(self).wf() ==> final(self).wf(),
    {
        let mut i: usize = 0;
        let n = self.pairs.len();
        while i < n
            invariant
                0 <= i <= n,
                n == self.pairs@.len(),
                *self == *old(self),
                forall|k: int| 0 <= k < i ==> self@[k].0 != key@,
            decreases n - i,
        {
            if str_eq(&self.pairs[i].0, key) {
                proof {
                    lemma_prop_index_at(self@, key@, i as int);
                }
                let elem = &mut self.pairs[i];
                elem.1 = value.to_owned();
                proof {
                    assert(self@ =~= prop_put(old(self)@, key@, value@));
                }
                return ;
            }
            i += 1;
        }
        proof {
            lemma_prop_index_none(self@, key@);
        }
        self.pairs.push((key.to_owned(), value.to_owned()));
        proof {
            assert(self@ =~= prop_put(old(self)@, key@, value@));
        }
    }
}

impl Clone for Props {
    /// Cloning keeps every pair.
    fn clone(&self) -> (r: Self)
        ensures
            r@ == self@,
    {
        let mut pairs: Vec<(String, String)> = Vec::new();
        let mut i: usize = 0;
        let n = self.pairs.len();
        while i < n
            invariant
                0 <= i <= n,
                n == self.pairs@.len(),
                pairs@.len() == i,
                forall|k: int|
                    0 <= k < i ==> pairs@[k].0@ == self@[k].0 && pairs@[k].1@ == self@[k].1,
            decreases n - i,
        {
            pairs.push((self.pairs[i].0.clone(), self.pairs[i].1.clone()));
            i += 1;
        }
        let r = Props { pairs };
        proof {
            assert(r@ =~= self@);
        }
        r
    }
}

/// The mathematical value of an [`Item`]: its name and, when present, its
/// property pairs in order.
pub ghost struct ItemV {
    pub name: Seq<char>,
    pub props: Option<Seq<(Seq<char>, Seq<char>)>>,
}

/// The property pairs of an item value, an empty sequence when it has none.
pub open spec fn props_or_empty(i: ItemV) -> Seq<(Seq<char>, Seq<char>)> {
    match i.props {
        None => Seq::empty(),
        Some(ps) => ps,
    }
}

/// A named value held by a catalog, with an optional property set.
pub struct Item {
    /// The item name.
    pub name: String,
    /// The item properties, if any were attached.
    pub props: Option<Props>,
}

impl View for Item {
    type V = ItemV;

    open spec fn view(&self) -> ItemV {
        ItemV {
            name: self.name@,
            props: match self.props {
                None => None,
                Some(p) => Some(p@),
            },
        }
    }
}

impl Item {
    /// An item with just a name.
    pub fn a(name: &str) -> (r: Item)
        ensures
            r@.name == name@,
            r@.props is None,
    {
        Item { name: name.to_owned(), props: None }
    }

    /// An item with just a name.
    pub fn an(name: &str) -> (r: Item)
        ensures
            r@.name == name@,
            r@.props is None,
    {
        Item::a(name)
    }

    /// An item with just a name.
    pub fn named(name: &str) -> (r: Item)
        ensures
            r@.name == name@,
            r@.props is None,
    {
        Item::a(name)
    }

    /// An item with a name and the given properties.
    pub fn from(name: &str, props: Props) -> (r: Item)
        ensures
            r@.name == name@,
            r@.props == Some(props@),
    {
        Item { name: name.to_owned(), props: Some(props) }
    }

    /// A fresh item with the given name, carrying this item's properties
    /// merged with `ext_props`; on a key clash `ext_props` wins.
    pub fn extend(&self, name: &str, ext_props: Props) -> (r: Item)
        ensures
            r@.name == name@,
            r@.props == Some(prop_merge(props_or_empty(self@), ext_props@)),
    {
        let mut np = match &self.props {
            None => Props::new(),
            Some(p) => p.clone(),
        };
        proof {
            assert(ext_props@.subrange(0, 0) =~= Seq::<(Seq<char>, Seq<char>)>::empty());
        }
        let mut j: usize = 0;
        let n = ext_props.len();
        while j < n
            invariant
                0 <= j <= n,
                n == ext_props@.len(),
                np@ == prop_merge(props_or_empty(self@), ext_props@.subrange(0, j as int)),
            decreases n - j,
        {
            let (k, v) = ext_props.pair(j);
            np.set(k, v);
            proof {
                lemma_prop_merge_snoc(
                    props_or_empty(self@),
                    ext_props@.subrange(0, j as int),
                    ext_props@[j as int],
                );
                assert(ext_props@.subrange(0, j as int).push(ext_props@[j as int])
                    =~= ext_props@.subrange(0, j + 1 as int));
            }
            j += 1;
        }
        proof {
            assert(ext_props@.subrange(0, n as int) =~= ext_props@);
        }
        Item { name: name.to_owned(), props: Some(np) }
    }

    /// Whether this item carries a property under `key`.
    pub fn has_prop(&self, key: &str) -> (r: bool)
        ensures
            r == (self@.props is Some && prop_index(props_or_empty(self@), key@) >= 0),
    {
        match &self.props {
            None => false,
            Some(p) => p.has(key),
        }
    }

    /// The property stored under `key`, or `None`.
    pub fn get_prop(&self, key: &str) -> (r: Option<&str>)
        ensures
            match r {
                Some(v) => self@.props is Some && prop_value(props_or_empty(self@), key@)
                    == Some(v@),
                None => self@.props is None || prop_value(props_or_empty(self@), key@) is None,
            },
    {
        match &self.props {
            None => None,
            Some(p) => p.get(key),
        }
    }

    /// Store `value` under `key`, replacing any earlier value; an item
    /// without properties gains a set holding just this pair.
    pub fn set_prop(&mut self, key: &str, value: &str) -> (r: &mut Item)
        ensures
            r@.name == old(self)@.name,
            r@.props == Some(prop_put(props_or_empty(old(self)@), key@, value@)),
            *final(self) == *final(r),
    {
        match &mut self.props {
            Some(p) => {
                p.set(key, value);
            },
            None => {
                let mut p = Props::new();
                p.set(key, value);
                self.props = Some(p);
            },
        }
        self
    }
}

impl Clone for Item {
    /// Cloning keeps the name and every property.
    fn clone(&self) -> (r: Self)
        ensures
            r@ == self@,
    {
        let props = match &self.props {
            None => None,
            Some(p) => Some(p.clone()),
        };
        Item { name: self.name.clone(), props }
    }
}

/// Property pairs as text: `key=value`, joined with commas.
pub open spec fn rendered_props(ps: Seq<(Seq<char>, Seq<char>)>) -> Seq<char>
    decreases ps.len(),
{
    if ps.len() == 0 {
        Seq::empty()
    } else {
        rendered_props(ps.drop_last()) + (if ps.len() > 1 {
            seq![',']
        } else {
            Seq::empty()
        }) + ps.last().0 + seq!['='] + ps.last().1
    }
}

/// An item value as text: the name, then the properties in braces.
pub open spec fn rendered_item(i: ItemV) -> Seq<char> {
    i.name + seq!['{'] + rendered_props(props_or_empty(i)) + seq!['}']
}

impl Item {
    /// This item as text, for humans: `name{key=value,...}`.
    pub fn render(&self) -> (r: String)
        ensures
            r@ == rendered_item(self@),
    {
        proof {
            reveal_strlit("{");
            reveal_strlit("}");
            reveal_strlit("=");
            reveal_strlit(",");
        }
        let mut s = self.name.clone();
        s.append("{");
        match &self.props {
            None => {
                proof {
                    assert(s@ =~= self@.name + seq!['{'] + rendered_props(props_or_empty(self@)));
                }
            },
            Some(p) => {
                let ghost ps = p@;
                proof {
                    assert(ps.subrange(0, 0) =~= Seq::<(Seq<char>, Seq<char>)>::empty());
                    assert(s@ =~= self@.name + seq!['{'] + rendered_props(ps.subrange(0, 0)));
                }
                let n = p.len();
                let mut j: usize = 0;
                while j < n
                    invariant
                        0 <= j <= n,
                        n == ps.len(),
                        ps == p@,
                        s@ == self@.name + seq!['{'] + rendered_props(ps.subrange(0, j as int)),
                    decreases n - j,
                {
                    if j > 0 {
                        s.append(",");
                    }
                    let (k, v) = p.pair(j);
                    s.append(k);
                    s.append("=");
                    s.append(v);
                    proof {
                        reveal_strlit("=");
                        reveal_strlit(",");
                        let pre = ps.subrange(0, j + 1 as int);
                        assert(pre.drop_last() =~= ps.subrange(0, j as int));
                        assert(pre.last() == ps[j as int]);
                        assert(pre.len() == j + 1);
                        assert(k@ == ps[j as int].0 && v@ == ps[j as int].1);
                        assert(","@ =~= seq![',']);
                        assert("="@ =~= seq!['=']);
                        assert(rendered_props(pre) == rendered_props(pre.drop_last()) + (if pre.len()
                            > 1 {
                            seq![',']
                        } else {
                            Seq::<char>::empty()
                        }) + pre.last().0 + seq!['='] + pre.last().1);
                        assert(s@ =~= self@.name + seq!['{'] + rendered_props(pre));
                    }
                    j += 1;
                }
                proof {
                    assert(ps.subrange(0, n as int) =~= ps);
                }
            },
        }
        s.append("}");
        proof {
            assert(s@ =~= rendered_item(self@));
        }
        s
    }
}

/// A transformation that a catalog can register and that a loot evaluation
/// applies to looted copies on request.
///
/// An implementation states what it does to an item value in `transformed`
/// and performs exactly that in `modify`. Left unstated, the transformation
/// is modeled as leaving the item value as it is.
pub trait Modifier {
    /// The transformation as a function on item values.
    open spec fn transformed(&self, item: ItemV) -> ItemV {
        item
    }

    /// Apply the transformation to one item.
    fn modify(&self, item: Item) -> (r: Item)
        ensures
            r@ == self.transformed(item@),
    ;
}

} // verus!

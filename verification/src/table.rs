//! A map from ids to values that is walked in the order of the ids.

use vstd::prelude::*;

#[allow(unused_imports)]
use crate::order::{lemma_text_order, text_before};
use crate::order::text_precedes;
use crate::text::same_text;

verus! {

/// Ids in their order, none twice.
pub open spec fn ascending(ids: Seq<Seq<char>>) -> bool {
    forall|i: int, j: int|
        #![trigger ids[i], ids[j]]
        0 <= i < j < ids.len() ==> text_before(ids[i], ids[j])
}

/// The map that takes each id to the value at its place.
pub open spec fn paired<W>(ids: Seq<Seq<char>>, values: Seq<W>) -> Map<Seq<char>, W> {
    Map::new(|id: Seq<char>| ids.contains(id), |id: Seq<char>| values[ids.index_of(id)])
}

/// A map from ids to values; its walk goes by the order of the ids.
#[derive(Debug, PartialEq)]
pub struct Table<V> {
    ids: Vec<String>,
    values: Vec<V>,
}

impl<V> Table<V> {
    /// The ids, in their order.
    pub closed spec fn ids(&self) -> Seq<Seq<char>> {
        crate::text::views(self.ids@)
    }

    /// There is one value for each id, and the ids are in order.
    #[verifier::type_invariant]
    spec fn ordered(&self) -> bool {
        &&& self.ids@.len() == self.values@.len()
        &&& ascending(self.ids())
    }
}

impl<V: View> Table<V> {
    /// What each value says, in the order of the ids.
    pub closed spec fn value_views(&self) -> Seq<V::V> {
        Seq::new(self.values@.len(), |i: int| self.values@[i]@)
    }
}

impl<V: View> View for Table<V> {
    type V = Map<Seq<char>, V::V>;

    open spec fn view(&self) -> Map<Seq<char>, V::V> {
        paired(self.ids(), self.value_views())
    }
}

/// In an order without repeats, the place of an id is the one place it has.
pub proof fn lemma_place(ids: Seq<Seq<char>>, i: int)
    requires
        ascending(ids),
        0 <= i < ids.len(),
    ensures
        ids.contains(ids[i]),
        ids.index_of(ids[i]) == i,
{
    let j = ids.index_of(ids[i]);
    assert(0 <= j < ids.len() && ids[j] == ids[i]);
    lemma_text_order(ids[i], ids[j], ids[i]);
    if i < j {
        assert(text_before(ids[i], ids[j]));
    } else if j < i {
        assert(text_before(ids[j], ids[i]));
    }
}

/// What the first `i + 1` elements hold.
pub proof fn lemma_take_contains<T>(s: Seq<T>, i: int)
    requires
        0 <= i < s.len(),
    ensures
        forall|x: T|
            #![trigger s.take(i + 1).contains(x)]
            s.take(i + 1).contains(x) <==> s.take(i).contains(x) || x == s[i],
{
    assert forall|x: T|
        #![trigger s.take(i + 1).contains(x)]
        s.take(i + 1).contains(x) <==> s.take(i).contains(x) || x == s[i] by {
        if s.take(i + 1).contains(x) {
            let k = s.take(i + 1).index_of(x);
            assert(s[k] == x);
            if k < i {
                assert(s.take(i)[k] == x);
            }
        }
        if s.take(i).contains(x) {
            let k = s.take(i).index_of(x);
            assert(s.take(i + 1)[k] == x);
        }
        assert(s.take(i + 1)[i] == s[i]);
    }
}

/// A new id at its place joins the map.
proof fn lemma_put<W>(ids: Seq<Seq<char>>, values: Seq<W>, at: int, id: Seq<char>, value: W)
    requires
        ascending(ids),
        ids.len() == values.len(),
        0 <= at <= ids.len(),
        forall|i: int| 0 <= i < at ==> text_before(#[trigger] ids[i], id),
        forall|i: int| at <= i < ids.len() ==> text_before(id, #[trigger] ids[i]),
    ensures
        ascending(ids.insert(at, id)),
        paired(ids.insert(at, id), values.insert(at, value)) == paired(ids, values).insert(id, value),
{
    let new_ids = ids.insert(at, id);
    let new_values = values.insert(at, value);
    assert forall|i: int, j: int| #![trigger new_ids[i], new_ids[j]] 0 <= i < j < new_ids.len() implies text_before(
        new_ids[i],
        new_ids[j],
    ) by {
        let p = if i < at {
            i
        } else {
            i - 1
        };
        let q = if j < at {
            j
        } else {
            j - 1
        };
        if i == at {
            assert(new_ids[j] == ids[q]);
        } else if j == at {
            assert(new_ids[i] == ids[p]);
        } else {
            assert(new_ids[i] == ids[p] && new_ids[j] == ids[q]);
        }
    }
    let old_map = paired(ids, values);
    let new_map = paired(new_ids, new_values);
    assert forall|k: Seq<char>| new_map.dom().contains(k) <==> old_map.insert(id, value).dom().contains(k) by {
        if new_ids.contains(k) {
            let i = new_ids.index_of(k);
            if i < at {
                assert(ids[i] == k);
            } else if i > at {
                assert(ids[i - 1] == k);
            }
        }
        if ids.contains(k) {
            let i = ids.index_of(k);
            if i < at {
                assert(new_ids[i] == k);
            } else {
                assert(new_ids[i + 1] == k);
            }
        }
        assert(new_ids[at] == id);
    }
    assert forall|k: Seq<char>| new_map.dom().contains(k) implies new_map[k] == old_map.insert(id, value)[k] by {
        let i = new_ids.index_of(k);
        assert(new_ids[i] == k);
        if k == id {
            lemma_place(new_ids, at);
            assert(new_ids[at] == id);
        } else {
            let p = if i < at {
                i
            } else {
                i - 1
            };
            assert(new_ids[at] == id);
            assert(i != at);
            assert(ids[p] == k);
            lemma_place(ids, p);
        }
    }
    assert(new_map =~= old_map.insert(id, value));
}

/// A new value at the place of an id takes the place of the old one.
proof fn lemma_replace<W>(ids: Seq<Seq<char>>, values: Seq<W>, at: int, value: W)
    requires
        ascending(ids),
        ids.len() == values.len(),
        0 <= at < ids.len(),
    ensures
        paired(ids, values.update(at, value)) == paired(ids, values).insert(ids[at], value),
{
    let old_map = paired(ids, values);
    let new_map = paired(ids, values.update(at, value));
    lemma_place(ids, at);
    assert forall|k: Seq<char>| new_map.dom().contains(k) implies new_map[k] == old_map.insert(ids[at], value)[k] by {
        let i = ids.index_of(k);
        assert(ids[i] == k);
    }
    assert(new_map =~= old_map.insert(ids[at], value));
}

/// Without its place an id is out of the map.
proof fn lemma_drop<W>(ids: Seq<Seq<char>>, values: Seq<W>, at: int)
    requires
        ascending(ids),
        ids.len() == values.len(),
        0 <= at < ids.len(),
    ensures
        ascending(ids.remove(at)),
        paired(ids.remove(at), values.remove(at)) == paired(ids, values).remove(ids[at]),
{
    let new_ids = ids.remove(at);
    let new_values = values.remove(at);
    assert forall|i: int, j: int| #![trigger new_ids[i], new_ids[j]] 0 <= i < j < new_ids.len() implies text_before(
        new_ids[i],
        new_ids[j],
    ) by {
        let p = if i < at {
            i
        } else {
            i + 1
        };
        let q = if j < at {
            j
        } else {
            j + 1
        };
        assert(new_ids[i] == ids[p] && new_ids[j] == ids[q]);
    }
    let old_map = paired(ids, values);
    let new_map = paired(new_ids, new_values);
    assert forall|k: Seq<char>| new_map.dom().contains(k) <==> old_map.remove(ids[at]).dom().contains(k) by {
        if new_ids.contains(k) {
            let i = new_ids.index_of(k);
            let p = if i < at {
                i
            } else {
                i + 1
            };
            assert(ids[p] == k);
            lemma_place(ids, p);
            lemma_place(ids, at);
        }
        if ids.contains(k) && k != ids[at] {
            let i = ids.index_of(k);
            if i < at {
                assert(new_ids[i] == k);
            } else {
                assert(new_ids[i - 1] == k);
            }
        }
    }
    assert forall|k: Seq<char>| new_map.dom().contains(k) implies new_map[k] == old_map.remove(ids[at])[k] by {
        let i = new_ids.index_of(k);
        let p = if i < at {
            i
        } else {
            i + 1
        };
        assert(new_ids[i] == k);
        assert(ids[p] == k);
        lemma_place(ids, p);
    }
    assert(new_map =~= old_map.remove(ids[at]));
}

impl<V: View> Table<V> {
    /// A table that holds nothing.
    pub fn new() -> (r: Self)
        ensures
            r@ == Map::<Seq<char>, V::V>::empty(),
            r.ids() == Seq::<Seq<char>>::empty(),
    {
        let r = Table { ids: Vec::new(), values: Vec::new() };
        assert(r.ids() =~= Seq::<Seq<char>>::empty());
        assert(r@ =~= Map::<Seq<char>, V::V>::empty());
        r
    }

    /// The number of ids.
    pub fn len(&self) -> (r: usize)
        ensures
            r == self.ids().len(),
            ascending(self.ids()),
    {
        proof {
            use_type_invariant(self);
        }
        self.ids.len()
    }

    /// Whether the table holds nothing.
    pub fn is_empty(&self) -> (r: bool)
        ensures
            r == (self.ids().len() == 0),
            r == (self@ == Map::<Seq<char>, V::V>::empty()),
    {
        proof {
            if self.ids().len() == 0 {
                assert(self@ =~= Map::<Seq<char>, V::V>::empty());
            } else {
                assert(self.ids().contains(self.ids()[0]));
                assert(self@.dom().contains(self.ids()[0]));
            }
        }
        self.ids.len() == 0
    }

    /// The id at place `i` of the order.
    pub fn id_at(&self, i: usize) -> (r: &str)
        requires
            i < self.ids().len(),
        ensures
            r@ == self.ids()[i as int],
            self@.dom().contains(r@),
    {
        proof {
            use_type_invariant(self);
            assert(self.ids().contains(self.ids()[i as int]));
        }
        self.ids[i].as_str()
    }

    /// The value of the id at place `i` of the order.
    pub fn value_at(&self, i: usize) -> (r: &V)
        requires
            i < self.ids().len(),
        ensures
            r@ == self@[self.ids()[i as int]],
    {
        proof {
            use_type_invariant(self);
            lemma_place(self.ids(), i as int);
        }
        &self.values[i]
    }

    /// Where `id` belongs in the order.
    fn place_of(&self, id: &str) -> (r: usize)
        ensures
            r <= self.ids().len(),
            forall|i: int| 0 <= i < r ==> text_before(#[trigger] self.ids()[i], id@),
            forall|i: int| r <= i < self.ids().len() ==> !text_before(#[trigger] self.ids()[i], id@),
    {
        proof {
            use_type_invariant(self);
        }
        let mut i: usize = 0;
        while i < self.ids.len() && text_precedes(self.ids[i].as_str(), id)
            invariant
                self.ordered(),
                i <= self.ids@.len(),
                forall|j: int| 0 <= j < i ==> text_before(#[trigger] self.ids()[j], id@),
            decreases self.ids.len() - i,
        {
            i += 1;
        }
        assert forall|j: int| i <= j < self.ids().len() implies !text_before(#[trigger] self.ids()[j], id@) by {
            lemma_text_order(self.ids()[i as int], self.ids()[j], id@);
        }
        i
    }

    /// The value of `id`.
    pub fn get(&self, id: &str) -> (r: Option<&V>)
        ensures
            match r {
                Some(value) => self@.dom().contains(id@) && value@ == self@[id@],
                None => !self@.dom().contains(id@),
            },
    {
        proof {
            use_type_invariant(self);
        }
        let at: usize = self.place_of(id);
        if at < self.ids.len() && same_text(self.ids[at].as_str(), id) {
            proof {
                lemma_place(self.ids(), at as int);
            }
            return Some(&self.values[at]);
        }
        proof {
            if self.ids().contains(id@) {
                let k = self.ids().index_of(id@);
                lemma_text_order(id@, id@, id@);
                assert(self.ids()[k] == id@);
                assert(k >= at);
                lemma_text_order(self.ids()[at as int], id@, id@);
                if k > at {
                    assert(text_before(self.ids()[at as int], self.ids()[k]));
                }
            }
        }
        None
    }

    /// Whether the table holds `id`.
    pub fn contains(&self, id: &str) -> (r: bool)
        ensures
            r == self@.dom().contains(id@),
    {
        self.get(id).is_some()
    }

    /// Gives `id` the value `value`, in place of any that it had.
    pub fn insert(&mut self, id: String, value: V)
        ensures
            final(self)@ == old(self)@.insert(id@, value@),
    {
        proof {
            use_type_invariant(&*self);
        }
        let at: usize = self.place_of(id.as_str());
        let ghost old_ids = self.ids();
        let ghost old_values = self.value_views();
        let mut taken: Self = Table::new();
        std::mem::swap(&mut taken, self);
        let mut ids = taken.ids;
        let mut values = taken.values;
        let ghost id_view = id@;
        let ghost value_view = value@;
        if at < ids.len() && same_text(ids[at].as_str(), id.as_str()) {
            values.set(at, value);
            proof {
                lemma_replace(old_ids, old_values, at as int, value_view);
            }
            assert(Seq::new(values@.len(), |i: int| values@[i]@) =~= old_values.update(at as int, value_view));
        } else {
            proof {
                assert forall|i: int| at <= i < old_ids.len() implies text_before(id_view, #[trigger] old_ids[i]) by {
                    lemma_text_order(old_ids[i], id_view, id_view);
                    if old_ids[i] == id_view && i > at {
                        lemma_text_order(old_ids[at as int], id_view, id_view);
                        assert(text_before(old_ids[at as int], old_ids[i]));
                    }
                }
                lemma_put(old_ids, old_values, at as int, id_view, value_view);
            }
            ids.insert(at, id);
            values.insert(at, value);
            assert(Seq::new(values@.len(), |i: int| values@[i]@) =~= old_values.insert(at as int, value_view));
            assert(crate::text::views(ids@) =~= old_ids.insert(at as int, id_view));
        }
        *self = Table { ids, values };
    }

    /// Takes `id` and its value out.
    pub fn remove(&mut self, id: &str)
        ensures
            final(self)@ == old(self)@.remove(id@),
    {
        proof {
            use_type_invariant(&*self);
        }
        let at: usize = self.place_of(id);
        let ghost old_ids = self.ids();
        let ghost old_values = self.value_views();
        let held = self.contains(id);
        if held {
            let mut taken: Self = Table::new();
            std::mem::swap(&mut taken, self);
            let mut ids = taken.ids;
            let mut values = taken.values;
            proof {
                let k = old_ids.index_of(id@);
                assert(old_ids[k] == id@);
                lemma_text_order(id@, id@, id@);
                assert(k >= at);
                if k > at {
                    assert(text_before(old_ids[at as int], old_ids[k]));
                }
                lemma_drop(old_ids, old_values, at as int);
            }
            ids.remove(at);
            values.remove(at);
            assert(Seq::new(values@.len(), |i: int| values@[i]@) =~= old_values.remove(at as int));
            assert(crate::text::views(ids@) =~= old_ids.remove(at as int));
            *self = Table { ids, values };
        } else {
            assert(old(self)@.remove(id@) =~= old(self)@);
        }
    }
}

/// Ids go by the bytes of their texts, and each leads to the value at its place.
pub proof fn ids_lead_to_their_values<W>(ids: Seq<Seq<char>>, values: Seq<W>, i: int, j: int)
    requires
        ascending(ids),
        ids.len() == values.len(),
        0 <= i < j < ids.len(),
    ensures
        text_before(ids[i], ids[j]),
        paired(ids, values).dom().contains(ids[i]),
        paired(ids, values)[ids[i]] == values[i],
        paired(ids, values)[ids[j]] == values[j],
        forall|id: Seq<char>| #[trigger] paired(ids, values).dom().contains(id) ==> ids.contains(id),
{
    lemma_place(ids, i);
    lemma_place(ids, j);
}

} // verus!

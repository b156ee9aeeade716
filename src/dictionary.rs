//! The message dictionary: values grouped by primary index, each group holding
//! its values in sub-index order.

use crate::msg_line::{LineView, MsgLine};
use vstd::prelude::*;

verus! {

/// Ordered mapping from `(primary index, sub-index)` to a stored value.
///
/// The values of one primary index are kept together, in sub-index order, so
/// that the sub-indices of an index are always `0..n`.
#[derive(Debug, PartialEq)]
pub struct MsgDictionary {
    groups: Vec<(u32, Vec<MsgLine>)>,
}

impl MsgDictionary {
    /// Groups are sorted by strictly ascending primary index, none is empty, and
    /// every sub-index fits a `u32`.
    pub closed spec fn wf(&self) -> bool {
        &&& forall|i: int, j: int|
            0 <= i < j < self.groups@.len() ==> self.groups@[i].0 < self.groups@[j].0
        &&& forall|i: int|
            0 <= i < self.groups@.len() ==> 0 < #[trigger] self.groups@[i].1@.len() <= u32::MAX
    }

    spec fn has(&self, index: u32) -> bool {
        exists|i: int| 0 <= i < self.groups@.len() && self.groups@[i].0 == index
    }

    spec fn slot(&self, index: u32) -> int {
        choose|i: int| 0 <= i < self.groups@.len() && self.groups@[i].0 == index
    }

    spec fn group_view(&self, i: int) -> Seq<LineView> {
        self.groups@[i].1@.map_values(|l: MsgLine| l@)
    }

    /// Each primary index present maps to its values, position = sub-index.
    pub closed spec fn view(&self) -> Map<u32, Seq<LineView>> {
        Map::new(|index: u32| self.has(index), |index: u32| self.group_view(self.slot(index)))
    }

    /// The values stored under `index`, in sub-index order (empty when absent).
    pub open spec fn values_of(&self, index: u32) -> Seq<LineView> {
        if self@.contains_key(index) {
            self@[index]
        } else {
            Seq::empty()
        }
    }

    /// The value at composite key `(index, sub_index)`.
    pub open spec fn value_at(&self, index: u32, sub_index: u32) -> Option<LineView> {
        if sub_index < self.values_of(index).len() {
            Some(self.values_of(index)[sub_index as int])
        } else {
            None
        }
    }

    /// Every stored group holds at least one and at most `u32::MAX` values.
    pub proof fn lemma_groups_bounded(&self)
        requires
            self.wf(),
        ensures
            forall|index: u32|
                #[trigger] self@.contains_key(index) ==> 0 < self@[index].len() <= u32::MAX,
    {
        assert forall|index: u32| #[trigger] self@.contains_key(index) implies 0 < self@[
            index
        ].len() <= u32::MAX by {
            let i = self.slot(index);
            assert(self.groups@[i].1@.len() > 0);
        }
    }

    proof fn lemma_slot(&self, i: int)
        requires
            self.wf(),
            0 <= i < self.groups@.len(),
        ensures
            self.has(self.groups@[i].0),
            self.slot(self.groups@[i].0) == i,
            self@.contains_key(self.groups@[i].0),
            self@[self.groups@[i].0] == self.group_view(i),
    {
        let index = self.groups@[i].0;
        assert(self.has(index));
        let k = self.slot(index);
        if k < i {
            assert(self.groups@[k].0 < self.groups@[i].0);
        } else if k > i {
            assert(self.groups@[i].0 < self.groups@[k].0);
        }
    }

    /// The text at sub-index 0 of `index`, when that slot exists and holds text.
    pub open spec fn first_text(&self, index: u32) -> Option<Seq<char>> {
        match self.value_at(index, 0) {
            Some(v) => v.text(),
            None => None,
        }
    }

    /// The text at `(index, sub_index)`, when that slot exists and holds text.
    pub open spec fn text_at(&self, index: u32, sub_index: u32) -> Option<Seq<char>> {
        match self.value_at(index, sub_index) {
            Some(v) => v.text(),
            None => None,
        }
    }

    pub fn new() -> (r: Self)
        ensures
            r.wf(),
            r@ == Map::<u32, Seq<LineView>>::empty(),
    {
        let r = MsgDictionary { groups: Vec::new() };
        assert(r@ =~= Map::<u32, Seq<LineView>>::empty());
        r
    }

    /// The text at sub-index 0 of `index`; `None` when absent or byte-only.
    pub fn get_first_string(&self, index: u32) -> (r: Option<&str>)
        requires
            self.wf(),
        ensures
            r matches Some(s) ==> self.first_text(index) == Some(s@),
            r is None ==> self.first_text(index) is None,
    {
        match self.find(index) {
            Some(p) => {
                proof {
                    self.lemma_slot(p as int);
                }
                self.groups[p].1[0].string()
            },
            None => None,
        }
    }

    /// The raw bytes at sub-index 0 of `index`, whatever the variant.
    pub fn get_first_bytes(&self, index: u32) -> (r: Option<&[u8]>)
        requires
            self.wf(),
        ensures
            r matches Some(b) ==> self.value_at(index, 0) matches Some(v) && b@ == v.bytes(),
            r is None ==> self.value_at(index, 0) is None,
    {
        match self.find(index) {
            Some(p) => {
                proof {
                    self.lemma_slot(p as int);
                }
                Some(self.groups[p].1[0].bytes())
            },
            None => None,
        }
    }

    /// The `(sub_index, text)` pairs of `index`, by ascending sub-index,
    /// leaving out byte-only values.
    pub fn get_all_strings(&self, index: u32) -> (r: Vec<(u32, &str)>)
        requires
            self.wf(),
        ensures
            enumerates(pairs_view(r@), |j: u32| self.text_at(index, j)),
    {
        let mut r: Vec<(u32, &str)> = Vec::new();
        match self.find(index) {
            Some(p) => {
                proof {
                    self.lemma_slot(p as int);
                }
                let group = &self.groups[p].1;
                let mut j: usize = 0;
                while j < group.len()
                    invariant
                        group@ == self.groups@[p as int].1@,
                        self.values_of(index) == self.group_view(p as int),
                        0 < group@.len() <= u32::MAX,
                        j <= group@.len(),
                        forall|a: int, b: int| 0 <= a < b < r@.len() ==> r@[a].0 < r@[b].0,
                        forall|a: int| 0 <= a < r@.len() ==> #[trigger] r@[a].0 < j,
                        forall|a: int|
                            0 <= a < r@.len() ==> self.text_at(index, #[trigger] r@[a].0) == Some(
                                r@[a].1@,
                            ),
                        forall|k: u32|
                            k < j && #[trigger] self.text_at(index, k) is Some ==> exists|a: int|
                                0 <= a < r@.len() && r@[a].0 == k,
                    decreases group@.len() - j,
                {
                    let ghost r0 = r@;
                    match group[j].string() {
                        Some(s) => {
                            r.push((j as u32, s));
                        },
                        None => {},
                    }
                    proof {
                        assert forall|k: u32|
                            k < j + 1 && #[trigger] self.text_at(index, k) is Some implies exists|
                            a: int,
                        | 0 <= a < r@.len() && r@[a].0 == k by {
                            if k == j {
                                assert(r@[r@.len() - 1].0 == k);
                            } else {
                                let a = choose|a: int| 0 <= a < r0.len() && r0[a].0 == k;
                                assert(r@[a] == r0[a]);
                            }
                        }
                    }
                    j = j + 1;
                }
            },
            None => {},
        }
        proof {
            let rv = pairs_view(r@);
            assert forall|a: int| 0 <= a < rv.len() implies self.text_at(index, #[trigger] rv[a].0)
                == Some(rv[a].1) by {
                assert(rv[a] == (r@[a].0, r@[a].1@));
            }
            assert forall|k: u32| #[trigger] self.text_at(index, k) is Some implies exists|a: int|
                0 <= a < rv.len() && rv[a].0 == k by {
                if self@.contains_key(index) {
                    let a = choose|a: int| 0 <= a < r@.len() && r@[a].0 == k;
                    assert(rv[a].0 == k);
                }
            }
        }
        r
    }

    /// Stores `value` under `index` at the next free sub-index: 0 when the index
    /// is new, else one past its greatest sub-index. No existing key is touched.
    pub fn insert(&mut self, index: u32, value: MsgLine)
        requires
            old(self).wf(),
            old(self).values_of(index).len() < u32::MAX,
        ensures
            final(self).wf(),
            final(self)@ == old(self)@.insert(index, old(self).values_of(index).push(value@)),
    {
        let ghost v = value@;
        match self.find(index) {
            Some(p) => {
                proof {
                    self.lemma_slot(p as int);
                }
                let mut g = self.groups.remove(p);
                g.1.push(value);
                self.groups.insert(p, g);
                proof {
                    let pre = old(self);
                    assert(self.groups@ == pre.groups@.update(p as int, g));
                    assert(self.group_view(p as int) =~= pre.group_view(p as int).push(v));
                    assert forall|k: u32| #[trigger] self.has(k) == pre.has(k) by {
                        if self.has(k) {
                            let i = choose|i: int|
                                0 <= i < self.groups@.len() && self.groups@[i].0 == k;
                            assert(pre.groups@[i].0 == k);
                        }
                        if pre.has(k) {
                            let i = choose|i: int|
                                0 <= i < pre.groups@.len() && pre.groups@[i].0 == k;
                            assert(self.groups@[i].0 == k);
                        }
                    }
                    assert forall|k: u32| #[trigger] self@.contains_key(k) implies self@[k]
                        == pre@.insert(index, pre.values_of(index).push(v))[k] by {
                        let i = self.slot(k);
                        self.lemma_slot(i);
                        pre.lemma_slot(i);
                        if i != p {
                            assert(self.group_view(i) =~= pre.group_view(i));
                        }
                    }
                    assert(self@ =~= pre@.insert(index, pre.values_of(index).push(v)));
                }
            },
            None => {
                let mut p: usize = 0;
                while p < self.groups.len() && self.groups[p].0 < index
                    invariant
                        p <= self.groups@.len(),
                        forall|j: int| 0 <= j < p ==> self.groups@[j].0 < index,
                    decreases self.groups@.len() - p,
                {
                    p = p + 1;
                }
                let mut line: Vec<MsgLine> = Vec::new();
                line.push(value);
                self.groups.insert(p, (index, line));
                proof {
                    let pre = old(self);
                    assert(self.groups@ == pre.groups@.insert(p as int, (index, line)));
                    assert forall|j: int| p < j < self.groups@.len() implies index < self.groups@[j].0 by {
                        assert(self.groups@[j] == pre.groups@[j - 1]);
                        assert(pre.groups@[j - 1].0 != index);
                        if p < pre.groups@.len() {
                            assert(index <= pre.groups@[p as int].0);
                            if p < j - 1 {
                                assert(pre.groups@[p as int].0 < pre.groups@[j - 1].0);
                            }
                        }
                    }
                    assert(self.wf());
                    assert forall|k: u32| #[trigger] self.has(k) == (pre.has(k) || k == index) by {
                        if self.has(k) {
                            let i = choose|i: int|
                                0 <= i < self.groups@.len() && self.groups@[i].0 == k;
                            if i < p {
                                assert(pre.groups@[i].0 == k);
                            } else if i > p {
                                assert(pre.groups@[i - 1].0 == k);
                            }
                        }
                        if pre.has(k) {
                            let i = choose|i: int|
                                0 <= i < pre.groups@.len() && pre.groups@[i].0 == k;
                            if i < p {
                                assert(self.groups@[i].0 == k);
                            } else {
                                assert(self.groups@[i + 1].0 == k);
                            }
                        }
                        if k == index {
                            assert(self.groups@[p as int].0 == k);
                        }
                    }
                    assert forall|k: u32| #[trigger] self@.contains_key(k) implies self@[k]
                        == pre@.insert(index, pre.values_of(index).push(v))[k] by {
                        let i = self.slot(k);
                        self.lemma_slot(i);
                        if i < p {
                            pre.lemma_slot(i);
                            assert(self.group_view(i) =~= pre.group_view(i));
                        } else if i > p {
                            pre.lemma_slot(i - 1);
                            assert(self.group_view(i) =~= pre.group_view(i - 1));
                        } else {
                            assert(self.group_view(i) =~= seq![v]);
                        }
                    }
                    assert(self@ =~= pre@.insert(index, pre.values_of(index).push(v)));
                }
            },
        }
    }

    /// The `(index, text)` pairs of every sub-index-0 text value, by ascending
    /// primary index.
    pub fn iter_first_strings(&self) -> (r: Vec<(u32, &str)>)
        requires
            self.wf(),
        ensures
            enumerates(pairs_view(r@), |k: u32| self.first_text(k)),
    {
        let mut r: Vec<(u32, &str)> = Vec::new();
        let mut i: usize = 0;
        while i < self.groups.len()
            invariant
                self.wf(),
                i <= self.groups@.len(),
                forall|a: int, b: int| 0 <= a < b < r@.len() ==> r@[a].0 < r@[b].0,
                i > 0 ==> forall|a: int|
                    0 <= a < r@.len() ==> #[trigger] r@[a].0 <= self.groups@[i - 1].0,
                i == 0 ==> r@.len() == 0,
                forall|a: int|
                    0 <= a < r@.len() ==> self.first_text(#[trigger] r@[a].0) == Some(r@[a].1@),
                forall|g: int|
                    0 <= g < i && (#[trigger] self.first_text(self.groups@[g].0)) is Some
                        ==> exists|a: int| 0 <= a < r@.len() && r@[a].0 == self.groups@[g].0,
            decreases self.groups@.len() - i,
        {
            proof {
                self.lemma_slot(i as int);
            }
            let ghost r0 = r@;
            let key = self.groups[i].0;
            match self.groups[i].1[0].string() {
                Some(s) => {
                    proof {
                        if i > 0 {
                            assert(self.groups@[i - 1].0 < key);
                        }
                    }
                    r.push((key, s));
                    proof {
                        assert(r@[r@.len() - 1].0 == key);
                    }
                },
                None => {},
            }
            proof {
                assert forall|a: int| 0 <= a < r@.len() implies #[trigger] r@[a].0
                    <= self.groups@[i as int].0 by {
                    if a < r0.len() {
                        assert(r@[a] == r0[a]);
                        if i > 0 {
                            assert(self.groups@[i - 1].0 < key);
                        }
                    }
                }
                assert forall|g: int|
                    0 <= g < i + 1 && (#[trigger] self.first_text(self.groups@[g].0)) is Some
                        implies exists|a: int| 0 <= a < r@.len() && r@[a].0 == self.groups@[g].0 by {
                    if g < i {
                        let a = choose|a: int| 0 <= a < r0.len() && r0[a].0 == self.groups@[g].0;
                        assert(r@[a] == r0[a]);
                    } else {
                        assert(r@[r@.len() - 1].0 == key);
                    }
                }
            }
            i = i + 1;
        }
        proof {
            let rv = pairs_view(r@);
            assert forall|a: int| 0 <= a < rv.len() implies self.first_text(#[trigger] rv[a].0)
                == Some(rv[a].1) by {
                assert(rv[a] == (r@[a].0, r@[a].1@));
            }
            assert forall|k: u32| #[trigger] self.first_text(k) is Some implies exists|a: int|
                0 <= a < rv.len() && rv[a].0 == k by {
                let g = self.slot(k);
                self.lemma_slot(g);
                let a = choose|a: int| 0 <= a < r@.len() && r@[a].0 == self.groups@[g].0;
                assert(rv[a].0 == k);
            }
        }
        r
    }

    /// Position of the group of `index`, if there is one.
    fn find(&self, index: u32) -> (r: Option<usize>)
        requires
            self.wf(),
        ensures
            r matches Some(i) ==> i < self.groups@.len() && self.groups@[i as int].0 == index,
            r is None ==> !self@.contains_key(index),
    {
        let mut i: usize = 0;
        while i < self.groups.len()
            invariant
                i <= self.groups@.len(),
                forall|j: int| 0 <= j < i ==> self.groups@[j].0 != index,
            decreases self.groups@.len() - i,
        {
            if self.groups[i].0 == index {
                return Some(i);
            }
            i = i + 1;
        }
        None
    }
}

} // verus!

verus! {

/// The pairs of `r`, with each text taken as its characters.
pub open spec fn pairs_view(r: Seq<(u32, &str)>) -> Seq<(u32, Seq<char>)> {
    r.map_values(|p: (u32, &str)| (p.0, p.1@))
}

/// `r` lists, by strictly ascending key, exactly the keys on which `f` gives a
/// text, each with that text.
pub open spec fn enumerates(r: Seq<(u32, Seq<char>)>, f: spec_fn(u32) -> Option<Seq<char>>) -> bool {
    &&& forall|a: int, b: int| 0 <= a < b < r.len() ==> r[a].0 < r[b].0
    &&& forall|a: int| 0 <= a < r.len() ==> f(#[trigger] r[a].0) == Some(r[a].1)
    &&& forall|k: u32| #[trigger] f(k) is Some ==> exists|a: int| 0 <= a < r.len() && r[a].0 == k
}

} // verus!

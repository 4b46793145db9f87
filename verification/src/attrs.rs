//! Attribute values and the attribute map of an element.
//!
//! An attribute map is a finite map from names to values. It is stored as a
//! vector of entries whose names strictly ascend, so that walking the vector
//! visits the names in lexicographic order whatever the order of insertion.

use vstd::prelude::*;
use crate::text::{key_less, lex_lt, lemma_lex_irreflexive, lemma_lex_total, lemma_lex_transitive};

verus! {

/// The value of an attribute.
#[derive(Debug, PartialEq)]
pub enum NodeAttrVal {
    /// An attribute with a value, as in `<element attribute="value">`.
    String(String),
    /// An attribute that is merely present, as in `<element checked>`.
    True,
}

/// What an attribute value stands for.
pub enum AttrView {
    String(Seq<char>),
    True,
}

impl View for NodeAttrVal {
    type V = AttrView;

    open spec fn view(&self) -> AttrView {
        match self {
            NodeAttrVal::String(s) => AttrView::String(s@),
            NodeAttrVal::True => AttrView::True,
        }
    }
}

impl Clone for NodeAttrVal {
    fn clone(&self) -> (out: Self)
        ensures
            out == *self,
    {
        match self {
            NodeAttrVal::String(s) => NodeAttrVal::String(s.clone()),
            NodeAttrVal::True => NodeAttrVal::True,
        }
    }
}

impl NodeAttrVal {
    /// An attribute value that holds the text `value`.
    pub fn string(value: &str) -> (out: Self)
        ensures
            out@ == AttrView::String(value@),
    {
        NodeAttrVal::String(value.to_owned())
    }
}

/// The mathematical attribute map: names to values.
pub type Attrs = Map<Seq<char>, AttrView>;

/// The names of `s` strictly ascend.
pub open spec fn ascending(s: Seq<Seq<char>>) -> bool {
    forall|i: int, j: int| 0 <= i < j < s.len() ==> lex_lt(#[trigger] s[i], #[trigger] s[j])
}

/// `s` lists exactly the names of `m`, in ascending order.
pub open spec fn lists_names(s: Seq<Seq<char>>, m: Attrs) -> bool {
    &&& ascending(s)
    &&& forall|k: Seq<char>| s.contains(k) <==> m.contains_key(k)
}

/// The names of `m` in ascending lexicographic order. Every finite map has
/// exactly one such listing.
pub open spec fn ordered_names(m: Attrs) -> Seq<Seq<char>> {
    choose|s: Seq<Seq<char>>| lists_names(s, m)
}

/// The names of a sequence of entries.
pub open spec fn entry_names(s: Seq<(String, NodeAttrVal)>) -> Seq<Seq<char>> {
    Seq::new(s.len(), |i: int| s[i].0@)
}

/// The map that a sequence of entries stands for. Where a name occurs in
/// several entries the map holds one of their values; in an `AttrMap` no
/// name occurs twice.
pub open spec fn entries_map(s: Seq<(String, NodeAttrVal)>) -> Attrs {
    Map::new(
        |k: Seq<char>| exists|i: int| 0 <= i < s.len() && #[trigger] s[i].0@ == k,
        |k: Seq<char>| s[entry_index(s, k)].1@,
    )
}

/// The index of an entry of `s` whose name is `k`, where there is one.
pub open spec fn entry_index(s: Seq<(String, NodeAttrVal)>, k: Seq<char>) -> int {
    choose|i: int| 0 <= i < s.len() && #[trigger] s[i].0@ == k
}

/// An ascending sequence holds no name twice.
pub proof fn lemma_ascending_distinct(s: Seq<Seq<char>>, i: int, j: int)
    requires
        ascending(s),
        0 <= i < s.len(),
        0 <= j < s.len(),
        s[i] == s[j],
    ensures
        i == j,
{
    lemma_lex_irreflexive(s[i]);
    if i < j {
        assert(lex_lt(s[i], s[j]));
    } else if j < i {
        assert(lex_lt(s[j], s[i]));
    }
}

/// Two ascending sequences with the same members are the same sequence.
pub proof fn lemma_ascending_unique(a: Seq<Seq<char>>, b: Seq<Seq<char>>)
    requires
        ascending(a),
        ascending(b),
        forall|k: Seq<char>| a.contains(k) <==> b.contains(k),
    ensures
        a == b,
    decreases a.len(),
{
    if a.len() == 0 {
        if b.len() > 0 {
            assert(b.contains(b[0]));
            assert(a.contains(b[0]));
        }
        assert(a =~= b);
    } else {
        let x = a.last();
        assert(a.contains(x));
        assert(b.contains(x));
        let y = b.last();
        assert(b.contains(y));
        assert(a.contains(y));
        let ix = choose|i: int| 0 <= i < b.len() && b[i] == x;
        let iy = choose|i: int| 0 <= i < a.len() && a[i] == y;
        // x is the greatest member of a, y the greatest member of b
        if x != y {
            lemma_lex_irreflexive(x);
            lemma_lex_irreflexive(y);
            if ix < b.len() - 1 {
                assert(lex_lt(b[ix], b[b.len() - 1]));
            }
            if iy < a.len() - 1 {
                assert(lex_lt(a[iy], a[a.len() - 1]));
            }
            // so x < y and y < x
            lemma_lex_transitive(x, y, x);
        }
        let a0 = a.drop_last();
        let b0 = b.drop_last();
        assert forall|k: Seq<char>| a0.contains(k) <==> b0.contains(k) by {
            if a0.contains(k) {
                let i = choose|i: int| 0 <= i < a0.len() && a0[i] == k;
                assert(a[i] == k);
                assert(a.contains(k));
                assert(lex_lt(a[i], a[a.len() - 1]));
                let j = choose|j: int| 0 <= j < b.len() && b[j] == k;
                if j == b.len() - 1 {
                    lemma_lex_irreflexive(k);
                }
                assert(b0[j] == k);
            }
            if b0.contains(k) {
                let i = choose|i: int| 0 <= i < b0.len() && b0[i] == k;
                assert(b[i] == k);
                assert(b.contains(k));
                assert(lex_lt(b[i], b[b.len() - 1]));
                let j = choose|j: int| 0 <= j < a.len() && a[j] == k;
                if j == a.len() - 1 {
                    lemma_lex_irreflexive(k);
                }
                assert(a0[j] == k);
            }
        }
        lemma_ascending_unique(a0, b0);
        assert(a =~= a0.push(x));
        assert(b =~= b0.push(y));
    }
}

/// A map has at most one ascending listing of its names, so a listing that
/// is at hand is the one that `ordered_names` speaks of.
pub proof fn lemma_ordered_names(s: Seq<Seq<char>>, m: Attrs)
    requires
        lists_names(s, m),
    ensures
        ordered_names(m) == s,
{
    let t = ordered_names(m);
    assert(lists_names(t, m));
    lemma_ascending_unique(t, s);
}

/// Where `k` goes among the ascending names `s`: behind the last name that
/// comes before it.
pub open spec fn place_of(s: Seq<Seq<char>>, k: Seq<char>) -> int
    decreases s.len(),
{
    if s.len() == 0 {
        0
    } else if lex_lt(s.last(), k) {
        s.len() as int
    } else {
        place_of(s.drop_last(), k)
    }
}

/// The names before the place of `k` come before `k`, and the others do
/// not.
pub proof fn lemma_place_of(s: Seq<Seq<char>>, k: Seq<char>)
    requires
        ascending(s),
    ensures
        0 <= place_of(s, k) <= s.len(),
        forall|i: int| 0 <= i < place_of(s, k) ==> lex_lt(#[trigger] s[i], k),
        forall|i: int| place_of(s, k) <= i < s.len() ==> !lex_lt(#[trigger] s[i], k),
    decreases s.len(),
{
    if s.len() > 0 {
        let head = s.drop_last();
        assert forall|i: int, j: int| 0 <= i < j < head.len() implies lex_lt(
            #[trigger] head[i],
            #[trigger] head[j],
        ) by {
            assert(lex_lt(s[i], s[j]));
        }
        if lex_lt(s.last(), k) {
            assert forall|i: int| 0 <= i < s.len() implies lex_lt(#[trigger] s[i], k) by {
                if i < s.len() - 1 {
                    assert(lex_lt(s[i], s[s.len() - 1]));
                    lemma_lex_transitive(s[i], s.last(), k);
                }
            }
        } else {
            lemma_place_of(head, k);
            assert forall|i: int| 0 <= i < place_of(s, k) implies lex_lt(#[trigger] s[i], k) by {
                assert(head[i] == s[i]);
            }
            assert forall|i: int| place_of(s, k) <= i < s.len() implies !lex_lt(
                #[trigger] s[i],
                k,
            ) by {
                if i < s.len() - 1 {
                    assert(head[i] == s[i]);
                }
            }
        }
    }
}

/// Every finite map has a listing of its names in ascending order, and
/// `ordered_names` is that listing.
pub proof fn lemma_listing_exists(m: Attrs)
    requires
        m.dom().finite(),
    ensures
        lists_names(ordered_names(m), m),
    decreases m.dom().len(),
{
    if m.dom().len() == 0 {
        let none = Seq::<Seq<char>>::empty();
        assert forall|k: Seq<char>| none.contains(k) <==> m.contains_key(k) by {
            if m.contains_key(k) {
                assert(m.dom().contains(k));
                assert(m.dom().len() > 0);
            }
        }
        assert(lists_names(none, m));
    } else {
        let k = m.dom().choose();
        assert(m.dom().contains(k));
        let less = m.remove(k);
        assert(less.dom() =~= m.dom().remove(k));
        lemma_listing_exists(less);
        let s = ordered_names(less);
        lemma_place_of(s, k);
        let p = place_of(s, k);
        let all = s.insert(p, k);
        assert(!s.contains(k));
        assert forall|i: int, j: int| 0 <= i < j < all.len() implies lex_lt(
            #[trigger] all[i],
            #[trigger] all[j],
        ) by {
            if j < p {
                assert(lex_lt(s[i], s[j]));
            } else if j == p {
                assert(lex_lt(s[i], k));
            } else if i == p {
                assert(!lex_lt(s[j - 1], k));
                assert(s.contains(s[j - 1]));
                lemma_lex_total(s[j - 1], k);
            } else if i < p {
                assert(lex_lt(s[i], s[j - 1]));
            } else {
                assert(lex_lt(s[i - 1], s[j - 1]));
            }
        }
        assert forall|x: Seq<char>| all.contains(x) <==> m.contains_key(x) by {
            if all.contains(x) {
                let i = choose|i: int| 0 <= i < all.len() && all[i] == x;
                if i < p {
                    assert(s.contains(s[i]));
                } else if i > p {
                    assert(s.contains(s[i - 1]));
                }
            }
            if m.contains_key(x) {
                if x == k {
                    assert(all[p] == x);
                } else {
                    assert(less.contains_key(x));
                    assert(s.contains(x));
                    let i = choose|i: int| 0 <= i < s.len() && s[i] == x;
                    if i < p {
                        assert(all[i] == x);
                    } else {
                        assert(all[i + 1] == x);
                    }
                }
            }
        }
        assert(lists_names(all, m));
    }
}

/// What ascending entries say about the map they stand for.
pub proof fn lemma_entries_map(s: Seq<(String, NodeAttrVal)>)
    requires
        ascending(entry_names(s)),
    ensures
        lists_names(entry_names(s), entries_map(s)),
        forall|i: int| 0 <= i < s.len() ==> entries_map(s).contains_key(#[trigger] s[i].0@),
        forall|i: int| 0 <= i < s.len() ==> entries_map(s)[#[trigger] s[i].0@] == s[i].1@,
        entries_map(s).dom().finite(),
        entries_map(s).len() == s.len(),
{
    let names = entry_names(s);
    let m = entries_map(s);
    assert forall|k: Seq<char>| names.contains(k) <==> m.contains_key(k) by {
        if names.contains(k) {
            let i = choose|i: int| 0 <= i < names.len() && names[i] == k;
            assert(s[i].0@ == k);
        }
        if m.contains_key(k) {
            let i = choose|i: int| 0 <= i < s.len() && #[trigger] s[i].0@ == k;
            assert(names[i] == k);
        }
    }
    assert forall|i: int| 0 <= i < s.len() implies m[#[trigger] s[i].0@] == s[i].1@ by {
        let k = s[i].0@;
        let j = entry_index(s, k);
        assert(m.contains_key(k));
        assert(m[k] == s[j].1@);
        assert(names[i] == k);
        assert(names[j] == k);
        lemma_ascending_distinct(names, i, j);
    }
    assert(names.no_duplicates()) by {
        assert forall|i: int, j: int|
            0 <= i < names.len() && 0 <= j < names.len() && i != j implies names[i]
            != names[j] by {
            if names[i] == names[j] {
                lemma_ascending_distinct(names, i, j);
            }
        }
    }
    assert(names.to_set() =~= m.dom());
    names.unique_seq_to_set();
}

/// The attributes of an element: a map from names to values that is walked
/// in ascending lexicographic order of the names.
#[derive(Debug, PartialEq)]
pub struct AttrMap {
    entries: Vec<(String, NodeAttrVal)>,
}

impl Clone for AttrMap {
    fn clone(&self) -> (out: Self)
        ensures
            out@ == self@,
    {
        proof {
            use_type_invariant(self);
        }
        let mut entries: Vec<(String, NodeAttrVal)> = Vec::new();
        let mut i: usize = 0;
        while i < self.entries.len()
            invariant
                i <= self.entries@.len(),
                entries@ == self.entries@.take(i as int),
            decreases self.entries@.len() - i,
        {
            entries.push((self.entries[i].0.clone(), self.entries[i].1.clone()));
            assert(entries@ =~= self.entries@.take(i + 1));
            i += 1;
        }
        assert(entries@ =~= self.entries@);
        AttrMap { entries }
    }
}

impl View for AttrMap {
    type V = Attrs;

    closed spec fn view(&self) -> Attrs {
        entries_map(self.entries@)
    }
}

impl AttrMap {
    #[verifier::type_invariant]
    closed spec fn names_ascend(&self) -> bool {
        ascending(entry_names(self.entries@))
    }

    /// The map without attributes.
    pub fn new() -> (out: Self)
        ensures
            out@ == Attrs::empty(),
    {
        let out = AttrMap { entries: Vec::new() };
        assert(out@ =~= Attrs::empty());
        out
    }

    /// The number of attributes.
    pub fn len(&self) -> (n: usize)
        ensures
            self@.dom().finite(),
            n == self@.len(),
    {
        proof {
            use_type_invariant(self);
            lemma_entries_map(self.entries@);
        }
        self.entries.len()
    }

    /// Whether the map holds no attribute.
    pub fn is_empty(&self) -> (r: bool)
        ensures
            r == (self@ == Attrs::empty()),
    {
        proof {
            use_type_invariant(self);
            lemma_entries_map(self.entries@);
            if self.entries@.len() == 0 {
                assert(self@ =~= Attrs::empty());
            } else {
                assert(self@.contains_key(self.entries@[0].0@));
            }
        }
        self.entries.len() == 0
    }

    /// The entries in ascending order of their names: entry `i` holds the
    /// `i`-th name of the map and the value that the map gives it.
    pub fn entries(&self) -> (out: &Vec<(String, NodeAttrVal)>)
        ensures
            entry_names(out@) == ordered_names(self@),
            out@.len() == self@.len(),
            self@.dom().finite(),
            forall|i: int|
                0 <= i < out@.len() ==> self@.contains_key(#[trigger] out@[i].0@) && self@[out@[i].0@]
                    == out@[i].1@,
    {
        proof {
            use_type_invariant(self);
            lemma_entries_map(self.entries@);
            lemma_ordered_names(entry_names(self.entries@), self@);
        }
        &self.entries
    }

    /// The index of the first entry whose name is not below `key`.
    fn lower_bound(&self, key: &str) -> (at: usize)
        ensures
            at <= self.entries@.len(),
            forall|i: int| 0 <= i < at ==> lex_lt(#[trigger] self.entries@[i].0@, key@),
            at < self.entries@.len() ==> !lex_lt(self.entries@[at as int].0@, key@),
    {
        let mut i: usize = 0;
        while i < self.entries.len()
            invariant
                i <= self.entries@.len(),
                forall|j: int| 0 <= j < i ==> lex_lt(#[trigger] self.entries@[j].0@, key@),
            decreases self.entries@.len() - i,
        {
            if !key_less(self.entries[i].0.as_str(), key) {
                return i;
            }
            i += 1;
        }
        i
    }

    /// The value of the attribute `key`, if the map has it.
    pub fn get(&self, key: &str) -> (out: Option<&NodeAttrVal>)
        ensures
            match out {
                Some(v) => self@.contains_key(key@) && self@[key@] == v@,
                None => !self@.contains_key(key@),
            },
    {
        let at = self.lower_bound(key);
        proof {
            use_type_invariant(self);
            lemma_entries_map(self.entries@);
        }
        if at < self.entries.len() && self.entries[at].0.as_str().eq(key) {
            Some(&self.entries[at].1)
        } else {
            proof {
                if self@.contains_key(key@) {
                    let names = entry_names(self.entries@);
                    let i = choose|i: int|
                        0 <= i < self.entries@.len() && #[trigger] self.entries@[i].0@ == key@;
                    lemma_lex_irreflexive(key@);
                    assert(names[i] == key@);
                    if i > at {
                        assert(lex_lt(names[at as int], names[i]));
                    }
                }
            }
            None
        }
    }

    /// Whether the map has the attribute `key`.
    pub fn contains_key(&self, key: &str) -> (r: bool)
        ensures
            r == self@.contains_key(key@),
    {
        self.get(key).is_some()
    }

    /// Gives the attribute `key` the value `value`, and returns the value
    /// that it had before, if it had one.
    pub fn insert(&mut self, key: String, value: NodeAttrVal) -> (prev: Option<NodeAttrVal>)
        ensures
            final(self)@ == old(self)@.insert(key@, value@),
            match prev {
                Some(v) => old(self)@.contains_key(key@) && old(self)@[key@] == v@,
                None => !old(self)@.contains_key(key@),
            },
    {
        let at = self.lower_bound(key.as_str());
        let ghost before = self.entries@;
        let ghost names = entry_names(before);
        proof {
            use_type_invariant(&*self);
            lemma_entries_map(before);
        }
        let mut entries: Vec<(String, NodeAttrVal)> = Vec::new();
        std::mem::swap(&mut self.entries, &mut entries);
        if at < entries.len() && entries[at].0.as_str().eq(key.as_str()) {
            let mut held = value;
            std::mem::swap(&mut entries[at].1, &mut held);
            proof {
                let after = entries@;
                assert(entry_names(after) =~= names);
                lemma_entries_map(after);
                assert forall|k: Seq<char>| #[trigger]
                    old(self)@.insert(key@, value@).contains_key(k) implies entries_map(
                    after,
                ).contains_key(k) && entries_map(after)[k] == old(self)@.insert(key@, value@)[k] by {
                    if k != key@ {
                        let i = choose|i: int|
                            0 <= i < before.len() && #[trigger] before[i].0@ == k;
                        assert(after[i].0@ == k);
                        assert(after[i] == before[i]);
                    } else {
                        assert(after[at as int].0@ == k);
                    }
                }
                assert forall|k: Seq<char>| #[trigger]
                    entries_map(after).contains_key(k) implies old(self)@.insert(
                    key@,
                    value@,
                ).contains_key(k) by {
                    let i = choose|i: int| 0 <= i < after.len() && #[trigger] after[i].0@ == k;
                    assert(before[i].0@ == k);
                }
                assert(entries_map(after) =~= old(self)@.insert(key@, value@));
            }
            self.entries = entries;
            Some(held)
        } else {
            entries.insert(at, (key, value));
            proof {
                let after = entries@;
                let names2 = entry_names(after);
                assert(names2 =~= names.insert(at as int, key@));
                assert(after[at as int].0@ == key@);
                if at < before.len() {
                    lemma_lex_total(before[at as int].0@, key@);
                    assert(names[at as int] == before[at as int].0@);
                }
                assert forall|i: int, j: int| 0 <= i < j < names2.len() implies lex_lt(
                    #[trigger] names2[i],
                    #[trigger] names2[j],
                ) by {
                    if j < at {
                        assert(lex_lt(names[i], names[j]));
                    } else if j == at {
                        assert(names[i] == before[i].0@);
                    } else if i == at {
                        if j - 1 > at {
                            assert(lex_lt(names[at as int], names[j - 1]));
                            lemma_lex_transitive(key@, names[at as int], names[j - 1]);
                        }
                    } else if i < at {
                        assert(lex_lt(names[i], names[j - 1]));
                    } else {
                        assert(lex_lt(names[i - 1], names[j - 1]));
                    }
                }
                lemma_entries_map(after);
                if old(self)@.contains_key(key@) {
                    let i = choose|i: int|
                        0 <= i < before.len() && #[trigger] before[i].0@ == key@;
                    lemma_lex_irreflexive(key@);
                    assert(names[i] == key@);
                    if i > at {
                        assert(lex_lt(names[at as int], names[i]));
                        lemma_lex_transitive(key@, names[at as int], names[i]);
                    }
                }
                assert forall|k: Seq<char>| #[trigger]
                    old(self)@.insert(key@, value@).contains_key(k) implies entries_map(
                    after,
                ).contains_key(k) && entries_map(after)[k] == old(self)@.insert(key@, value@)[k] by {
                    if k != key@ {
                        let i = choose|i: int|
                            0 <= i < before.len() && #[trigger] before[i].0@ == k;
                        let i2 = if i < at { i } else { i + 1 };
                        assert(after[i2] == before[i]);
                        assert(after[i2].0@ == k);
                    }
                }
                assert forall|k: Seq<char>| #[trigger]
                    entries_map(after).contains_key(k) implies old(self)@.insert(
                    key@,
                    value@,
                ).contains_key(k) by {
                    let i = choose|i: int| 0 <= i < after.len() && #[trigger] after[i].0@ == k;
                    if i < at {
                        assert(before[i].0@ == k);
                    } else if i > at {
                        assert(before[i - 1].0@ == k);
                    }
                }
                assert(entries_map(after) =~= old(self)@.insert(key@, value@));
            }
            self.entries = entries;
            None
        }
    }
}

} // verus!

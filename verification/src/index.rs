//! Indexes: for each key the identifiers of the items that have it.
use crate::number::{self, branch, with_one_zero};
use crate::store;
use crate::text::chars_of;
use crate::value::{PropertyValue, PropV};
use std::collections::HashMap;
use vstd::prelude::*;

verus! {

broadcast use vstd::std_specs::hash::group_hash_axioms;

/// Identifiers in ascending order, each once.
pub open spec fn ordered(s: Seq<u64>) -> bool {
    forall|i: int, j: int| 0 <= i < j < s.len() ==> #[trigger] s[i] < #[trigger] s[j]
}

/// Lists in ascending order with the same members are the same.
pub proof fn lemma_ordered_same(a: Seq<u64>, b: Seq<u64>)
    requires
        ordered(a),
        ordered(b),
        forall|x: u64| a.contains(x) <==> b.contains(x),
    ensures
        a == b,
    decreases a.len(),
{
    if a.len() == 0 {
        if b.len() > 0 {
            assert(b.contains(b[0]));
        }
        assert(a =~= b);
    } else {
        assert(a.contains(a.last()));
        assert(b.len() > 0);
        assert(b.contains(b.last()));
        let i = choose|i: int| 0 <= i < b.len() && b[i] == a.last();
        let j = choose|j: int| 0 <= j < a.len() && a[j] == b.last();
        assert(a.last() == b.last());
        let a1 = a.drop_last();
        let b1 = b.drop_last();
        assert forall|x: u64| a1.contains(x) implies b1.contains(x) by {
            let n = choose|n: int| 0 <= n < a1.len() && a1[n] == x;
            assert(a[n] == x && x < a.last());
            assert(a.contains(x));
            let m = choose|m: int| 0 <= m < b.len() && b[m] == x;
            assert(b1[m] == x);
        }
        assert forall|x: u64| b1.contains(x) implies a1.contains(x) by {
            let n = choose|n: int| 0 <= n < b1.len() && b1[n] == x;
            assert(b[n] == x && x < b.last());
            assert(b.contains(x));
            let m = choose|m: int| 0 <= m < a.len() && a[m] == x;
            assert(a1[m] == x);
        }
        lemma_ordered_same(a1, b1);
        assert(a =~= a1.push(a.last()));
        assert(b =~= b1.push(b.last()));
    }
}

/// The identifiers of chosen items are in ascending order, and are those of
/// the items that are there and have the property.
pub proof fn lemma_chosen_ids<T>(s: Seq<Option<T>>, p: spec_fn(T) -> bool, n: int)
    requires
        0 <= n <= s.len() <= u64::MAX + 1,
    ensures
        ordered(store::chosen_ids(s, p, n)),
        forall|x: u64|
            #[trigger] store::chosen_ids(s, p, n).contains(x) <==> x < n && (s[x as int] matches Some(
                y,
            ) && p(y)),
    decreases n,
{
    let all = store::chosen_ids(s, p, n);
    if n > 0 {
        lemma_chosen_ids(s, p, n - 1);
        let before = store::chosen_ids(s, p, n - 1);
        let last = (n - 1) as u64;
        assert forall|i: int| 0 <= i < before.len() implies before[i] < last by {
            assert(before.contains(before[i]));
        }
        if s[n - 1] matches Some(y) && p(y) {
            assert(all == before.push(last));
            assert forall|x: u64| all.contains(x) <==> x < n && (s[x as int] matches Some(y) && p(
                y,
            )) by {
                if all.contains(x) {
                    let i = choose|i: int| 0 <= i < all.len() && all[i] == x;
                    if i < before.len() {
                        assert(before[i] == x);
                        assert(before.contains(x));
                    }
                }
                if x < n && (s[x as int] matches Some(y) && p(y)) {
                    if x == last {
                        assert(all[before.len() as int] == x);
                    } else {
                        assert(before.contains(x));
                        let i = choose|i: int| 0 <= i < before.len() && before[i] == x;
                        assert(all[i] == x);
                    }
                }
            }
        }
    }
}

/// The chosen items are those at the chosen positions.
pub proof fn lemma_chosen<T>(s: Seq<Option<T>>, p: spec_fn(T) -> bool, n: int)
    requires
        0 <= n <= s.len() <= u64::MAX,
    ensures
        store::chosen(s, p, n).len() == store::chosen_ids(s, p, n).len(),
        forall|i: int|
            0 <= i < store::chosen(s, p, n).len() ==> s[store::chosen_ids(s, p, n)[i] as int]
                == Some(#[trigger] store::chosen(s, p, n)[i]),
    decreases n,
{
    if n > 0 {
        lemma_chosen(s, p, n - 1);
    }
}

/// The list with one more identifier in its place.
fn insert_id(ids: &mut Vec<u64>, id: u64)
    requires
        ordered(old(ids)@),
    ensures
        ordered(final(ids)@),
        forall|x: u64| final(ids)@.contains(x) <==> old(ids)@.contains(x) || x == id,
{
    let n = ids.len();
    let mut i: usize = n;
    while i > 0 && ids[i - 1] >= id
        invariant
            i <= n,
            ids@ == old(ids)@,
            n == ids.len(),
            ordered(ids@),
            forall|j: int| i <= j < n ==> ids@[j] >= id,
        decreases i,
    {
        i -= 1;
    }
    if i < n && ids[i] == id {
        return ;
    }
    ids.insert(i, id);
    proof {
        let a = old(ids)@;
        let b = ids@;
        assert(b == a.insert(i as int, id));
        assert forall|x: u64| b.contains(x) <==> a.contains(x) || x == id by {
            if a.contains(x) {
                let j = choose|j: int| 0 <= j < a.len() && a[j] == x;
                if j < i {
                    assert(b[j] == x);
                } else {
                    assert(b[j + 1] == x);
                }
            }
            if x == id {
                assert(b[i as int] == x);
            }
            if b.contains(x) {
                let j = choose|j: int| 0 <= j < b.len() && b[j] == x;
                if j < i {
                    assert(a[j] == x);
                } else if j > i {
                    assert(a[j - 1] == x);
                }
            }
        }
    }
}

/// The list without an identifier.
fn remove_id(ids: &mut Vec<u64>, id: u64)
    requires
        ordered(old(ids)@),
    ensures
        ordered(final(ids)@),
        forall|x: u64| final(ids)@.contains(x) <==> old(ids)@.contains(x) && x != id,
{
    let mut i: usize = 0;
    while i < ids.len() && ids[i] != id
        invariant
            i <= ids.len(),
            ids@ == old(ids)@,
            forall|j: int| 0 <= j < i ==> ids@[j] != id,
        decreases ids.len() - i,
    {
        i += 1;
    }
    if i < ids.len() {
        ids.remove(i);
        proof {
            let a = old(ids)@;
            let b = ids@;
            assert(b == a.remove(i as int));
            assert forall|x: u64| b.contains(x) <==> a.contains(x) && x != id by {
                if a.contains(x) && x != id {
                    let j = choose|j: int| 0 <= j < a.len() && a[j] == x;
                    if j < i {
                        assert(b[j] == x);
                    } else {
                        assert(b[j - 1] == x);
                    }
                }
                if b.contains(x) {
                    let j = choose|j: int| 0 <= j < b.len() && b[j] == x;
                    if j < i {
                        assert(a[j] == x);
                    } else {
                        assert(a[j + 1] == x);
                    }
                }
            }
        }
    }
}

/// For each key a list of identifiers, in ascending order.
pub struct Index {
    lists: HashMap<u64, Vec<u64>>,
}

impl Index {
    /// The list of a key.
    pub closed spec fn list(&self, k: u64) -> Seq<u64> {
        if self.lists@.dom().contains(k) {
            self.lists@[k]@
        } else {
            seq![]
        }
    }

    /// An identifier is in the list of a key.
    pub open spec fn has(&self, k: u64, id: u64) -> bool {
        self.list(k).contains(id)
    }

    /// The lists are in order.
    pub closed spec fn sorted(&self) -> bool {
        forall|k: u64| ordered(#[trigger] self.list(k))
    }

    pub proof fn lemma_sorted(&self, k: u64)
        requires
            self.sorted(),
        ensures
            ordered(self.list(k)),
    {
    }

    pub fn new() -> (r: Self)
        ensures
            r.sorted(),
            forall|k: u64, id: u64| !r.has(k, id),
    {
        Index { lists: HashMap::new() }
    }

    /// Enters an identifier in the list of a key.
    pub fn add_entry(&mut self, k: u64, id: u64)
        requires
            old(self).sorted(),
        ensures
            final(self).sorted(),
            forall|k2: u64, x: u64| #[trigger]
                final(self).has(k2, x) <==> old(self).has(k2, x) || (k2 == k && x == id),
    {
        proof {
            assert(ordered(self.list(k)));
        }
        let mut ids = match self.lists.remove(&k) {
            Some(v) => v,
            None => Vec::new(),
        };
        proof {
            assert(ids@ =~= old(self).list(k));
        }
        insert_id(&mut ids, id);
        self.lists.insert(k, ids);
        proof {
            assert(self.list(k) == ids@);
            assert forall|k2: u64| k2 != k implies #[trigger] self.list(k2) == old(self).list(k2) by {}
            assert forall|k2: u64| ordered(#[trigger] self.list(k2)) by {
                assert(ordered(old(self).list(k2)));
            }
        }
    }

    /// Takes an identifier out of the list of a key.
    pub fn drop_entry(&mut self, k: u64, id: u64)
        requires
            old(self).sorted(),
        ensures
            final(self).sorted(),
            forall|k2: u64, x: u64| #[trigger]
                final(self).has(k2, x) <==> old(self).has(k2, x) && !(k2 == k && x == id),
    {
        proof {
            assert(ordered(self.list(k)));
        }
        let mut ids = match self.lists.remove(&k) {
            Some(v) => v,
            None => Vec::new(),
        };
        proof {
            assert(ids@ =~= old(self).list(k));
        }
        remove_id(&mut ids, id);
        if ids.len() > 0 {
            self.lists.insert(k, ids);
        }
        proof {
            assert(self.list(k) =~= ids@);
            assert forall|k2: u64| k2 != k implies #[trigger] self.list(k2) == old(self).list(k2) by {}
            assert forall|k2: u64| ordered(#[trigger] self.list(k2)) by {
                assert(ordered(old(self).list(k2)));
            }
        }
    }

    /// The list of a key, if there is one.
    pub fn get(&self, k: u64) -> (r: Option<&Vec<u64>>)
        ensures
            match r {
                Some(v) => v@ == self.list(k),
                None => self.list(k).len() == 0,
            },
    {
        self.lists.get(&k)
    }
}

// ---------------------------------------------------------------------------
// Keys
// ---------------------------------------------------------------------------

/// A key for a text, from its `i`-th character on.
pub open spec fn text_key(h: u64, s: Seq<char>, i: int) -> u64
    decreases s.len() - i,
{
    if i < 0 || i >= s.len() {
        h
    } else {
        text_key(number::branch_seed(h, s[i] as u64), s, i + 1)
    }
}

pub fn key_of_text(h: u64, s: &str) -> (r: u64)
    ensures
        r == text_key(h, s@, 0),
{
    let v = chars_of(s);
    let mut r = h;
    let mut i: usize = 0;
    while i < v.len()
        invariant
            v@ == s@,
            i <= v.len(),
            text_key(h, s@, 0) == text_key(r, s@, i as int),
        decreases v.len() - i,
    {
        r = branch(r, v[i] as u64);
        i += 1;
    }
    r
}

/// The key of a label.
pub open spec fn label_entry(l: Seq<char>) -> u64 {
    text_key(1, l, 0)
}

/// The key of a property with a value.
pub open spec fn prop_entry(k: Seq<char>, v: PropV) -> u64 {
    let h = text_key(1, k, 0);
    match v {
        PropV::Str(s) => text_key(number::branch_seed(h, 1), s, 0),
        PropV::Int(i) => number::branch_seed(number::branch_seed(h, 2), i as u64),
        PropV::Float(f) => number::branch_seed(number::branch_seed(h, 3), number::one_zero(f)),
        PropV::Bool(b) => number::branch_seed(h, if b { 4 } else { 5 }),
    }
}

/// The key of the relationships of a type between two nodes.
pub open spec fn between_entry(src: u64, label: Seq<char>, dst: u64) -> u64 {
    text_key(number::branch_seed(number::branch_seed(1, src), dst), label, 0)
}

pub fn prop_key(k: &str, v: &PropertyValue) -> (r: u64)
    ensures
        r == prop_entry(k@, v@),
{
    let h = key_of_text(1, k);
    match v {
        PropertyValue::String(s) => key_of_text(branch(h, 1), s.as_str()),
        PropertyValue::Int(i) => branch(branch(h, 2), *i as u64),
        PropertyValue::Float(f) => branch(branch(h, 3), with_one_zero(*f)),
        PropertyValue::Bool(b) => branch(h, if *b { 4 } else { 5 }),
    }
}

pub fn between_key(src: u64, label: &str, dst: u64) -> (r: u64)
    ensures
        r == between_entry(src, label@, dst),
{
    key_of_text(branch(branch(1, src), dst), label)
}

} // verus!

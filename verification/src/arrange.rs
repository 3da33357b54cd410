//! Stable sorting by insertion.
use crate::text::{self, order_text, Order};
use vstd::prelude::*;

verus! {

/// `s` with `x` put behind the last item that need not come after it.
/// `after(a, x)` says that `a` must come after `x`.
pub open spec fn placed<T>(s: Seq<T>, x: T, after: spec_fn(T, T) -> bool) -> Seq<T>
    decreases s.len(),
{
    if s.len() == 0 || !after(s.last(), x) {
        s.push(x)
    } else {
        placed(s.drop_last(), x, after).push(s.last())
    }
}

/// `s` sorted; items of which neither must come after the other keep their
/// order.
pub open spec fn arranged<T>(s: Seq<T>, after: spec_fn(T, T) -> bool) -> Seq<T>
    decreases s.len(),
{
    if s.len() == 0 {
        s
    } else {
        placed(arranged(s.drop_last(), after), s.last(), after)
    }
}

/// Where an item is placed.
pub proof fn lemma_placed<T>(s: Seq<T>, x: T, after: spec_fn(T, T) -> bool, p: int)
    requires
        0 <= p <= s.len(),
        forall|j: int| p <= j < s.len() ==> after(#[trigger] s[j], x),
        p == 0 || !after(s[p - 1], x),
    ensures
        placed(s, x, after) == s.insert(p, x),
    decreases s.len(),
{
    if p == s.len() {
        assert(s.insert(p, x) =~= s.push(x));
    } else {
        assert(after(s[s.len() - 1], x));
        lemma_placed(s.drop_last(), x, after, p);
        assert(s.drop_last().insert(p, x).push(s.last()) =~= s.insert(p, x));
    }
}

/// Sorting neither adds nor loses an item.
pub proof fn lemma_arranged_same_items<T>(s: Seq<T>, after: spec_fn(T, T) -> bool)
    ensures
        arranged(s, after).to_multiset() == s.to_multiset(),
        arranged(s, after).len() == s.len(),
    decreases s.len(),
{
    broadcast use vstd::seq_lib::group_to_multiset_ensures;

    if s.len() > 0 {
        lemma_arranged_same_items(s.drop_last(), after);
        lemma_placed_same_items(arranged(s.drop_last(), after), s.last(), after);
        assert(s =~= s.drop_last().push(s.last()));
    }
}

proof fn lemma_placed_same_items<T>(s: Seq<T>, x: T, after: spec_fn(T, T) -> bool)
    ensures
        placed(s, x, after).to_multiset() == s.to_multiset().insert(x),
        placed(s, x, after).len() == s.len() + 1,
    decreases s.len(),
{
    broadcast use vstd::seq_lib::group_to_multiset_ensures;

    if s.len() > 0 && after(s.last(), x) {
        lemma_placed_same_items(s.drop_last(), x, after);
        assert(s =~= s.drop_last().push(s.last()));
        assert(s.to_multiset() == s.drop_last().to_multiset().insert(s.last()));
        assert(s.drop_last().to_multiset().insert(x).insert(s.last())
            =~= s.drop_last().to_multiset().insert(s.last()).insert(x));
    }
}

/// No item must come after one that stands behind it.
pub open spec fn in_order<T>(s: Seq<T>, after: spec_fn(T, T) -> bool) -> bool {
    forall|i: int, j: int| 0 <= i < j < s.len() ==> !after(#[trigger] s[i], #[trigger] s[j])
}

/// Among some items `after` is a strict order in which being incomparable is
/// transitive.
pub open spec fn orders<T>(after: spec_fn(T, T) -> bool, among: spec_fn(T) -> bool) -> bool {
    &&& forall|a: T, b: T| among(a) && among(b) && #[trigger] after(a, b) ==> !after(b, a)
    &&& forall|a: T, b: T, c: T|
        among(a) && among(b) && among(c) && !(#[trigger] after(a, b)) && !(#[trigger] after(b, c))
            ==> !after(a, c)
}

/// What was sorted by an order is in order.
pub proof fn lemma_arranged_in_order<T>(
    s: Seq<T>,
    after: spec_fn(T, T) -> bool,
    among: spec_fn(T) -> bool,
)
    requires
        orders(after, among),
        forall|i: int| 0 <= i < s.len() ==> among(#[trigger] s[i]),
    ensures
        in_order(arranged(s, after), after),
        forall|i: int| 0 <= i < arranged(s, after).len() ==> among(#[trigger] arranged(s, after)[i]),
    decreases s.len(),
{
    if s.len() > 0 {
        assert forall|i: int| 0 <= i < s.drop_last().len() implies among(
            #[trigger] s.drop_last()[i],
        ) by {
            assert(among(s[i]));
        }
        assert(among(s[s.len() - 1]));
        lemma_arranged_in_order(s.drop_last(), after, among);
        lemma_placed_in_order(arranged(s.drop_last(), after), s.last(), after, among);
    }
}

proof fn lemma_placed_in_order<T>(
    s: Seq<T>,
    x: T,
    after: spec_fn(T, T) -> bool,
    among: spec_fn(T) -> bool,
)
    requires
        orders(after, among),
        in_order(s, after),
        among(x),
        forall|i: int| 0 <= i < s.len() ==> among(#[trigger] s[i]),
    ensures
        in_order(placed(s, x, after), after),
        placed(s, x, after).len() == s.len() + 1,
        forall|i: int|
            0 <= i < placed(s, x, after).len() ==> among(#[trigger] placed(s, x, after)[i]) && (
            placed(s, x, after)[i] == x || exists|k: int|
                0 <= k < s.len() && placed(s, x, after)[i] == s[k]),
    decreases s.len(),
{
    let r = placed(s, x, after);
    if s.len() == 0 {
    } else if !after(s.last(), x) {
        assert forall|i: int, j: int| 0 <= i < j < r.len() implies !after(
            #[trigger] r[i],
            #[trigger] r[j],
        ) by {
            if j == s.len() && i < s.len() - 1 {
                assert(among(s[i]) && among(s[s.len() - 1]));
                assert(!after(s[i], s[s.len() - 1]));
                assert(!after(s[s.len() - 1], x));
            }
        }
        assert forall|i: int| 0 <= i < r.len() implies among(#[trigger] r[i]) && (r[i] == x
            || exists|k: int| 0 <= k < s.len() && r[i] == s[k]) by {
            if i < s.len() {
                assert(r[i] == s[i]);
            }
        }
    } else {
        let t = s.drop_last();
        let q = placed(t, x, after);
        assert forall|i: int| 0 <= i < t.len() implies among(#[trigger] t[i]) by {
            assert(among(s[i]));
        }
        lemma_placed_in_order(t, x, after, among);
        assert(among(s[s.len() - 1]));
        assert forall|i: int| 0 <= i < q.len() implies !after(#[trigger] q[i], s.last()) by {
            if q[i] != x {
                let k = choose|k: int| 0 <= k < t.len() && q[i] == t[k];
                assert(!after(s[k], s[s.len() - 1]));
            } else {
                assert(after(s.last(), x));
            }
        }
        assert forall|i: int| 0 <= i < r.len() implies among(#[trigger] r[i]) && (r[i] == x
            || exists|k: int| 0 <= k < s.len() && r[i] == s[k]) by {
            if i < q.len() {
                assert(r[i] == q[i]);
                if q[i] != x {
                    let k = choose|k: int| 0 <= k < t.len() && q[i] == t[k];
                    assert(r[i] == s[k]);
                }
            } else {
                assert(r[i] == s[s.len() - 1]);
            }
        }
    }
}

/// The order of texts, as `after`.
pub open spec fn text_after() -> spec_fn(Seq<char>, Seq<char>) -> bool {
    |a: Seq<char>, b: Seq<char>| text::text_order(a, b) == Order::Greater
}

/// The texts of a list, sorted.
pub fn sort_texts(v: &Vec<String>) -> (r: Vec<String>)
    ensures
        text::texts_view(r@) == arranged(text::texts_view(v@), text_after()),
{
    let mut r: Vec<String> = Vec::new();
    let mut i: usize = 0;
    proof {
        assert(text::texts_view(r@) =~= text::texts_view(v@).take(0));
    }
    while i < v.len()
        invariant
            i <= v.len(),
            text::texts_view(r@) == arranged(text::texts_view(v@).take(i as int), text_after()),
        decreases v.len() - i,
    {
        let x = v[i].clone();
        let mut p: usize = r.len();
        while p > 0 && text_is_after(r[p - 1].as_str(), x.as_str())
            invariant
                p <= r.len(),
                forall|j: int|
                    p <= j < r.len() ==> text_after()(#[trigger] text::texts_view(r@)[j], x@),
            decreases p,
        {
            p -= 1;
        }
        proof {
            let s = text::texts_view(v@);
            lemma_placed(text::texts_view(r@), x@, text_after(), p as int);
            assert(s.take(i as int + 1).drop_last() =~= s.take(i as int));
            assert(text::texts_view(r@.insert(p as int, x)) =~= text::texts_view(r@).insert(
                p as int,
                x@,
            ));
        }
        r.insert(p, x);
        i += 1;
    }
    proof {
        assert(text::texts_view(v@).take(v@.len() as int) =~= text::texts_view(v@));
    }
    r
}

fn text_is_after(a: &str, b: &str) -> (r: bool)
    ensures
        r == text_after()(a@, b@),
{
    match order_text(a, b) {
        Order::Greater => true,
        _ => false,
    }
}

} // verus!

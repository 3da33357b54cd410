//! Association lists: the mathematical model of maps from texts to values
//! that keep the order in which their keys came.
use vstd::prelude::*;

verus! {

/// The least position from `i` on that holds the key.
pub open spec fn position_from<W>(m: Seq<(Seq<char>, W)>, k: Seq<char>, i: int) -> Option<int>
    decreases m.len() - i,
{
    if i < 0 || i >= m.len() {
        None
    } else if m[i].0 == k {
        Some(i)
    } else {
        position_from(m, k, i + 1)
    }
}

/// The position of a key.
pub open spec fn position<W>(m: Seq<(Seq<char>, W)>, k: Seq<char>) -> Option<int> {
    position_from(m, k, 0)
}

/// The value that a key is bound to.
pub open spec fn lookup<W>(m: Seq<(Seq<char>, W)>, k: Seq<char>) -> Option<W> {
    match position(m, k) {
        Some(i) => Some(m[i].1),
        None => None,
    }
}

/// The list with the key bound to the value: in its place where the key is
/// there, else at the end.
pub open spec fn bind<W>(m: Seq<(Seq<char>, W)>, k: Seq<char>, v: W) -> Seq<(Seq<char>, W)> {
    match position(m, k) {
        Some(i) => m.update(i, (k, v)),
        None => m.push((k, v)),
    }
}

/// The list with all bindings of the second made in turn, from the `i`-th on.
pub open spec fn bind_all_from<W>(m: Seq<(Seq<char>, W)>, n: Seq<(Seq<char>, W)>, i: int) -> Seq<
    (Seq<char>, W),
>
    decreases n.len() - i,
{
    if i < 0 || i >= n.len() {
        m
    } else {
        bind_all_from(bind(m, n[i].0, n[i].1), n, i + 1)
    }
}

/// The list with all bindings of the second made in turn.
pub open spec fn bind_all<W>(m: Seq<(Seq<char>, W)>, n: Seq<(Seq<char>, W)>) -> Seq<(Seq<char>, W)> {
    bind_all_from(m, n, 0)
}

/// The list without the key.
pub open spec fn unbind<W>(m: Seq<(Seq<char>, W)>, k: Seq<char>) -> Seq<(Seq<char>, W)>
    decreases m.len(),
{
    if m.len() == 0 {
        m
    } else if m.last().0 == k {
        unbind(m.drop_last(), k)
    } else {
        unbind(m.drop_last(), k).push(m.last())
    }
}

/// No key occurs twice.
pub open spec fn distinct_keys<W>(m: Seq<(Seq<char>, W)>) -> bool {
    forall|i: int, j: int| 0 <= i < j < m.len() ==> (#[trigger] m[i]).0 != (#[trigger] m[j]).0
}

pub proof fn lemma_position<W>(m: Seq<(Seq<char>, W)>, k: Seq<char>, i: int)
    requires
        0 <= i,
    ensures
        match position_from(m, k, i) {
            Some(p) => i <= p < m.len() && m[p].0 == k && forall|j: int|
                i <= j < p ==> (#[trigger] m[j]).0 != k,
            None => forall|j: int| i <= j < m.len() ==> (#[trigger] m[j]).0 != k,
        },
    decreases m.len() - i,
{
    if i < m.len() && m[i].0 != k {
        lemma_position(m, k, i + 1);
    }
}

proof fn lemma_position_is<W>(m: Seq<(Seq<char>, W)>, k: Seq<char>, i: int, p: int)
    requires
        0 <= i <= p < m.len(),
        m[p].0 == k,
        forall|j: int| i <= j < p ==> (#[trigger] m[j]).0 != k,
    ensures
        position_from(m, k, i) == Some(p),
    decreases p - i,
{
    if i < p {
        lemma_position_is(m, k, i + 1, p);
    }
}

proof fn lemma_position_none<W>(m: Seq<(Seq<char>, W)>, k: Seq<char>, i: int)
    requires
        0 <= i,
        forall|j: int| i <= j < m.len() ==> (#[trigger] m[j]).0 != k,
    ensures
        position_from(m, k, i) is None,
    decreases m.len() - i,
{
    if i < m.len() {
        lemma_position_none(m, k, i + 1);
    }
}

/// After a key is bound, looking it up gives the value, and every other key
/// is bound to what it was bound to before.
pub proof fn lemma_lookup_bind<W>(m: Seq<(Seq<char>, W)>, k: Seq<char>, v: W, j: Seq<char>)
    ensures
        lookup(bind(m, k, v), k) == Some(v),
        j != k ==> lookup(bind(m, k, v), j) == lookup(m, j),
{
    lemma_position(m, k, 0);
    lemma_position(m, j, 0);
    let b = bind(m, k, v);
    match position(m, k) {
        Some(p) => {
            assert forall|x: int| 0 <= x < p implies (#[trigger] b[x]).0 != k by {
                assert(b[x] == m[x]);
            }
            lemma_position_is(b, k, 0, p);
            if j != k {
                match position(m, j) {
                    Some(q) => {
                        assert forall|x: int| 0 <= x < q implies (#[trigger] b[x]).0 != j by {
                            assert(m[x].0 != j);
                        }
                        lemma_position_is(b, j, 0, q);
                    },
                    None => {
                        assert forall|x: int| 0 <= x < b.len() implies (#[trigger] b[x]).0 != j by {
                            assert(m[x].0 != j);
                        }
                        lemma_position_none(b, j, 0);
                    },
                }
            }
        },
        None => {
            assert forall|x: int| 0 <= x < m.len() implies (#[trigger] b[x]).0 != k by {
                assert(b[x] == m[x]);
            }
            lemma_position_is(b, k, 0, m.len() as int);
            if j != k {
                match position(m, j) {
                    Some(q) => {
                        assert forall|x: int| 0 <= x < q implies (#[trigger] b[x]).0 != j by {
                            assert(b[x] == m[x]);
                        }
                        lemma_position_is(b, j, 0, q);
                    },
                    None => {
                        assert forall|x: int| 0 <= x < b.len() implies (#[trigger] b[x]).0 != j by {
                            if x < m.len() {
                                assert(b[x] == m[x]);
                            }
                        }
                        lemma_position_none(b, j, 0);
                    },
                }
            }
        },
    }
}

/// Binding keeps the keys distinct.
pub proof fn lemma_bind_distinct<W>(m: Seq<(Seq<char>, W)>, k: Seq<char>, v: W)
    requires
        distinct_keys(m),
    ensures
        distinct_keys(bind(m, k, v)),
{
    lemma_position(m, k, 0);
}

/// Every entry without the key stays, in order, and the key is gone.
pub proof fn lemma_lookup_unbind<W>(m: Seq<(Seq<char>, W)>, k: Seq<char>, j: Seq<char>)
    ensures
        lookup(unbind(m, k), k) is None,
        j != k ==> lookup(unbind(m, k), j) == lookup(m, j),
    decreases m.len(),
{
    if m.len() > 0 {
        let d = m.drop_last();
        lemma_lookup_unbind(d, k, j);
        lemma_lookup_last(m, j);
        let u = unbind(m, k);
        if m.last().0 != k {
            lemma_lookup_last(u, j);
            lemma_lookup_last(u, k);
            assert(u.drop_last() =~= unbind(d, k));
        }
    }
}

/// Looking a key up in a list that is not empty.
proof fn lemma_lookup_last<W>(m: Seq<(Seq<char>, W)>, k: Seq<char>)
    requires
        m.len() > 0,
    ensures
        lookup(m, k) == match lookup(m.drop_last(), k) {
            Some(v) => Some(v),
            None => if m.last().0 == k { Some(m.last().1) } else { None },
        },
{
    let d = m.drop_last();
    lemma_position(d, k, 0);
    lemma_position(m, k, 0);
    match position(d, k) {
        Some(p) => {
            assert forall|x: int| 0 <= x < p implies (#[trigger] m[x]).0 != k by {
                assert(d[x] == m[x]);
            }
            assert(d[p] == m[p]);
            lemma_position_is(m, k, 0, p);
        },
        None => {
            assert forall|x: int| 0 <= x < d.len() implies (#[trigger] m[x]).0 != k by {
                assert(d[x] == m[x]);
            }
            if m.last().0 == k {
                lemma_position_is(m, k, 0, m.len() - 1);
            } else {
                lemma_position_none(m, k, 0);
            }
        },
    }
}

} // verus!

//! What steps make of two tables: which rows of the one meet which of the
//! other, and what the rows that come out hold.
use crate::assoc;
use crate::executor;
use crate::identity;
use crate::joins;
use crate::keying;
use crate::laws;
use crate::plan::PlanV;
use crate::rows::TableV;
use crate::text;
use crate::value::{RecV, ValV};
use vstd::prelude::*;

verus! {

/// The value of a column in a row: null where it has none.
pub open spec fn held(row: RecV, c: Seq<char>) -> ValV {
    match assoc::lookup(row, c) {
        Some(v) => v,
        None => ValV::Null,
    }
}

/// No map in a row has a key twice.
pub open spec fn plain(row: RecV) -> bool {
    forall|c: Seq<char>| identity::plainly_keyed(#[trigger] held(row, c))
}

pub open spec fn all_plain(rs: Seq<RecV>) -> bool {
    forall|i: int| 0 <= i < rs.len() ==> plain(#[trigger] rs[i])
}

// ---------------------------------------------------------------------------
// OPTIONAL MATCH
// ---------------------------------------------------------------------------

/// Two rows agree on the columns of both tables.
pub open spec fn agree(a: RecV, b: RecV, l: TableV, r: TableV) -> bool {
    forall|c: Seq<char>| #[trigger]
        l.cols.contains(c) && r.cols.contains(c) ==> identity::alike(held(a, c), held(b, c))
}

/// A row is a left row with what another holds in the columns of the right
/// table alone.
pub open spec fn extends(out: RecV, a: RecV, b: RecV, l: TableV, r: TableV) -> bool {
    forall|c: Seq<char>| #[trigger]
        assoc::lookup(out, c) == if r.cols.contains(c) && !l.cols.contains(c) {
            Some(held(b, c))
        } else {
            assoc::lookup(a, c)
        }
}

/// Pairs in the order of the left rows, and for one left row in that of the
/// right rows.
pub open spec fn in_turn(ps: Seq<(int, int)>) -> bool {
    forall|x: int, y: int|
        0 <= x < y < ps.len() ==> (#[trigger] ps[x]).0 < (#[trigger] ps[y]).0 || (ps[x].0
            == ps[y].0 && ps[x].1 < ps[y].1)
}

/// Where a left row meets a right row: the right row is there and agrees. Where
/// none agrees, the left row stands alone, which is written as -1.
pub open spec fn meets(i: int, j: int, l: TableV, r: TableV) -> bool {
    &&& 0 <= i < l.rows.len()
    &&& if j == -1 {
        forall|k: int| 0 <= k < r.rows.len() ==> !agree(l.rows[i], #[trigger] r.rows[k], l, r)
    } else {
        0 <= j < r.rows.len() && agree(l.rows[i], r.rows[j], l, r)
    }
}

/// OPTIONAL MATCH keeps every left row. It comes once for each right row that
/// agrees with it on the columns of both, with what that row holds in the other
/// columns; and where no row agrees it comes once, with nulls in them.
pub proof fn lemma_outer_join(p: PlanV, l: TableV, r: TableV) -> (picks: Seq<(int, int)>)
    requires
        p is LeftOuterJoin,
        all_plain(l.rows),
        all_plain(r.rows),
    ensures
        in_turn(picks),
        forall|i: int, j: int| #[trigger] meets(i, j, l, r) <==> picks.contains((i, j)),
        executor::combined(p, l, r) matches Ok(out) && out.rows.len() == picks.len() && (forall|
            k: int,
        |
            0 <= k < picks.len() ==> extends(
                #[trigger] out.rows[k],
                l.rows[picks[k].0],
                if picks[k].1 == -1 {
                    seq![]
                } else {
                    r.rows[picks[k].1]
                },
                l,
                r,
            )) && l.cols.is_prefix_of(out.cols) && (forall|c: Seq<char>| #[trigger]
            out.cols.contains(c) <==> l.cols.contains(c) || r.cols.contains(c)),
{
    let shared = joins::shared_cols(l, r);
    let only = joins::right_cols(l, r);
    lemma_selected(l.cols, r.cols, true, 0, seq![]);
    lemma_selected(r.cols, l.cols, false, 0, seq![]);
    let cols = l.cols + only;
    assert(l.cols.is_prefix_of(cols)) by {
        assert(cols.subrange(0, l.cols.len() as int) =~= l.cols);
    }
    assert forall|c: Seq<char>| #[trigger] cols.contains(c) <==> l.cols.contains(c)
        || r.cols.contains(c) by {
        if l.cols.contains(c) {
            let k = choose|k: int| 0 <= k < l.cols.len() && l.cols[k] == c;
            assert(cols[k] == c);
        }
        if only.contains(c) {
            let k = choose|k: int| 0 <= k < only.len() && only[k] == c;
            assert(cols[l.cols.len() + k] == c);
        }
        if cols.contains(c) {
            let k = choose|k: int| 0 <= k < cols.len() && cols[k] == c;
            if k < l.cols.len() {
                assert(l.cols[k] == c);
            } else {
                assert(only[k - l.cols.len()] == c);
            }
        }
    }
    let picks = lemma_joined(l, r, 0, seq![], seq![]);
    assert forall|i: int, j: int| #[trigger] meets(i, j, l, r) <==> picks.contains((i, j)) by {
        if picks.contains((i, j)) {
            let k = choose|k: int| 0 <= k < picks.len() && picks[k] == (i, j);
            assert(meets(picks[k].0, picks[k].1, l, r));
        }
    }
    picks
}

/// A text is among others from the `i`-th on.
spec fn later(cols: Seq<Seq<char>>, i: int, c: Seq<char>) -> bool {
    exists|k: int| i <= k < cols.len() && #[trigger] cols[k] == c
}

proof fn lemma_later(cols: Seq<Seq<char>>, i: int, c: Seq<char>)
    requires
        0 <= i < cols.len(),
    ensures
        later(cols, i, c) <==> cols[i] == c || later(cols, i + 1, c),
{
    if later(cols, i, c) {
        let k = choose|k: int| i <= k < cols.len() && #[trigger] cols[k] == c;
        assert(k == i || later(cols, i + 1, c));
    }
    if later(cols, i + 1, c) {
        let k = choose|k: int| i + 1 <= k < cols.len() && #[trigger] cols[k] == c;
        assert(cols[k] == c);
    }
}

proof fn lemma_selected(
    cols: Seq<Seq<char>>,
    others: Seq<Seq<char>>,
    among: bool,
    i: int,
    acc: Seq<Seq<char>>,
)
    requires
        0 <= i <= cols.len(),
    ensures
        ({
            let out = joins::select_cols(cols, others, among, i, acc);
            forall|c: Seq<char>| #[trigger]
                out.contains(c) <==> acc.contains(c) || (others.contains(c) == among && later(
                    cols,
                    i,
                    c,
                ))
        }),
    decreases cols.len() - i,
{
    if i < cols.len() {
        lemma_has(others, cols[i]);
        let next = acc.push(cols[i]);
        lemma_selected(cols, others, among, i + 1, next);
        lemma_selected(cols, others, among, i + 1, acc);
        assert forall|c: Seq<char>| #[trigger] next.contains(c) <==> acc.contains(c) || c
            == cols[i] by {
            if acc.contains(c) {
                let k = choose|k: int| 0 <= k < acc.len() && acc[k] == c;
                assert(next[k] == c);
            }
            if c == cols[i] {
                assert(next[acc.len() as int] == c);
            }
        }
        let out = joins::select_cols(cols, others, among, i, acc);
        assert forall|c: Seq<char>| #[trigger] out.contains(c) <==> acc.contains(c) || (
        others.contains(c) == among && later(cols, i, c)) by {
            lemma_later(cols, i, c);
            if text::has_text(others, cols[i]) == among {
                assert(out == joins::select_cols(cols, others, among, i + 1, next));
                assert(next.contains(c) <==> acc.contains(c) || c == cols[i]);
            } else {
                assert(out == joins::select_cols(cols, others, among, i + 1, acc));
            }
        }
    }
}

proof fn lemma_has(s: Seq<Seq<char>>, c: Seq<char>)
    ensures
        text::has_text(s, c) == s.contains(c),
{
    if s.contains(c) {
        let k = choose|k: int| 0 <= k < s.len() && s[k] == c;
        assert(s[k] == c);
    }
}

/// Rows with the same key over the shared columns are those that agree.
proof fn lemma_agree(a: RecV, b: RecV, l: TableV, r: TableV)
    requires
        plain(a),
        plain(b),
    ensures
        ({
            let shared = joins::shared_cols(l, r);
            joins::join_key(a, shared) == joins::join_key(b, shared) <==> agree(a, b, l, r)
        }),
{
    let shared = joins::shared_cols(l, r);
    lemma_selected(l.cols, r.cols, true, 0, seq![]);
    let u = keying::columns_of(a, shared);
    let v = keying::columns_of(b, shared);
    assert forall|i: int| 0 <= i < u.len() implies identity::plainly_keyed(#[trigger] u[i]) by {
        assert(u[i] == held(a, shared[i]));
    }
    assert forall|i: int| 0 <= i < v.len() implies identity::plainly_keyed(#[trigger] v[i]) by {
        assert(v[i] == held(b, shared[i]));
    }
    identity::lemma_row_key(u, v);
    if identity::all_alike(u, v) {
        assert forall|c: Seq<char>| #[trigger]
            l.cols.contains(c) && r.cols.contains(c) implies identity::alike(
            held(a, c),
            held(b, c),
        ) by {
            let k = choose|k: int| 0 <= k < l.cols.len() && l.cols[k] == c;
            assert(later(l.cols, 0, c));
            assert(shared.contains(c));
            let x = choose|x: int| 0 <= x < shared.len() && shared[x] == c;
            assert(u[x] == held(a, c) && v[x] == held(b, c));
        }
    }
    if agree(a, b, l, r) {
        assert forall|x: int| 0 <= x < u.len() implies identity::alike(#[trigger] u[x], v[x]) by {
            let c = shared[x];
            assert(shared.contains(c));
            assert(l.cols.contains(c));
            assert(u[x] == held(a, c) && v[x] == held(b, c));
        }
    }
}

proof fn lemma_values(acc: RecV, cols: Seq<Seq<char>>, i: int, from: RecV)
    requires
        0 <= i <= cols.len(),
    ensures
        ({
            let out = joins::with_values(acc, cols, i, from);
            forall|c: Seq<char>| #[trigger]
                assoc::lookup(out, c) == if later(cols, i, c) {
                    Some(held(from, c))
                } else {
                    assoc::lookup(acc, c)
                }
        }),
    decreases cols.len() - i,
{
    if i < cols.len() {
        let next = assoc::bind(acc, cols[i], held(from, cols[i]));
        lemma_values(next, cols, i + 1, from);
        let out = joins::with_values(acc, cols, i, from);
        assert forall|c: Seq<char>| #[trigger]
            assoc::lookup(out, c) == if later(cols, i, c) {
                Some(held(from, c))
            } else {
                assoc::lookup(acc, c)
            } by {
            assoc::lemma_lookup_bind(acc, cols[i], held(from, cols[i]), c);
            lemma_later(cols, i, c);
        }
    }
}

proof fn lemma_extends(a: RecV, b: RecV, l: TableV, r: TableV)
    ensures
        extends(joins::with_values(a, joins::right_cols(l, r), 0, b), a, b, l, r),
{
    let only = joins::right_cols(l, r);
    lemma_selected(r.cols, l.cols, false, 0, seq![]);
    lemma_values(a, only, 0, b);
    let out = joins::with_values(a, only, 0, b);
    assert forall|c: Seq<char>| #[trigger]
        assoc::lookup(out, c) == if r.cols.contains(c) && !l.cols.contains(c) {
            Some(held(b, c))
        } else {
            assoc::lookup(a, c)
        } by {
        if r.cols.contains(c) && !l.cols.contains(c) {
            let k = choose|k: int| 0 <= k < r.cols.len() && r.cols[k] == c;
            assert(later(r.cols, 0, c));
            assert(only.contains(c));
            let x = choose|x: int| 0 <= x < only.len() && only[x] == c;
            assert(later(only, 0, c));
        } else if later(only, 0, c) {
            assert(only.contains(c));
        }
    }
}

/// One left row against the right rows from the `j`-th on.
proof fn lemma_matching(
    l: TableV,
    r: TableV,
    i: int,
    j: int,
    acc: Seq<RecV>,
    before: Seq<int>,
) -> (js: Seq<int>)
    requires
        0 <= i < l.rows.len(),
        0 <= j <= r.rows.len(),
        all_plain(l.rows),
        all_plain(r.rows),
        acc.len() == before.len(),
        forall|x: int| 0 <= x < before.len() ==> 0 <= #[trigger] before[x] < j && agree(
            l.rows[i],
            r.rows[before[x]],
            l,
            r,
        ) && extends(acc[x], l.rows[i], r.rows[before[x]], l, r),
        forall|x: int, y: int|
            0 <= x < y < before.len() ==> #[trigger] before[x] < #[trigger] before[y],
        forall|k: int|
            0 <= k < j && agree(l.rows[i], #[trigger] r.rows[k], l, r) ==> before.contains(k),
    ensures
        ({
            let shared = joins::shared_cols(l, r);
            let out = joins::matching_rows(
                l.rows[i],
                joins::join_key(l.rows[i], shared),
                shared,
                joins::right_cols(l, r),
                r.rows,
                j,
                acc,
            );
            &&& out.len() == js.len()
            &&& forall|x: int| 0 <= x < js.len() ==> 0 <= #[trigger] js[x] < r.rows.len() && agree(
                l.rows[i],
                r.rows[js[x]],
                l,
                r,
            ) && extends(out[x], l.rows[i], r.rows[js[x]], l, r)
            &&& forall|x: int, y: int|
                0 <= x < y < js.len() ==> #[trigger] js[x] < #[trigger] js[y]
            &&& forall|k: int|
                0 <= k < r.rows.len() && agree(l.rows[i], #[trigger] r.rows[k], l, r)
                    ==> js.contains(k)
        }),
    decreases r.rows.len() - j,
{
    if j < r.rows.len() {
        let a = l.rows[i];
        let b = r.rows[j];
        lemma_agree(a, b, l, r);
        if agree(a, b, l, r) {
            let now = before.push(j);
            let more = acc.push(joins::with_values(a, joins::right_cols(l, r), 0, b));
            lemma_extends(a, b, l, r);
            assert forall|k: int|
                0 <= k < j + 1 && agree(l.rows[i], #[trigger] r.rows[k], l, r) implies now.contains(
                k,
            ) by {
                if k < j {
                    let x = choose|x: int| 0 <= x < before.len() && before[x] == k;
                    assert(now[x] == k);
                } else {
                    assert(now[before.len() as int] == k);
                }
            }
            lemma_matching(l, r, i, j + 1, more, now)
        } else {
            lemma_matching(l, r, i, j + 1, acc, before)
        }
    } else {
        before
    }
}

spec fn paired(i: int, js: Seq<int>) -> Seq<(int, int)> {
    Seq::new(js.len(), |x: int| (i, js[x]))
}

/// What the left rows from the `i`-th on give.
proof fn lemma_joined(l: TableV, r: TableV, i: int, acc: Seq<RecV>, before: Seq<(int, int)>) -> (picks:
    Seq<(int, int)>)
    requires
        0 <= i <= l.rows.len(),
        all_plain(l.rows),
        all_plain(r.rows),
        acc.len() == before.len(),
        in_turn(before),
        forall|x: int|
            0 <= x < before.len() ==> (#[trigger] before[x]).0 < i && meets(
                before[x].0,
                before[x].1,
                l,
                r,
            ) && extends(
                acc[x],
                l.rows[before[x].0],
                if before[x].1 == -1 {
                    seq![]
                } else {
                    r.rows[before[x].1]
                },
                l,
                r,
            ),
        forall|a: int, b: int| a < i && #[trigger] meets(a, b, l, r) ==> before.contains((a, b)),
    ensures
        ({
            let out = joins::join_rows(
                l.rows,
                i,
                joins::shared_cols(l, r),
                joins::right_cols(l, r),
                r.rows,
                acc,
            );
            &&& out.len() == picks.len()
            &&& in_turn(picks)
            &&& forall|x: int|
                0 <= x < picks.len() ==> meets((#[trigger] picks[x]).0, picks[x].1, l, r)
                    && extends(
                    out[x],
                    l.rows[picks[x].0],
                    if picks[x].1 == -1 {
                        seq![]
                    } else {
                        r.rows[picks[x].1]
                    },
                    l,
                    r,
                )
            &&& forall|a: int, b: int| #[trigger] meets(a, b, l, r) ==> picks.contains((a, b))
        }),
    decreases l.rows.len() - i,
{
    if i < l.rows.len() {
        let shared = joins::shared_cols(l, r);
        let only = joins::right_cols(l, r);
        let js = lemma_matching(l, r, i, 0, seq![], seq![]);
        let own = joins::joined_row(l.rows[i], shared, only, r.rows);
        lemma_extends(l.rows[i], seq![], l, r);
        let mine = if js.len() == 0 {
            seq![(i, -1int)]
        } else {
            paired(i, js)
        };
        let now = before + mine;
        let more = acc + own;
        assert(own.len() == mine.len());
        if js.len() == 0 {
            assert forall|k: int| 0 <= k < r.rows.len() implies !agree(
                l.rows[i],
                #[trigger] r.rows[k],
                l,
                r,
            ) by {
                if agree(l.rows[i], r.rows[k], l, r) {
                    assert(js.contains(k));
                }
            }
            assert(meets(i, -1, l, r));
        }
        assert forall|x: int| 0 <= x < now.len() implies (#[trigger] now[x]).0 < i + 1 && meets(
            now[x].0,
            now[x].1,
            l,
            r,
        ) && extends(
            more[x],
            l.rows[now[x].0],
            if now[x].1 == -1 {
                seq![]
            } else {
                r.rows[now[x].1]
            },
            l,
            r,
        ) by {
            if x < before.len() {
                assert(now[x] == before[x] && more[x] == acc[x]);
            } else {
                let y = x - before.len();
                assert(now[x] == mine[y] && more[x] == own[y]);
                if js.len() > 0 {
                    assert(mine[y] == (i, js[y]));
                }
            }
        }
        assert forall|a: int, b: int| a < i + 1 && #[trigger] meets(a, b, l, r) implies now.contains(
            (a, b),
        ) by {
            if a < i {
                let x = choose|x: int| 0 <= x < before.len() && before[x] == (a, b);
                assert(now[x] == (a, b));
            } else if b == -1 {
                if js.len() > 0 {
                    assert(!agree(l.rows[i], r.rows[js[0]], l, r));
                }
                assert(mine[0] == (i, -1int));
                assert(now[before.len() as int] == (a, b));
            } else {
                assert(agree(l.rows[i], r.rows[b], l, r));
                assert(js.contains(b));
                let y = choose|y: int| 0 <= y < js.len() && js[y] == b;
                assert(mine[y] == (i, b));
                assert(now[before.len() + y] == (a, b));
            }
        }
        assert(in_turn(now)) by {
            assert forall|x: int, y: int| 0 <= x < y < now.len() implies (#[trigger] now[x]).0 < (
            #[trigger] now[y]).0 || (now[x].0 == now[y].0 && now[x].1 < now[y].1) by {
                if y < before.len() {
                    assert(before[x].0 < before[y].0 || (before[x].0 == before[y].0 && before[x].1
                        < before[y].1));
                } else if x < before.len() {
                    assert(now[x] == before[x]);
                    assert(now[y] == mine[y - before.len()]);
                } else {
                    let x2 = x - before.len();
                    let y2 = y - before.len();
                    assert(now[x] == mine[x2] && now[y] == mine[y2]);
                    assert(js[x2] < js[y2]);
                }
            }
        }
        lemma_joined(l, r, i + 1, more, now)
    } else {
        before
    }
}

// ---------------------------------------------------------------------------
// Patterns side by side
// ---------------------------------------------------------------------------

/// A row holds what two rows hold; where both have a variable, what the second
/// has.
pub open spec fn unites(out: RecV, a: RecV, b: RecV) -> bool {
    forall|c: Seq<char>| #[trigger]
        assoc::lookup(out, c) == match assoc::lookup(b, c) {
            Some(v) => Some(v),
            None => assoc::lookup(a, c),
        }
}

/// Patterns without a connection give each row of the one with each row of the
/// other, once, in the order of the first and then of the second.
pub proof fn lemma_product(p: PlanV, l: TableV, r: TableV)
    requires
        p is CartesianProduct,
        forall|i: int| 0 <= i < r.rows.len() ==> assoc::distinct_keys(#[trigger] r.rows[i]),
    ensures
        executor::combined(p, l, r) matches Ok(out) && out.rows.len() == l.rows.len() * r.rows.len()
            && (forall|i: int, j: int|
            0 <= i < l.rows.len() && 0 <= j < r.rows.len() ==> unites(
                out.rows[i * r.rows.len() + j],
                #[trigger] l.rows[i],
                #[trigger] r.rows[j],
            )) && (forall|c: Seq<char>| #[trigger]
            out.cols.contains(c) <==> l.cols.contains(c) || r.cols.contains(c)),
{
    joins::lemma_product_len(l, r);
    lemma_product_rows(l.rows, 0, r.rows, seq![]);
    lemma_with_cols(l.cols, r.cols, 0);
    let cols = joins::with_cols(l.cols, r.cols, 0);
    assert forall|c: Seq<char>| #[trigger] cols.contains(c) <==> l.cols.contains(c)
        || r.cols.contains(c) by {
        if r.cols.contains(c) {
            let k = choose|k: int| 0 <= k < r.cols.len() && r.cols[k] == c;
            assert(later(r.cols, 0, c));
        }
    }
}

pub proof fn lemma_with_col(cols: Seq<Seq<char>>, x: Seq<char>)
    ensures
        ({
            let out = crate::rows::with_col(cols, x);
            forall|c: Seq<char>| #[trigger] out.contains(c) <==> cols.contains(c) || c == x
        }),
{
    lemma_has(cols, x);
    let out = crate::rows::with_col(cols, x);
    assert forall|c: Seq<char>| #[trigger] out.contains(c) <==> cols.contains(c) || c == x by {
        if !cols.contains(x) {
            if cols.contains(c) {
                let k = choose|k: int| 0 <= k < cols.len() && cols[k] == c;
                assert(out[k] == c);
            }
            if c == x {
                assert(out[cols.len() as int] == c);
            }
        }
    }
}

proof fn lemma_with_cols(cols: Seq<Seq<char>>, more: Seq<Seq<char>>, i: int)
    requires
        0 <= i <= more.len(),
    ensures
        ({
            let out = joins::with_cols(cols, more, i);
            forall|c: Seq<char>| #[trigger]
                out.contains(c) <==> cols.contains(c) || later(more, i, c)
        }),
    decreases more.len() - i,
{
    if i < more.len() {
        lemma_with_col(cols, more[i]);
        let next = crate::rows::with_col(cols, more[i]);
        lemma_with_cols(next, more, i + 1);
        let out = joins::with_cols(cols, more, i);
        assert forall|c: Seq<char>| #[trigger]
            out.contains(c) <==> cols.contains(c) || later(more, i, c) by {
            lemma_later(more, i, c);
            assert(out == joins::with_cols(next, more, i + 1));
            assert(next.contains(c) <==> cols.contains(c) || c == more[i]);
        }
    }
}

/// The bindings that are made later hold.
pub proof fn lemma_bind_all<W>(m: Seq<(Seq<char>, W)>, n: Seq<(Seq<char>, W)>, c: Seq<char>)
    requires
        assoc::distinct_keys(n),
    ensures
        assoc::lookup(assoc::bind_all(m, n), c) == match assoc::lookup(n, c) {
            Some(v) => Some(v),
            None => assoc::lookup(m, c),
        },
{
    lemma_bind_from(m, n, 0, c);
}

proof fn lemma_bind_from<W>(m: Seq<(Seq<char>, W)>, n: Seq<(Seq<char>, W)>, i: int, c: Seq<char>)
    requires
        assoc::distinct_keys(n),
        0 <= i <= n.len(),
    ensures
        assoc::lookup(assoc::bind_all_from(m, n, i), c) == match assoc::position_from(n, c, i) {
            Some(p) => Some(n[p].1),
            None => assoc::lookup(m, c),
        },
    decreases n.len() - i,
{
    if i < n.len() {
        let next = assoc::bind(m, n[i].0, n[i].1);
        lemma_bind_from(next, n, i + 1, c);
        assoc::lemma_lookup_bind(m, n[i].0, n[i].1, c);
        assoc::lemma_position(n, c, i + 1);
        if n[i].0 == c {
            match assoc::position_from(n, c, i + 1) {
                Some(p) => {
                    assert(n[i].0 != n[p].0);
                },
                None => {},
            }
        }
    }
}

proof fn lemma_row_product(l: RecV, right: Seq<RecV>, j: int, acc: Seq<RecV>)
    requires
        0 <= j <= right.len(),
    ensures
        ({
            let out = joins::row_product(l, right, j, acc);
            &&& out.len() == acc.len() + (right.len() - j)
            &&& forall|k: int| 0 <= k < acc.len() ==> #[trigger] out[k] == acc[k]
            &&& forall|k: int|
                j <= k < right.len() ==> out[acc.len() + (k - j)] == assoc::bind_all(
                    l,
                    #[trigger] right[k],
                )
        }),
    decreases right.len() - j,
{
    if j < right.len() {
        let next = acc.push(assoc::bind_all(l, right[j]));
        lemma_row_product(l, right, j + 1, next);
        let out = joins::row_product(l, right, j, acc);
        assert forall|k: int| j <= k < right.len() implies out[acc.len() + (k - j)]
            == assoc::bind_all(l, #[trigger] right[k]) by {
            if k == j {
                assert(out[acc.len() as int] == next[acc.len() as int]);
            } else {
                assert(acc.len() + (k - j) == next.len() + (k - (j + 1)));
            }
        }
        assert forall|k: int| 0 <= k < acc.len() implies #[trigger] out[k] == acc[k] by {
            assert(next[k] == acc[k]);
        }
    }
}

proof fn lemma_product_rows(left: Seq<RecV>, i: int, right: Seq<RecV>, acc: Seq<RecV>)
    requires
        0 <= i <= left.len(),
        acc.len() == i * right.len(),
        forall|k: int| 0 <= k < right.len() ==> assoc::distinct_keys(#[trigger] right[k]),
        forall|a: int, b: int|
            0 <= a < i && 0 <= b < right.len() ==> unites(
                acc[a * right.len() + b],
                #[trigger] left[a],
                #[trigger] right[b],
            ),
    ensures
        ({
            let out = joins::product_rows(left, i, right, acc);
            forall|a: int, b: int|
                0 <= a < left.len() && 0 <= b < right.len() ==> unites(
                    out[a * right.len() + b],
                    #[trigger] left[a],
                    #[trigger] right[b],
                )
        }),
    decreases left.len() - i,
{
    if i < left.len() {
        let n = right.len() as int;
        let next = joins::row_product(left[i], right, 0, acc);
        lemma_row_product(left[i], right, 0, acc);
        assert((i + 1) * n == i * n + n) by (nonlinear_arith);
        assert forall|a: int, b: int| 0 <= a < i + 1 && 0 <= b < right.len() implies unites(
            next[a * right.len() + b],
            #[trigger] left[a],
            #[trigger] right[b],
        ) by {
            if a < i {
                assert(0 <= a * n + b < i * n) by (nonlinear_arith)
                    requires
                        0 <= a < i,
                        0 <= b < n,
                ;
                assert(next[a * n + b] == acc[a * n + b]);
            } else {
                assert(next[acc.len() + (b - 0)] == assoc::bind_all(left[i], right[b]));
                assert forall|c: Seq<char>| #[trigger]
                    assoc::lookup(next[a * n + b], c) == match assoc::lookup(right[b], c) {
                        Some(v) => Some(v),
                        None => assoc::lookup(left[a], c),
                    } by {
                    lemma_bind_all(left[i], right[b], c);
                }
            }
        }
        lemma_product_rows(left, i + 1, right, next);
    }
}

// ---------------------------------------------------------------------------
// UNION
// ---------------------------------------------------------------------------

/// A row has, column by column, what another has in the columns of its own
/// table.
pub open spec fn stands_for(out: RecV, to: Seq<Seq<char>>, row: RecV, from: Seq<Seq<char>>) -> bool {
    forall|k: int| 0 <= k < to.len() ==> held(out, #[trigger] to[k]) == held(row, from[k])
}

/// UNION ALL gives the rows of the first table and then those of the second,
/// under the names of the first, column by column; tables that differ in the
/// number of their columns are refused.
pub proof fn lemma_union_all(p: PlanV, l: TableV, r: TableV)
    requires
        p is Union && p->all,
        forall|i: int, j: int|
            0 <= i < j < l.cols.len() ==> #[trigger] l.cols[i] != #[trigger] l.cols[j],
    ensures
        l.cols.len() != r.cols.len() ==> executor::combined(p, l, r) is Err,
        l.cols.len() == r.cols.len() ==> (executor::combined(p, l, r) matches Ok(out) && out.cols
            == l.cols && out.rows.len() == l.rows.len() + r.rows.len() && (forall|i: int|
            0 <= i < l.rows.len() ==> out.rows[i] == #[trigger] l.rows[i]) && (forall|i: int|
            0 <= i < r.rows.len() ==> stands_for(
                out.rows[l.rows.len() + i],
                l.cols,
                #[trigger] r.rows[i],
                r.cols,
            ))),
{
    if l.cols.len() == r.cols.len() {
        let more = joins::renamed_rows(r.rows, r.cols, l.cols);
        assert forall|i: int| 0 <= i < r.rows.len() implies stands_for(
            (l.rows + more)[l.rows.len() + i],
            l.cols,
            #[trigger] r.rows[i],
            r.cols,
        ) by {
            lemma_renamed(r.rows[i], r.cols, l.cols, 0, seq![]);
            assert((l.rows + more)[l.rows.len() + i] == more[i]);
        }
    }
}

proof fn lemma_renamed(rec: RecV, from: Seq<Seq<char>>, to: Seq<Seq<char>>, i: int, acc: RecV)
    requires
        from.len() == to.len(),
        0 <= i <= to.len(),
        forall|a: int, b: int| 0 <= a < b < to.len() ==> #[trigger] to[a] != #[trigger] to[b],
        forall|k: int| 0 <= k < i ==> held(acc, #[trigger] to[k]) == held(rec, from[k]),
    ensures
        stands_for(joins::renamed(rec, from, to, i, acc), to, rec, from),
    decreases to.len() - i,
{
    if i < to.len() {
        let v = held(rec, from[i]);
        let next = assoc::bind(acc, to[i], v);
        assert forall|k: int| 0 <= k < i + 1 implies held(next, #[trigger] to[k]) == held(
            rec,
            from[k],
        ) by {
            assoc::lemma_lookup_bind(acc, to[i], v, to[k]);
            if k < i {
                assert(to[k] != to[i]);
            }
        }
        lemma_renamed(rec, from, to, i + 1, next);
    }
}

/// Two rows are alike in the columns of a table.
pub open spec fn same_row(a: RecV, b: RecV, cols: Seq<Seq<char>>) -> bool {
    forall|k: int| 0 <= k < cols.len() ==> identity::alike(held(a, #[trigger] cols[k]), held(b, cols[k]))
}

/// Rows are others without repetition: each was there, no two are alike in the
/// columns, and each of the others is like one that is kept.
pub open spec fn without_repetition(out: Seq<RecV>, rs: Seq<RecV>, cols: Seq<Seq<char>>) -> bool {
    &&& forall|i: int| 0 <= i < out.len() ==> rs.contains(#[trigger] out[i])
    &&& forall|i: int, j: int|
        0 <= i < j < out.len() ==> !same_row(#[trigger] out[i], #[trigger] out[j], cols)
    &&& forall|i: int|
        0 <= i < rs.len() ==> exists|j: int|
            0 <= j < out.len() && same_row(#[trigger] out[j], #[trigger] rs[i], cols)
}

/// UNION gives the rows of UNION ALL without repetition.
pub proof fn lemma_union_distinct(p: PlanV, q: PlanV, l: TableV, r: TableV)
    requires
        p is Union && !p->all,
        q is Union && q->all,
        l.cols.len() == r.cols.len(),
        executor::combined(q, l, r) matches Ok(t) && all_plain(t.rows),
    ensures
        executor::combined(p, l, r) matches Ok(out) && executor::combined(q, l, r) matches Ok(t)
            && out.cols == t.cols && without_repetition(out.rows, t.rows, t.cols),
{
    let t = executor::combined(q, l, r)->Ok_0;
    lemma_distinct(t.rows, l.cols);
}

/// What is kept of rows in DISTINCT is those rows without repetition.
pub proof fn lemma_distinct(rs: Seq<RecV>, cols: Seq<Seq<char>>)
    requires
        all_plain(rs),
    ensures
        without_repetition(
            keying::distinct_rows(rs, cols, 0, seq![], seq![]),
            rs,
            cols,
        ),
{
    let out = keying::distinct_rows(rs, cols, 0, seq![], seq![]);
    assert forall|a: int| 0 <= a < rs.len() implies laws::plain_row(#[trigger] rs[a], cols) by {
        assert forall|k: int| 0 <= k < cols.len() implies identity::plainly_keyed(
            #[trigger] keying::columns_of(rs[a], cols)[k],
        ) by {
            assert(keying::columns_of(rs[a], cols)[k] == held(rs[a], cols[k]));
        }
    }
    laws::lemma_distinct_rows(rs, cols);
    assert forall|i: int, j: int| 0 <= i < j < out.len() implies !same_row(
        #[trigger] out[i],
        #[trigger] out[j],
        cols,
    ) by {
        assert(!laws::rows_alike(out[i], out[j], cols));
        lemma_same_row(out[i], out[j], cols);
    }
    assert forall|i: int| 0 <= i < rs.len() implies exists|j: int|
        0 <= j < out.len() && same_row(#[trigger] out[j], #[trigger] rs[i], cols) by {
        assert(laws::is_like_one(rs[i], out, cols));
        let b = choose|b: int|
            0 <= b < out.len() && laws::rows_alike(#[trigger] out[b], rs[i], cols);
        lemma_same_row(out[b], rs[i], cols);
    }
}

proof fn lemma_same_row(a: RecV, b: RecV, cols: Seq<Seq<char>>)
    ensures
        same_row(a, b, cols) <==> laws::rows_alike(a, b, cols),
{
    let u = keying::columns_of(a, cols);
    let v = keying::columns_of(b, cols);
    if same_row(a, b, cols) {
        assert forall|k: int| 0 <= k < u.len() implies identity::alike(#[trigger] u[k], v[k]) by {
            assert(u[k] == held(a, cols[k]) && v[k] == held(b, cols[k]));
        }
    }
    if laws::rows_alike(a, b, cols) {
        assert forall|k: int| 0 <= k < cols.len() implies identity::alike(
            held(a, #[trigger] cols[k]),
            held(b, cols[k]),
        ) by {
            assert(identity::alike(u[k], v[k]));
        }
    }
}

} // verus!

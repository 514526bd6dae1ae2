use vstd::prelude::*;
use vstd::set_lib::{lemma_int_range, lemma_len_subset, set_int_range};

use crate::bitset::BitSet;
use crate::grid::{allowed, candidates, completes, has_conflict, holds, is_full, is_solved, peers, valid_cells, SudokuGrid};

verus! {

/// How a search ended.
#[derive(Debug, PartialEq, Eq, Clone, Copy)]
pub enum SolveOutcome {
    /// Every cell holds a value.
    Solved,
    /// Every branch was tried and none filled the grid.
    NoSolution,
}

/// One choice of the search: the cell, its candidates just before, the value
/// placed there, and the peers whose candidates lost that value.
struct Decision {
    cell: usize,
    constraint: BitSet,
    value: u8,
    related: Vec<usize>,
}

/// The givens with the first `k` decisions of `h` placed on them.
spec fn eff(g0: Seq<Option<u8>>, h: Seq<Decision>, k: int) -> Seq<Option<u8>>
    decreases k,
{
    if k <= 0 {
        g0
    } else {
        eff(g0, h, k - 1).update(h[k - 1].cell as int, Some(h[k - 1].value))
    }
}

/// Every value of `e` stands in `e2` too.
spec fn extends(e: Seq<Option<u8>>, e2: Seq<Option<u8>>) -> bool {
    forall|i: int| 0 <= i < 81 && (#[trigger] e[i]) is Some ==> e2[i] == e[i]
}

/// The cell of `d` is empty in `e`, its value is a digit, and every value of
/// its candidates is free there.
spec fn choice_ok(e: Seq<Option<u8>>, d: Decision) -> bool {
    &&& d.cell < 81
    &&& e[d.cell as int] is None
    &&& 1 <= d.value <= 9
    &&& forall|v: nat| #[trigger] d.constraint@.contains(v) ==> 1 <= v <= 9 && allowed(e, d.cell as int, v)
    &&& d.constraint@ == candidates(e, d.cell as int)
}

/// Decision `k` was sound when it was taken.
spec fn decision_ok(g0: Seq<Option<u8>>, h: Seq<Decision>, k: int) -> bool {
    let ek = eff(g0, h, k);
    &&& choice_ok(ek, h[k])
    &&& forall|t: int|
        0 <= t < h[k].related@.len() ==> #[trigger] h[k].related@[t] < 81 && allowed(
            ek,
            h[k].related@[t] as int,
            h[k].value as nat,
        ) && peers(h[k].cell as int, h[k].related@[t] as int)
    &&& forall|p: int|
        0 <= p < 81 && #[trigger] peers(h[k].cell as int, p) && ek[p] is None && candidates(ek, p).contains(
            h[k].value as nat,
        ) ==> h[k].related@.contains(p as usize)
}

spec fn history_ok(g0: Seq<Option<u8>>, h: Seq<Decision>) -> bool {
    forall|k: int| 0 <= k < h.len() ==> #[trigger] decision_ok(g0, h, k)
}

/// The store holds candidates exactly for the empty cells of `e`, and each
/// candidate is free there.
spec fn store_ok(e: Seq<Option<u8>>, store: Seq<Option<BitSet>>) -> bool {
    &&& store.len() == 81
    &&& forall|i: int| 0 <= i < 81 ==> ((#[trigger] store[i]) is Some <==> e[i] is None)
    &&& forall|i: int, v: nat|
        0 <= i < 81 && store[i] is Some && #[trigger] store[i]->0@.contains(v) ==> 1 <= v <= 9
            && allowed(e, i, v)
    &&& forall|i: int| 0 <= i < 81 && (#[trigger] store[i]) is Some ==> store[i]->0@ == candidates(e, i)
}

/// `g` is a solution of `puzzle`: a full grid of digits without conflict
/// that keeps every given.
pub open spec fn is_solution_of(puzzle: Seq<Option<u8>>, g: Seq<Option<u8>>) -> bool {
    valid_cells(g) && is_solved(g) && completes(puzzle, g)
}

/// `s` holds the values of the first `k` decisions.
spec fn agrees(s: Seq<Option<u8>>, h: Seq<Decision>, k: int) -> bool {
    forall|j: int| 0 <= j < k ==> s[h[j].cell as int] == Some(#[trigger] h[j].value)
}

/// No solution was passed over: where a solution agrees with the decisions
/// before one, it holds that decision's value or a larger one there, and a
/// larger one than the value to resume after.
spec fn nothing_skipped(g0: Seq<Option<u8>>, h: Seq<Decision>, r: Option<Decision>) -> bool {
    forall|s: Seq<Option<u8>>|
        #[trigger] is_solution_of(g0, s) ==> {
            &&& forall|k: int|
                0 <= k < h.len() && #[trigger] agrees(s, h, k) ==> s[h[k].cell as int]->0 >= h[k].value
            &&& (r matches Some(d) ==> (agrees(s, h, h.len() as int) ==> s[d.cell as int]->0 > d.value))
        }
}

/// Placing `v` in the empty cell `c` takes `v` from the candidates of the
/// peers of `c`, and from no others.
proof fn lemma_candidates_after_place(e: Seq<Option<u8>>, c: int, v: u8, i: int)
    requires
        e.len() == 81,
        0 <= c < 81,
        0 <= i < 81,
        i != c,
        e[c] is None,
    ensures
        candidates(e.update(c, Some(v)), i) == if peers(c, i) {
            candidates(e, i).remove(v as nat)
        } else {
            candidates(e, i)
        },
{
    let e1 = e.update(c, Some(v));
    let rhs = if peers(c, i) { candidates(e, i).remove(v as nat) } else { candidates(e, i) };
    assert forall|u: nat| #[trigger] candidates(e1, i).contains(u) == rhs.contains(u) by {
        if candidates(e1, i).contains(u) {
            assert forall|j: int| 0 <= j < 81 && #[trigger] peers(i, j) implies !holds(e, j, u) by {
                if j != c {
                    assert(e1[j] == e[j]);
                }
            }
            if peers(c, i) && u == v as nat {
                assert(peers(i, c));
                assert(holds(e1, c, u));
            }
        }
        if rhs.contains(u) {
            assert forall|j: int| 0 <= j < 81 && #[trigger] peers(i, j) implies !holds(e1, j, u) by {
                if j == c {
                    assert(peers(c, i));
                } else {
                    assert(e1[j] == e[j]);
                }
            }
        }
    }
    assert(candidates(e1, i) =~= rhs);
}

/// A solution that agrees with the decisions holds every placed value.
proof fn lemma_solution_extends(g0: Seq<Option<u8>>, h: Seq<Decision>, k: int, s: Seq<Option<u8>>)
    requires
        g0.len() == 81,
        history_ok(g0, h),
        0 <= k <= h.len(),
        is_solution_of(g0, s),
        agrees(s, h, k),
    ensures
        extends(eff(g0, h, k), s),
    decreases k,
{
    if k > 0 {
        assert(agrees(s, h, k - 1)) by {
            assert forall|j: int| 0 <= j < k - 1 implies s[h[j].cell as int] == Some(#[trigger] h[j].value) by {
                assert(s[h[j].cell as int] == Some(h[j].value));
            }
        }
        lemma_solution_extends(g0, h, k - 1, s);
        lemma_eff_len(g0, h, k - 1);
        assert(decision_ok(g0, h, k - 1));
        assert(s[h[k - 1].cell as int] == Some(h[k - 1].value));
        let e = eff(g0, h, k - 1);
        assert(eff(g0, h, k) == e.update(h[k - 1].cell as int, Some(h[k - 1].value)));
        assert forall|i: int| 0 <= i < 81 && (#[trigger] eff(g0, h, k)[i]) is Some implies s[i] == eff(g0, h, k)[i] by {
            if i != h[k - 1].cell as int {
                assert(eff(g0, h, k)[i] == e[i]);
            }
        }
    } else {
        assert(eff(g0, h, 0) == g0);
        assert forall|i: int| 0 <= i < 81 && (#[trigger] eff(g0, h, 0)[i]) is Some implies s[i] == eff(g0, h, 0)[i] by {
            assert(g0[i] is Some);
        }
    }
}

/// Each empty cell's value in such a solution is one of its candidates.
proof fn lemma_solution_is_candidate(g0: Seq<Option<u8>>, h: Seq<Decision>, s: Seq<Option<u8>>, i: int)
    requires
        g0.len() == 81,
        history_ok(g0, h),
        is_solution_of(g0, s),
        agrees(s, h, h.len() as int),
        0 <= i < 81,
        eff(g0, h, h.len() as int)[i] is None,
    ensures
        s[i] is Some,
        candidates(eff(g0, h, h.len() as int), i).contains(s[i]->0 as nat),
{
    let e = eff(g0, h, h.len() as int);
    lemma_solution_extends(g0, h, h.len() as int, s);
    assert(s[i] is Some);
    let w = s[i]->0 as nat;
    assert forall|j: int| 0 <= j < 81 && #[trigger] peers(i, j) implies !holds(e, j, w) by {
        if holds(e, j, w) {
            assert(s[j] == e[j]);
            assert(s[i] == s[j]);
            assert(has_conflict(s));
        }
    }
}

/// Two peers share a value only where both are givens.
spec fn no_new_conflict(g0: Seq<Option<u8>>, e: Seq<Option<u8>>) -> bool {
    forall|i: int, j: int|
        0 <= i < 81 && 0 <= j < 81 && peers(i, j) && e[i] is Some && #[trigger] e[i] == #[trigger] e[j]
            ==> g0[i] is Some && g0[j] is Some
}

/// Digit `k` of the search position: a placed value, a value to resume
/// after, or an untouched depth.
spec fn digit(h: Seq<Decision>, r: Option<Decision>, k: int) -> int {
    if k < h.len() {
        2 * (9 - h[k].value) + 1
    } else if k == h.len() && r is Some {
        2 * (9 - r->0.value)
    } else {
        18
    }
}

spec fn digits(h: Seq<Decision>, r: Option<Decision>) -> Seq<int> {
    Seq::new(81, |k: int| digit(h, r, k))
}

/// The digits read as a number in base 19.
spec fn horner(s: Seq<int>) -> int
    decreases s.len(),
{
    if s.len() == 0 {
        0
    } else {
        horner(s.drop_last()) * 19 + s.last()
    }
}

proof fn lemma_horner_nonneg(s: Seq<int>)
    requires
        forall|i: int| 0 <= i < s.len() ==> 0 <= #[trigger] s[i],
    ensures
        horner(s) >= 0,
    decreases s.len(),
{
    if s.len() > 0 {
        lemma_horner_nonneg(s.drop_last());
    }
}

/// Base-19 numbers of equal length compare as their first differing digit.
proof fn lemma_horner_lex(a: Seq<int>, b: Seq<int>, k: int)
    requires
        a.len() == b.len(),
        0 <= k < a.len(),
        forall|i: int| 0 <= i < k ==> a[i] == b[i],
        a[k] < b[k],
        forall|i: int| 0 <= i < a.len() ==> 0 <= #[trigger] a[i] <= 18,
        forall|i: int| 0 <= i < b.len() ==> 0 <= #[trigger] b[i] <= 18,
    ensures
        horner(a) < horner(b),
    decreases a.len(),
{
    let n = a.len();
    lemma_horner_nonneg(b.drop_last());
    if k == n - 1 {
        assert(a.drop_last() =~= b.drop_last());
    } else {
        lemma_horner_lex(a.drop_last(), b.drop_last(), k);
    }
}

proof fn lemma_eff_len(g0: Seq<Option<u8>>, h: Seq<Decision>, k: int)
    requires
        k <= h.len(),
        g0.len() == 81,
        history_ok(g0, h),
    ensures
        eff(g0, h, k).len() == 81,
    decreases k,
{
    if k > 0 {
        lemma_eff_len(g0, h, k - 1);
        assert(decision_ok(g0, h, k - 1));
    }
}

/// Histories that agree on their first `k` decisions place the same values.
proof fn lemma_eff_prefix(g0: Seq<Option<u8>>, h1: Seq<Decision>, h2: Seq<Decision>, k: int)
    requires
        0 <= k <= h1.len(),
        k <= h2.len(),
        forall|j: int| 0 <= j < k ==> h1[j] == h2[j],
    ensures
        eff(g0, h1, k) == eff(g0, h2, k),
    decreases k,
{
    if k > 0 {
        lemma_eff_prefix(g0, h1, h2, k - 1);
    }
}

/// Later decisions only fill cells that are still empty.
proof fn lemma_eff_mono(g0: Seq<Option<u8>>, h: Seq<Decision>, k: int, m: int)
    requires
        0 <= k <= m <= h.len(),
        g0.len() == 81,
        history_ok(g0, h),
    ensures
        extends(eff(g0, h, k), eff(g0, h, m)),
    decreases m - k,
{
    if k < m {
        lemma_eff_mono(g0, h, k, m - 1);
        assert(decision_ok(g0, h, m - 1));
        lemma_eff_len(g0, h, m - 1);
        lemma_eff_len(g0, h, k);
        let e = eff(g0, h, m - 1);
        let e2 = eff(g0, h, m);
        assert(e2 == e.update(h[m - 1].cell as int, Some(h[m - 1].value)));
        assert forall|i: int| 0 <= i < 81 && (#[trigger] eff(g0, h, k)[i]) is Some implies e2[i] == eff(g0, h, k)[i] by {
            assert(e[i] == eff(g0, h, k)[i]);
        }
    }
}

/// The cells of the decisions, and one more empty cell, are distinct cells
/// of the grid, so there are fewer than 81 decisions.
proof fn lemma_depth_bound(g0: Seq<Option<u8>>, h: Seq<Decision>, target: int)
    requires
        g0.len() == 81,
        history_ok(g0, h),
        0 <= target < 81,
        eff(g0, h, h.len() as int)[target] is None,
    ensures
        h.len() < 81,
{
    let n = h.len() as int;
    let s = Seq::new((n + 1) as nat, |k: int| if k < n { h[k].cell as int } else { target });
    assert forall|a: int, b: int| 0 <= a < b < s.len() implies s[a] != s[b] by {
        assert(decision_ok(g0, h, a));
        lemma_eff_len(g0, h, a);
        let ca = h[a].cell as int;
        let ea1 = eff(g0, h, a + 1);
        assert(ea1 == eff(g0, h, a).update(ca, Some(h[a].value)));
        assert(ea1[ca] is Some);
        if b < n {
            assert(decision_ok(g0, h, b));
            lemma_eff_mono(g0, h, a + 1, b);
            assert(eff(g0, h, b)[ca] is Some);
        } else {
            lemma_eff_mono(g0, h, a + 1, n);
            assert(eff(g0, h, n)[ca] is Some);
        }
    }
    assert(s.no_duplicates());
    s.unique_seq_to_set();
    lemma_int_range(0, 81);
    assert forall|x: int| s.to_set().contains(x) implies set_int_range(0, 81).contains(x) by {
        let i = choose|i: int| 0 <= i < s.len() && s[i] == x;
        if i < n {
            assert(decision_ok(g0, h, i));
        }
    }
    assert(s.to_set().subset_of(set_int_range(0, 81)));
    lemma_len_subset(s.to_set(), set_int_range(0, 81));
}

/// Everything the search keeps true between steps: the store matches the
/// placed values, the grid shows them, and they clash only among givens.
spec fn search_ok(
    g0: Seq<Option<u8>>,
    grid: Seq<Option<u8>>,
    store: Seq<Option<BitSet>>,
    h: Seq<Decision>,
    r: Option<Decision>,
) -> bool {
    let e = eff(g0, h, h.len() as int);
    &&& valid_cells(g0)
    &&& valid_cells(grid)
    &&& history_ok(g0, h)
    &&& store_ok(e, store)
    &&& forall|i: int| 0 <= i < 81 && (#[trigger] e[i]) is Some ==> grid[i] == e[i]
    &&& no_new_conflict(g0, e)
    &&& (r matches Some(d) ==> choice_ok(e, d))
    &&& (is_full(g0) ==> h.len() == 0 && r is None)
    &&& nothing_skipped(g0, h, r)
}

proof fn lemma_digits_bounded(g0: Seq<Option<u8>>, h: Seq<Decision>, r: Option<Decision>)
    requires
        history_ok(g0, h),
        r matches Some(d) ==> 1 <= d.value <= 9,
    ensures
        forall|i: int| 0 <= i < 81 ==> 0 <= #[trigger] digits(h, r)[i] <= 18,
        horner(digits(h, r)) >= 0,
{
    assert forall|i: int| 0 <= i < 81 implies 0 <= #[trigger] digits(h, r)[i] <= 18 by {
        if i < h.len() {
            assert(decision_ok(g0, h, i));
        }
    }
    lemma_horner_nonneg(digits(h, r));
}

/// The first value from `start` on that `cands` holds, or 10 if there is none.
fn first_candidate(cands: &BitSet, start: u8) -> (v: u8)
    requires
        start <= 10,
    ensures
        start <= v <= 10,
        v < 10 ==> cands@.contains(v as nat),
        forall|u: nat| start <= u < v ==> !cands@.contains(u),
{
    let mut v: u8 = start;
    while v < 10 && !cands.contains(v)
        invariant
            start <= v <= 10,
            forall|u: nat| start <= u < v ==> !cands@.contains(u),
        decreases 10 - v,
    {
        v = v + 1;
    }
    v
}

/// The first cell, in row-major order, with the fewest candidates.
fn find_smallest_constraint(store: &Vec<Option<BitSet>>) -> (r: Option<(usize, BitSet)>)
    requires
        store@.len() == 81,
    ensures
        r is None <==> forall|i: int| 0 <= i < 81 ==> (#[trigger] store@[i]) is None,
        r matches Some((c, s)) ==> {
            &&& c < 81
            &&& store@[c as int] == Some(s)
            &&& forall|j: int| 0 <= j < 81 && (#[trigger] store@[j]) is Some ==> s@.len() <= store@[j]->0@.len()
            &&& forall|j: int| 0 <= j < c && (#[trigger] store@[j]) is Some ==> s@.len() < store@[j]->0@.len()
        },
{
    let mut best: Option<(usize, BitSet)> = None;
    let mut best_len: usize = 0;
    let mut j: usize = 0;
    while j < 81
        invariant
            store@.len() == 81,
            j <= 81,
            best is None <==> forall|i: int| 0 <= i < j ==> (#[trigger] store@[i]) is None,
            best matches Some((c, s)) ==> {
                &&& c < j
                &&& store@[c as int] == Some(s)
                &&& best_len == s@.len()
                &&& forall|i: int| 0 <= i < j && (#[trigger] store@[i]) is Some ==> s@.len() <= store@[i]->0@.len()
                &&& forall|i: int| 0 <= i < c && (#[trigger] store@[i]) is Some ==> s@.len() < store@[i]->0@.len()
            },
        decreases 81 - j,
    {
        if let Some(s) = store[j] {
            let n = s.len();
            match best {
                Some(_) => {
                    if n < best_len {
                        best = Some((j, s));
                        best_len = n;
                    }
                },
                None => {
                    best = Some((j, s));
                    best_len = n;
                },
            }
        }
        j = j + 1;
    }
    best
}

/// Whether distinct cells `i` and `j` share a row, a column or a box.
fn is_peer(i: usize, j: usize) -> (r: bool)
    requires
        i < 81,
        j < 81,
    ensures
        r == peers(i as int, j as int),
{
    i != j && (i / 9 == j / 9 || i % 9 == j % 9 || i / 9 / 3 * 3 + i % 9 / 3 == j / 9 / 3 * 3 + j % 9 / 3)
}

/// Removes `value` from the candidates of the peers of `cell`, and returns
/// the peers that held it.
fn reduce_related_constraints(cell: usize, value: u8, store: &mut Vec<Option<BitSet>>) -> (related: Vec<usize>)
    requires
        old(store)@.len() == 81,
        cell < 81,
        value < 16,
    ensures
        final(store)@.len() == 81,
        forall|i: int| 0 <= i < 81 ==> ((#[trigger] final(store)@[i]) is Some <==> old(store)@[i] is Some),
        forall|i: int|
            0 <= i < 81 && (#[trigger] final(store)@[i]) is Some ==> final(store)@[i]->0@ == if peers(cell as int, i) {
                old(store)@[i]->0@.remove(value as nat)
            } else {
                old(store)@[i]->0@
            },
        forall|t: int|
            0 <= t < related@.len() ==> {
                let p = #[trigger] related@[t] as int;
                &&& p < 81
                &&& peers(cell as int, p)
                &&& old(store)@[p] is Some
                &&& old(store)@[p]->0@.contains(value as nat)
            },
        forall|i: int|
            0 <= i < 81 && peers(cell as int, i) && (#[trigger] old(store)@[i]) is Some && old(store)@[i]->0@.contains(
                value as nat,
            ) ==> related@.contains(i as usize),
{
    let ghost s0 = store@;
    let mut related: Vec<usize> = Vec::new();
    let mut j: usize = 0;
    while j < 81
        invariant
            j <= 81,
            cell < 81,
            value < 16,
            store@.len() == 81,
            s0.len() == 81,
            forall|i: int| 0 <= i < 81 ==> ((#[trigger] store@[i]) is Some <==> s0[i] is Some),
            forall|i: int| j <= i < 81 ==> #[trigger] store@[i] == s0[i],
            forall|i: int|
                0 <= i < j && (#[trigger] store@[i]) is Some ==> store@[i]->0@ == if peers(cell as int, i) {
                    s0[i]->0@.remove(value as nat)
                } else {
                    s0[i]->0@
                },
            forall|t: int|
                0 <= t < related@.len() ==> {
                    let p = #[trigger] related@[t] as int;
                    &&& p < 81
                    &&& peers(cell as int, p)
                    &&& s0[p] is Some
                    &&& s0[p]->0@.contains(value as nat)
                },
            forall|i: int|
                0 <= i < j && peers(cell as int, i) && (#[trigger] s0[i]) is Some && s0[i]->0@.contains(value as nat)
                    ==> related@.contains(i as usize),
        decreases 81 - j,
    {
        let ghost rel0 = related@;
        if is_peer(cell, j) {
            if let Some(s) = store[j] {
                if s.contains(value) {
                    let mut t = s;
                    t.remove(value);
                    store.set(j, Some(t));
                    related.push(j);
                    assert(related@[related@.len() - 1] == j);
                } else {
                    assert(s@.remove(value as nat) =~= s@);
                }
            }
        }
        proof {
            assert forall|i: int|
                0 <= i < j + 1 && peers(cell as int, i) && (#[trigger] s0[i]) is Some && s0[i]->0@.contains(
                    value as nat,
                ) implies related@.contains(i as usize) by {
                if i < j {
                    let t = choose|t: int| 0 <= t < rel0.len() && rel0[t] == i as usize;
                    assert(related@[t] == i as usize);
                } else {
                    assert(related@[related@.len() - 1] == j);
                }
            }
        }
        j = j + 1;
    }
    related
}

/// Puts `value` back among the candidates of each listed cell that still has some.
fn reinsert_related_constraints(related: &Vec<usize>, value: u8, store: &mut Vec<Option<BitSet>>)
    requires
        old(store)@.len() == 81,
        value < 16,
        forall|t: int| 0 <= t < related@.len() ==> #[trigger] related@[t] < 81,
    ensures
        final(store)@.len() == 81,
        forall|i: int| 0 <= i < 81 ==> ((#[trigger] final(store)@[i]) is Some <==> old(store)@[i] is Some),
        forall|i: int|
            0 <= i < 81 && (#[trigger] final(store)@[i]) is Some ==> final(store)@[i]->0@ == if related@.contains(
                i as usize,
            ) {
                old(store)@[i]->0@.insert(value as nat)
            } else {
                old(store)@[i]->0@
            },
{
    let ghost s0 = store@;
    let mut t: usize = 0;
    while t < related.len()
        invariant
            t <= related@.len(),
            value < 16,
            forall|k: int| 0 <= k < related@.len() ==> #[trigger] related@[k] < 81,
            store@.len() == 81,
            s0.len() == 81,
            forall|i: int| 0 <= i < 81 ==> ((#[trigger] store@[i]) is Some <==> s0[i] is Some),
            forall|i: int|
                0 <= i < 81 && (#[trigger] store@[i]) is Some ==> store@[i]->0@ == if related@.subrange(
                    0,
                    t as int,
                ).contains(i as usize) {
                    s0[i]->0@.insert(value as nat)
                } else {
                    s0[i]->0@
                },
        decreases related@.len() - t,
    {
        let i = related[t];
        let ghost before = store@;
        if let Some(s) = store[i] {
            let mut u = s;
            u.insert(value);
            store.set(i, Some(u));
        }
        proof {
            let sub = related@.subrange(0, t as int);
            let sub1 = related@.subrange(0, t + 1);
            assert(sub1 =~= sub.push(i));
            assert forall|k: int| 0 <= k < 81 && (#[trigger] store@[k]) is Some implies store@[k]->0@ == if sub1.contains(
                k as usize,
            ) {
                s0[k]->0@.insert(value as nat)
            } else {
                s0[k]->0@
            } by {
                if k == i as int {
                    assert(sub1[t as int] == i);
                    assert(sub1.contains(i));
                    if sub.contains(i) {
                        assert(before[k]->0@.insert(value as nat) =~= before[k]->0@);
                    }
                } else {
                    assert(sub1.contains(k as usize) == sub.contains(k as usize));
                }
            }
        }
        t = t + 1;
    }
    assert(related@.subrange(0, related@.len() as int) =~= related@);
}

/// A puzzle free of conflicts that has exactly one solution is solved, and
/// to that solution: an outcome and grid that meet what `solve` ensures are
/// `Solved` and that one grid.
pub proof fn lemma_unique_solution_is_found(
    puzzle: Seq<Option<u8>>,
    solution: Seq<Option<u8>>,
    r: SolveOutcome,
    result: Seq<Option<u8>>,
)
    requires
        !has_conflict(puzzle),
        is_solution_of(puzzle, solution),
        forall|g: Seq<Option<u8>>| is_solution_of(puzzle, g) ==> g == solution,
        valid_cells(result),
        r == SolveOutcome::Solved ==> is_full(result),
        r == SolveOutcome::Solved ==> completes(puzzle, result),
        r == SolveOutcome::Solved && !has_conflict(puzzle) ==> !has_conflict(result),
        r == SolveOutcome::NoSolution ==> forall|g: Seq<Option<u8>>| !is_solution_of(puzzle, g),
    ensures
        r == SolveOutcome::Solved,
        result == solution,
        is_solved(result),
{
    if r == SolveOutcome::NoSolution {
        assert(!is_solution_of(puzzle, solution));
    }
    assert(is_solution_of(puzzle, result));
}

impl SudokuGrid {
    /// Fills the empty cells by depth-first search with forward checking:
    /// take the cell with the fewest candidates, try its values in increasing
    /// order, strike the value from its peers, and undo the latest choice when
    /// a cell runs out of values.
    pub fn solve(&mut self) -> (r: SolveOutcome)
        requires
            old(self).wf(),
        ensures
            final(self).wf(),
            r == SolveOutcome::Solved ==> is_full(final(self)@),
            r == SolveOutcome::Solved ==> completes(old(self)@, final(self)@),
            r == SolveOutcome::Solved && !has_conflict(old(self)@) ==> !has_conflict(final(self)@),
            is_full(old(self)@) ==> r == SolveOutcome::Solved && final(self)@ == old(self)@,
            r == SolveOutcome::NoSolution ==> forall|g: Seq<Option<u8>>| !is_solution_of(old(self)@, g),
    {
        let ghost g0 = self@;
        let mut store = self.get_constraints();
        let mut history: Vec<Decision> = Vec::new();
        let mut resume: Option<Decision> = None;
        proof {
            assert(eff(g0, history@, 0) == g0);
            assert(no_new_conflict(g0, g0));
        }
        loop
            invariant
                self.wf(),
                g0 == old(self)@,
                search_ok(g0, self@, store@, history@, resume),
            decreases horner(digits(history@, resume)),
        {
            let ghost h0 = history@;
            let ghost r0 = resume;
            let ghost n = h0.len() as int;
            let ghost e = eff(g0, h0, n);
            let ghost grid0 = self@;
            let ghost store0 = store@;
            proof {
                lemma_eff_len(g0, h0, n);
                lemma_eff_mono(g0, h0, 0, n);
                lemma_digits_bounded(g0, h0, r0);
            }
            let (cell, cands, start): (usize, BitSet, u8) = match resume {
                Some(d) => (d.cell, d.constraint, d.value + 1),
                None => match find_smallest_constraint(&store) {
                    None => {
                        proof {
                            assert forall|i: int| 0 <= i < 81 implies self@[i] == e[i] by {
                                assert(store@[i] is None);
                            }
                            assert(self@ =~= e);
                            assert forall|i: int| 0 <= i < 81 implies (#[trigger] self@[i]) is Some by {
                                assert(store@[i] is None);
                            }
                            assert forall|i: int| 0 <= i < 81 && (#[trigger] g0[i]) is Some implies self@[i] == g0[i] by {
                                assert(eff(g0, h0, 0) == g0);
                                assert(eff(g0, h0, 0)[i] == g0[i]);
                            }
                            if is_full(g0) {
                                assert(self@ =~= g0);
                            }
                            if !has_conflict(g0) && has_conflict(self@) {
                                let (i, j) = choose|i: int, j: int|
                                    0 <= i < 81 && 0 <= j < 81 && peers(i, j) && self@[i] is Some && #[trigger] self@[i]
                                        == #[trigger] self@[j];
                                assert(g0[i] is Some && g0[j] is Some);
                                assert(g0[i] == g0[j]);
                            }
                        }
                        return SolveOutcome::Solved;
                    },
                    Some((c, s)) => (c, s, 1),
                },
            };
            proof {
                assert(cell < 81);
                assert(e[cell as int] is None);
                assert(g0[cell as int] is None) by {
                    assert(eff(g0, h0, 0) == g0);
                }
                assert(!is_full(g0));
                lemma_depth_bound(g0, h0, cell as int);
                assert forall|u: nat| #[trigger] cands@.contains(u) implies 1 <= u <= 9 && allowed(e, cell as int, u) by {
                    if r0 is None {
                        assert(store0[cell as int]->0@.contains(u));
                    }
                }
                assert(cands@ == candidates(e, cell as int)) by {
                    if r0 is None {
                        assert(store0[cell as int] is Some);
                    }
                }
                assert(r0 is None ==> start == 1);
                assert(r0 matches Some(d) ==> start == d.value + 1);
            }
            let v = first_candidate(&cands, start);
            proof {
                assert forall|sol: Seq<Option<u8>>|
                    #[trigger] is_solution_of(g0, sol) && agrees(sol, h0, n) implies v < 10
                        && sol[cell as int] is Some && v <= sol[cell as int]->0 by {
                    lemma_solution_is_candidate(g0, h0, sol, cell as int);
                    let w = sol[cell as int]->0;
                    assert(candidates(e, cell as int).contains(w as nat));
                    assert(cands@.contains(w as nat));
                    if r0 is Some {
                        assert(nothing_skipped(g0, h0, r0));
                        assert(w > r0->0.value);
                    }
                    assert(start <= w);
                }
            }
            if v < 10 {
                let _ = self.set(cell / 9, cell % 9, v);
                let constraint = store[cell].unwrap();
                store.set(cell, None);
                let ghost store1 = store@;
                let related = reduce_related_constraints(cell, v, &mut store);
                let d = Decision { cell, constraint, value: v, related };
                history.push(d);
                resume = None;
                proof {
                    let h1 = history@;
                    assert(h1 == h0.push(d));
                    lemma_eff_prefix(g0, h0, h1, n);
                    let e1 = eff(g0, h1, n + 1);
                    assert(e1 == e.update(cell as int, Some(v)));
                    assert(self@ == grid0.update(cell as int, Some(v)));
                    assert forall|k: int| 0 <= k < h1.len() implies #[trigger] decision_ok(g0, h1, k) by {
                        if k < n {
                            assert(decision_ok(g0, h0, k));
                            lemma_eff_prefix(g0, h0, h1, k);
                            assert(h1[k] == h0[k]);
                        } else {
                            assert(h1[k] == d);
                            assert forall|u: nat| #[trigger] d.constraint@.contains(u) implies 1 <= u <= 9 && allowed(e, cell as int, u) by {
                                assert(store0[cell as int]->0@.contains(u));
                            }
                            assert(store0[cell as int] is Some);
                            assert(d.constraint@ == candidates(e, cell as int));
                            assert forall|p: int|
                                0 <= p < 81 && #[trigger] peers(cell as int, p) && e[p] is None && candidates(e, p).contains(
                                    v as nat,
                                ) implies d.related@.contains(p as usize) by {
                                assert(store0[p] is Some);
                                assert(store1[p] == store0[p]);
                                assert(store1[p]->0@.contains(v as nat));
                            }
                            assert forall|t: int| 0 <= t < d.related@.len() implies #[trigger] d.related@[t] < 81 && allowed(
                                e,
                                d.related@[t] as int,
                                v as nat,
                            ) by {
                                let p = d.related@[t] as int;
                                assert(store1[p]->0@.contains(v as nat));
                                assert(store0[p]->0@.contains(v as nat));
                            }
                        }
                    }
                    assert forall|i: int, u: nat|
                        0 <= i < 81 && store@[i] is Some && #[trigger] store@[i]->0@.contains(u) implies 1 <= u <= 9
                            && allowed(e1, i, u) by {
                        assert(i != cell as int);
                        assert(store0[i]->0@.contains(u));
                        assert forall|j: int| 0 <= j < 81 && #[trigger] peers(i, j) implies !holds(e1, j, u) by {
                            if j == cell as int {
                                assert(peers(cell as int, i));
                            }
                        }
                    }
                    assert forall|i: int| 0 <= i < 81 implies ((#[trigger] store@[i]) is Some <==> e1[i] is None) by {
                        if i != cell as int {
                            assert(store0[i] is Some <==> e[i] is None);
                        }
                    }
                    assert forall|i: int, j: int|
                        0 <= i < 81 && 0 <= j < 81 && peers(i, j) && e1[i] is Some && #[trigger] e1[i] == #[trigger] e1[j]
                            implies g0[i] is Some && g0[j] is Some by {
                        if i == cell as int {
                            assert(holds(e, j, v as nat));
                        } else if j == cell as int {
                            assert(peers(j, i));
                            assert(holds(e, i, v as nat));
                        } else {
                            assert(e[i] == e1[i] && e[j] == e1[j]);
                        }
                    }
                    assert forall|i: int| 0 <= i < 81 && (#[trigger] e1[i]) is Some implies self@[i] == e1[i] by {
                        if i != cell as int {
                            assert(e[i] is Some);
                        }
                    }
                    assert forall|i: int| 0 <= i < 81 && (#[trigger] store@[i]) is Some implies store@[i]->0@ == candidates(e1, i) by {
                        assert(i != cell as int);
                        assert(store0[i] is Some);
                        assert(store1[i] == store0[i]);
                        lemma_candidates_after_place(e, cell as int, v, i);
                    }
                    assert forall|sol: Seq<Option<u8>>| #[trigger] is_solution_of(g0, sol) implies {
                        &&& forall|k: int|
                            0 <= k < h1.len() && #[trigger] agrees(sol, h1, k) ==> sol[h1[k].cell as int]->0 >= h1[k].value
                        &&& (resume matches Some(dd) ==> (agrees(sol, h1, h1.len() as int) ==> sol[dd.cell as int]->0 > dd.value))
                    } by {
                        assert forall|k: int|
                            0 <= k < h1.len() && #[trigger] agrees(sol, h1, k) implies sol[h1[k].cell as int]->0 >= h1[k].value by {
                            assert(agrees(sol, h0, k)) by {
                                assert forall|j: int| 0 <= j < k implies sol[h0[j].cell as int] == Some(#[trigger] h0[j].value) by {
                                    assert(h1[j] == h0[j]);
                                    assert(sol[h1[j].cell as int] == Some(h1[j].value));
                                }
                            }
                            if k < n {
                                assert(nothing_skipped(g0, h0, r0));
                                assert(h1[k] == h0[k]);
                            }
                        }
                    }
                    assert(nothing_skipped(g0, h1, resume));
                    assert(search_ok(g0, self@, store@, history@, resume));
                    lemma_digits_bounded(g0, h1, None);
                    let a = digits(h1, None);
                    let b = digits(h0, r0);
                    assert forall|i: int| 0 <= i < n implies a[i] == b[i] by {
                        assert(h1[i] == h0[i]);
                    }
                    lemma_horner_lex(a, b, n);
                }
            } else {
                match history.pop() {
                    None => {
                        proof {
                            assert forall|g: Seq<Option<u8>>| !is_solution_of(g0, g) by {
                                if is_solution_of(g0, g) {
                                    assert(agrees(g, h0, n));
                                }
                            }
                        }
                        return SolveOutcome::NoSolution;
                    },
                    Some(d) => {
                        proof {
                            assert(d == h0[n - 1]);
                            assert(decision_ok(g0, h0, n - 1));
                        }
                        let _ = self.set(d.cell / 9, d.cell % 9, d.value);
                        store.set(d.cell, Some(d.constraint));
                        let ghost store1 = store@;
                        reinsert_related_constraints(&d.related, d.value, &mut store);
                        proof {
                            let h1 = history@;
                            assert(h1 == h0.drop_last());
                            assert(d == h0[n - 1]);
                            assert(decision_ok(g0, h0, n - 1));
                            lemma_eff_prefix(g0, h0, h1, n - 1);
                            let ep = eff(g0, h0, n - 1);
                            lemma_eff_len(g0, h0, n - 1);
                            lemma_eff_mono(g0, h0, n - 1, n);
                            assert(e == ep.update(d.cell as int, Some(d.value)));
                            assert(self@ == grid0.update(d.cell as int, Some(d.value)));
                            assert forall|k: int| 0 <= k < h1.len() implies #[trigger] decision_ok(g0, h1, k) by {
                                assert(decision_ok(g0, h0, k));
                                lemma_eff_prefix(g0, h0, h1, k);
                                assert(h1[k] == h0[k]);
                            }
                            assert forall|i: int| 0 <= i < 81 implies ((#[trigger] store@[i]) is Some <==> ep[i] is None) by {
                                if i != d.cell as int {
                                    assert(store0[i] is Some <==> e[i] is None);
                                }
                            }
                            assert forall|i: int, u: nat|
                                0 <= i < 81 && store@[i] is Some && #[trigger] store@[i]->0@.contains(u) implies 1 <= u <= 9
                                    && allowed(ep, i, u) by {
                                if d.related@.contains(i as usize) && u == d.value as nat {
                                    let t = choose|t: int| 0 <= t < d.related@.len() && d.related@[t] == i as usize;
                                    assert(allowed(ep, d.related@[t] as int, d.value as nat));
                                } else if i == d.cell as int {
                                    assert(d.constraint@.contains(u));
                                } else {
                                    assert(store0[i]->0@.contains(u));
                                    assert(allowed(e, i, u));
                                    assert forall|j: int| 0 <= j < 81 && #[trigger] peers(i, j) implies !holds(ep, j, u) by {
                                        if holds(ep, j, u) {
                                            assert(ep[j] is Some);
                                            assert(holds(e, j, u));
                                        }
                                    }
                                }
                            }
                            assert forall|i: int, j: int|
                                0 <= i < 81 && 0 <= j < 81 && peers(i, j) && ep[i] is Some && #[trigger] ep[i] == #[trigger] ep[j]
                                    implies g0[i] is Some && g0[j] is Some by {
                                assert(e[i] == ep[i] && e[j] == ep[j]);
                            }
                            assert forall|i: int| 0 <= i < 81 && (#[trigger] ep[i]) is Some implies self@[i] == ep[i] by {
                                assert(e[i] == ep[i]);
                            }
                        }
                        proof {
                            let h1 = history@;
                            let ep = eff(g0, h0, n - 1);
                            let c = d.cell as int;
                            assert(!d.related@.contains(d.cell)) by {
                                if d.related@.contains(d.cell) {
                                    let t = choose|t: int| 0 <= t < d.related@.len() && d.related@[t] == d.cell;
                                    assert(peers(c, d.related@[t] as int));
                                }
                            }
                            assert forall|i: int| 0 <= i < 81 && (#[trigger] store@[i]) is Some implies store@[i]->0@ == candidates(ep, i) by {
                                if i == c {
                                    assert(store1[i] == Some(d.constraint));
                                } else {
                                    assert(store0[i] is Some);
                                    assert(store1[i] == store0[i]);
                                    lemma_candidates_after_place(ep, c, d.value, i);
                                    if d.related@.contains(i as usize) {
                                        let t = choose|t: int| 0 <= t < d.related@.len() && d.related@[t] == i as usize;
                                        assert(allowed(ep, d.related@[t] as int, d.value as nat));
                                        assert(peers(c, i));
                                        assert(candidates(ep, i).contains(d.value as nat));
                                        assert(candidates(ep, i).remove(d.value as nat).insert(d.value as nat) =~= candidates(ep, i));
                                    } else if peers(c, i) {
                                        assert(ep[i] == e[i]);
                                        assert(!candidates(ep, i).contains(d.value as nat));
                                        assert(candidates(ep, i).remove(d.value as nat) =~= candidates(ep, i));
                                    }
                                }
                            }
                            assert forall|sol: Seq<Option<u8>>| #[trigger] is_solution_of(g0, sol) implies {
                                &&& forall|k: int|
                                    0 <= k < h1.len() && #[trigger] agrees(sol, h1, k) ==> sol[h1[k].cell as int]->0 >= h1[k].value
                                &&& (agrees(sol, h1, h1.len() as int) ==> sol[c]->0 > d.value)
                            } by {
                                assert(nothing_skipped(g0, h0, r0));
                                assert forall|k: int|
                                    0 <= k < h1.len() && #[trigger] agrees(sol, h1, k) implies sol[h1[k].cell as int]->0 >= h1[k].value by {
                                    assert(h1[k] == h0[k]);
                                    assert(agrees(sol, h0, k)) by {
                                        assert forall|j: int| 0 <= j < k implies sol[h0[j].cell as int] == Some(#[trigger] h0[j].value) by {
                                            assert(h1[j] == h0[j]);
                                            assert(sol[h1[j].cell as int] == Some(h1[j].value));
                                        }
                                    }
                                }
                                if agrees(sol, h1, n - 1) {
                                    assert(agrees(sol, h0, n - 1)) by {
                                        assert forall|j: int| 0 <= j < n - 1 implies sol[h0[j].cell as int] == Some(#[trigger] h0[j].value) by {
                                            assert(h1[j] == h0[j]);
                                            assert(sol[h1[j].cell as int] == Some(h1[j].value));
                                        }
                                    }
                                    assert(sol[c]->0 >= d.value);
                                    if sol[c]->0 == d.value {
                                        assert(sol[c] is Some);
                                        assert(agrees(sol, h0, n)) by {
                                            assert forall|j: int| 0 <= j < n implies sol[h0[j].cell as int] == Some(#[trigger] h0[j].value) by {
                                                if j < n - 1 {
                                                    assert(h1[j] == h0[j]);
                                                    assert(sol[h1[j].cell as int] == Some(h1[j].value));
                                                }
                                            }
                                        }
                                    }
                                }
                            }
                        }
                        resume = Some(d);
                        proof {
                            let h1 = history@;
                            assert(nothing_skipped(g0, h1, resume));
                            assert(search_ok(g0, self@, store@, history@, resume));
                            lemma_digits_bounded(g0, h1, resume);
                            let a = digits(h1, resume);
                            let b = digits(h0, r0);
                            assert forall|i: int| 0 <= i < n - 1 implies a[i] == b[i] by {
                                assert(h1[i] == h0[i]);
                            }
                            lemma_horner_lex(a, b, n - 1);
                        }
                    },
                }
            }
        }
    }
}

} // verus!

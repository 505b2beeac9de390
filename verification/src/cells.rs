use vstd::prelude::*;

verus! {

broadcast use vstd::seq_lib::group_seq_properties;

/// A grid cell, addressed as `(x, y)`.
pub type Cell = (usize, usize);

/// Strict lexicographic order on cells: first by `x`, then by `y`.
pub open spec fn cell_lt(a: Cell, b: Cell) -> bool {
    a.0 < b.0 || (a.0 == b.0 && a.1 < b.1)
}

/// A cell sequence in strictly increasing order. Such a sequence has no
/// duplicate cells and is uniquely determined by the set of its elements.
pub open spec fn sorted_strict(s: Seq<Cell>) -> bool {
    forall|i: int, j: int| 0 <= i < j < s.len() ==> cell_lt(s[i], s[j])
}

/// Insert a cell into a strictly sorted sequence, keeping it sorted and
/// dropping the cell if it is already present.
pub open spec fn insert_cell(t: Seq<Cell>, c: Cell) -> Seq<Cell>
    decreases t.len(),
{
    if t.len() == 0 {
        seq![c]
    } else if cell_lt(c, t[0]) {
        seq![c] + t
    } else if c == t[0] {
        t
    } else {
        seq![t[0]] + insert_cell(t.drop_first(), c)
    }
}

/// The strictly sorted, duplicate-free sequence holding exactly the cells
/// of `s`: the canonical form of a cell collection.
pub open spec fn sort_dedup(s: Seq<Cell>) -> Seq<Cell>
    decreases s.len(),
{
    if s.len() == 0 {
        Seq::empty()
    } else {
        insert_cell(sort_dedup(s.drop_last()), s.last())
    }
}

/// Prepending an element inserts it into the element set.
pub proof fn lemma_cons_to_set(h: Cell, t: Seq<Cell>)
    ensures
        (seq![h] + t).to_set() == t.to_set().insert(h),
{
    let r = seq![h] + t;
    assert forall|e: Cell| r.to_set().contains(e) implies t.to_set().insert(h).contains(e) by {
        let k = choose|k: int| 0 <= k < r.len() && r[k] == e;
        if k > 0 {
            assert(t[k - 1] == e);
            assert(t.contains(e));
        }
    }
    assert forall|e: Cell| t.to_set().insert(h).contains(e) implies r.to_set().contains(e) by {
        if e == h {
            assert(r[0] == e);
            assert(r.contains(e));
        } else {
            let k = choose|k: int| 0 <= k < t.len() && t[k] == e;
            assert(r[k + 1] == e);
            assert(r.contains(e));
        }
    }
    assert(r.to_set() =~= t.to_set().insert(h));
}

/// A sequence's element set is its tail's set plus its head.
pub proof fn lemma_tail_to_set(s: Seq<Cell>)
    requires
        s.len() > 0,
    ensures
        s.to_set() == s.drop_first().to_set().insert(s[0]),
{
    assert(s =~= seq![s[0]] + s.drop_first());
    lemma_cons_to_set(s[0], s.drop_first());
}

pub proof fn lemma_insert_cell(t: Seq<Cell>, c: Cell)
    requires
        sorted_strict(t),
    ensures
        sorted_strict(insert_cell(t, c)),
        insert_cell(t, c).to_set() == t.to_set().insert(c),
        insert_cell(t, c).len() <= t.len() + 1,
    decreases t.len(),
{
    if t.len() == 0 {
        assert(insert_cell(t, c) == seq![c]);
        assert(seq![c].contains(c)) by {
            assert(seq![c][0] == c);
        }
        assert(insert_cell(t, c).to_set() =~= t.to_set().insert(c));
    } else if cell_lt(c, t[0]) {
        let r = seq![c] + t;
        assert forall|i: int, j: int| 0 <= i < j < r.len() implies cell_lt(r[i], r[j]) by {
            if i == 0 {
                assert(r[j] == t[j - 1]);
                if j > 1 {
                    assert(cell_lt(t[0], t[j - 1]));
                }
            } else {
                assert(r[i] == t[i - 1]);
                assert(r[j] == t[j - 1]);
            }
        }
        lemma_cons_to_set(c, t);
    } else if c == t[0] {
        assert(t.to_set() =~= t.to_set().insert(c)) by {
            assert(t.contains(c)) by {
                assert(t[0] == c);
            }
        }
    } else {
        let rest = t.drop_first();
        assert(sorted_strict(rest)) by {
            assert(forall|i: int, j: int| 0 <= i < j < rest.len() ==> rest[i] == t[i + 1]
                && rest[j] == t[j + 1]);
        }
        lemma_insert_cell(rest, c);
        let ir = insert_cell(rest, c);
        let r = seq![t[0]] + ir;
        assert(insert_cell(t, c) == r);
        // t[0] is below everything in ir: ir's elements are rest's elements plus c,
        // and cell_lt(t[0], c) holds by totality of the order.
        assert(cell_lt(t[0], c));
        assert(forall|k: int| 0 <= k < ir.len() ==> cell_lt(t[0], ir[k])) by {
            assert(forall|k: int| 0 <= k < ir.len() ==> ir.to_set().contains(#[trigger] ir[k]));
            assert(forall|e: Cell| rest.contains(e) ==> cell_lt(t[0], e));
        }
        assert forall|i: int, j: int| 0 <= i < j < r.len() implies cell_lt(r[i], r[j]) by {
            if i == 0 {
                assert(r[j] == ir[j - 1]);
            } else {
                assert(r[i] == ir[i - 1]);
                assert(r[j] == ir[j - 1]);
            }
        }
        lemma_cons_to_set(t[0], ir);
        lemma_tail_to_set(t);
        assert(r.to_set() =~= t.to_set().insert(c));
    }
}

pub proof fn lemma_sort_dedup(s: Seq<Cell>)
    ensures
        sorted_strict(sort_dedup(s)),
        sort_dedup(s).to_set() == s.to_set(),
        sort_dedup(s).len() <= s.len(),
    decreases s.len(),
{
    if s.len() == 0 {
        assert(sort_dedup(s).to_set() =~= s.to_set());
    } else {
        let init = s.drop_last();
        lemma_sort_dedup(init);
        lemma_insert_cell(sort_dedup(init), s.last());
        assert(sort_dedup(init).to_set().insert(s.last()) =~= s.to_set()) by {
            assert(forall|e: Cell| s.contains(e) <==> (e == s.last() || init.contains(e))) by {
                assert(forall|i: int| 0 <= i < init.len() ==> s[i] == init[i]);
                assert(s[s.len() - 1] == s.last());
                assert(forall|i: int| 0 <= i < s.len() && i != s.len() - 1 ==> init[i] == s[i]);
            }
        }
    }
}

/// A strictly sorted cell sequence is determined by the set of its elements.
pub proof fn lemma_sorted_unique(a: Seq<Cell>, b: Seq<Cell>)
    requires
        sorted_strict(a),
        sorted_strict(b),
        a.to_set() == b.to_set(),
    ensures
        a == b,
    decreases a.len(),
{
    if a.len() == 0 {
        if b.len() > 0 {
            assert(b.to_set().contains(b[0]));
            assert(a.contains(b[0]));
            assert(false);
        }
        assert(a =~= b);
    } else {
        assert(b.len() > 0) by {
            assert(a.to_set().contains(a[0]));
            if b.len() == 0 {
                assert(b.contains(a[0]));
                assert(false);
            }
        }
        // The heads agree: each is the least element of the shared set.
        assert(a.contains(b[0])) by {
            assert(b.to_set().contains(b[0]));
        }
        assert(b.contains(a[0])) by {
            assert(a.to_set().contains(a[0]));
        }
        let ia = choose|i: int| 0 <= i < a.len() && a[i] == b[0];
        let ib = choose|i: int| 0 <= i < b.len() && b[i] == a[0];
        assert(a[0] == b[0]) by {
            if ia > 0 {
                assert(cell_lt(a[0], a[ia]));
            }
            if ib > 0 {
                assert(cell_lt(b[0], b[ib]));
            }
        }
        let ta = a.drop_first();
        let tb = b.drop_first();
        assert(sorted_strict(ta) && sorted_strict(tb)) by {
            assert(forall|i: int| 0 <= i < ta.len() ==> ta[i] == a[i + 1]);
            assert(forall|i: int| 0 <= i < tb.len() ==> tb[i] == b[i + 1]);
        }
        // The head is strictly below every tail element, so the tail sets are
        // the shared set with the head removed.
        assert(!ta.contains(a[0])) by {
            if ta.contains(a[0]) {
                let k = choose|k: int| 0 <= k < ta.len() && ta[k] == a[0];
                assert(ta[k] == a[k + 1]);
                assert(cell_lt(a[0], a[k + 1]));
            }
        }
        assert(!tb.contains(b[0])) by {
            if tb.contains(b[0]) {
                let k = choose|k: int| 0 <= k < tb.len() && tb[k] == b[0];
                assert(tb[k] == b[k + 1]);
                assert(cell_lt(b[0], b[k + 1]));
            }
        }
        lemma_tail_to_set(a);
        lemma_tail_to_set(b);
        assert forall|e: Cell| ta.to_set().contains(e) implies tb.to_set().contains(e) by {
            assert(a.to_set().contains(e));
            assert(b.to_set().contains(e));
            assert(e != a[0]) by {
                assert(!ta.to_set().contains(a[0]));
            }
        }
        assert forall|e: Cell| tb.to_set().contains(e) implies ta.to_set().contains(e) by {
            assert(b.to_set().contains(e));
            assert(a.to_set().contains(e));
            assert(e != b[0]) by {
                assert(!tb.to_set().contains(b[0]));
            }
        }
        assert(ta.to_set() =~= tb.to_set());
        lemma_sorted_unique(ta, tb);
        assert(a =~= b) by {
            assert(forall|i: int| 1 <= i < a.len() ==> a[i] == ta[i - 1]);
            assert(forall|i: int| 1 <= i < b.len() ==> b[i] == tb[i - 1]);
        }
    }
}

/// Decides the strict cell order executably.
pub fn cell_before(a: Cell, b: Cell) -> (r: bool)
    ensures
        r == cell_lt(a, b),
{
    a.0 < b.0 || (a.0 == b.0 && a.1 < b.1)
}

/// Insert a cell into a strictly sorted vector, keeping it sorted and
/// skipping the insertion if the cell is already present.
pub fn insert_cell_sorted(v: &mut Vec<Cell>, c: Cell)
    requires
        sorted_strict(old(v)@),
    ensures
        sorted_strict(final(v)@),
        final(v)@.to_set() == old(v)@.to_set().insert(c),
        final(v)@.len() <= old(v)@.len() + 1,
{
    let mut j: usize = 0;
    while j < v.len() && cell_before(v[j], c)
        invariant
            j <= v@.len(),
            sorted_strict(v@),
            v@ == old(v)@,
            forall|k: int| 0 <= k < j ==> cell_lt(v@[k], c),
        decreases v@.len() - j,
    {
        j += 1;
    }
    if j < v.len() && v[j].0 == c.0 && v[j].1 == c.1 {
        proof {
            assert(v@[j as int] == c);
            assert(v@.contains(c));
            assert(v@.to_set() =~= v@.to_set().insert(c));
        }
        return ;
    }
    let ghost oldv = v@;
    v.insert(j, c);
    proof {
        assert(v@ == oldv.insert(j as int, c));
        assert forall|p: int, q: int| 0 <= p < q < v@.len() implies cell_lt(v@[p], v@[q]) by {
            if q < j {
                assert(v@[p] == oldv[p] && v@[q] == oldv[q]);
            } else if p > j {
                assert(v@[p] == oldv[p - 1] && v@[q] == oldv[q - 1]);
            } else if p < j && q == j {
                assert(v@[p] == oldv[p] && v@[q] == c);
            } else if p == j {
                assert(v@[p] == c && v@[q] == oldv[q - 1]);
                assert(cell_lt(c, oldv[j as int]));
                if q - 1 > j {
                    assert(cell_lt(oldv[j as int], oldv[q - 1]));
                }
            } else {
                assert(v@[p] == oldv[p] && v@[q] == oldv[q - 1]);
                assert(cell_lt(v@[p], c));
                assert(cell_lt(c, oldv[j as int]));
                if q - 1 > j {
                    assert(cell_lt(oldv[j as int], oldv[q - 1]));
                }
            }
        }
        assert forall|e: Cell| v@.to_set().contains(e) implies oldv.to_set().insert(c).contains(
            e,
        ) by {
            let k = choose|k: int| 0 <= k < v@.len() && v@[k] == e;
            if k < j {
                assert(oldv[k] == e);
                assert(oldv.contains(e));
            } else if k > j {
                assert(oldv[k - 1] == e);
                assert(oldv.contains(e));
            }
        }
        assert forall|e: Cell| oldv.to_set().insert(c).contains(e) implies v@.to_set().contains(
            e,
        ) by {
            if e == c {
                assert(v@[j as int] == e);
                assert(v@.contains(e));
            } else {
                let k = choose|k: int| 0 <= k < oldv.len() && oldv[k] == e;
                if k < j {
                    assert(v@[k] == e);
                } else {
                    assert(v@[k + 1] == e);
                }
                assert(v@.contains(e));
            }
        }
        assert(v@.to_set() =~= oldv.to_set().insert(c));
    }
}

/// Return the canonical form of a cell vector: strictly sorted, duplicates
/// dropped, holding exactly the cells of the input.
pub fn sort_dedup_cells(v: &Vec<Cell>) -> (r: Vec<Cell>)
    ensures
        r@ == sort_dedup(v@),
        sorted_strict(r@),
        r@.to_set() == v@.to_set(),
        r@.len() <= v@.len(),
{
    let mut r: Vec<Cell> = Vec::new();
    proof {
        assert(r@.to_set() =~= v@.take(0).to_set());
    }
    for i in 0..v.len()
        invariant
            sorted_strict(r@),
            r@.to_set() == v@.take(i as int).to_set(),
            r@.len() <= i,
    {
        insert_cell_sorted(&mut r, v[i]);
        proof {
            assert(v@.take(i + 1) =~= v@.take(i as int).push(v@[i as int]));
            Seq::<Cell>::lemma_push_to_set_commute(v@.take(i as int), v@[i as int]);
            assert(r@.to_set() =~= v@.take(i + 1).to_set());
        }
    }
    proof {
        assert(v@.take(v@.len() as int) =~= v@);
        lemma_sort_dedup(v@);
        lemma_sorted_unique(r@, sort_dedup(v@));
    }
    r
}

/// Copy a cell vector.
pub fn clone_cells(v: &Vec<Cell>) -> (r: Vec<Cell>)
    ensures
        r@ == v@,
{
    let n = v.len();
    let mut out: Vec<Cell> = Vec::new();
    for i in 0..n
        invariant
            n == v@.len(),
            out@.len() == i,
            forall|k: int| 0 <= k < i ==> out@[k] == v@[k],
    {
        out.push(v[i]);
    }
    proof {
        assert(out@ =~= v@);
    }
    out
}

/// Least `x` coordinate occurring in a cell sequence.
pub open spec fn cells_min_x(s: Seq<Cell>) -> int
    recommends
        s.len() > 0,
    decreases s.len(),
{
    if s.len() <= 1 {
        s[0].0 as int
    } else {
        let m = cells_min_x(s.drop_last());
        if (s.last().0 as int) < m {
            s.last().0 as int
        } else {
            m
        }
    }
}

/// Least `y` coordinate occurring in a cell sequence.
pub open spec fn cells_min_y(s: Seq<Cell>) -> int
    recommends
        s.len() > 0,
    decreases s.len(),
{
    if s.len() <= 1 {
        s[0].1 as int
    } else {
        let m = cells_min_y(s.drop_last());
        if (s.last().1 as int) < m {
            s.last().1 as int
        } else {
            m
        }
    }
}

/// Greatest `x` coordinate occurring in a cell sequence.
pub open spec fn cells_max_x(s: Seq<Cell>) -> int
    recommends
        s.len() > 0,
    decreases s.len(),
{
    if s.len() <= 1 {
        s[0].0 as int
    } else {
        let m = cells_max_x(s.drop_last());
        if (s.last().0 as int) > m {
            s.last().0 as int
        } else {
            m
        }
    }
}

/// Greatest `y` coordinate occurring in a cell sequence.
pub open spec fn cells_max_y(s: Seq<Cell>) -> int
    recommends
        s.len() > 0,
    decreases s.len(),
{
    if s.len() <= 1 {
        s[0].1 as int
    } else {
        let m = cells_max_y(s.drop_last());
        if (s.last().1 as int) > m {
            s.last().1 as int
        } else {
            m
        }
    }
}

/// The four extremes bound every cell and are each attained by some cell.
pub proof fn lemma_extremes(s: Seq<Cell>)
    requires
        s.len() > 0,
    ensures
        forall|i: int| 0 <= i < s.len() ==> cells_min_x(s) <= (#[trigger] s[i]).0,
        forall|i: int| 0 <= i < s.len() ==> cells_min_y(s) <= (#[trigger] s[i]).1,
        forall|i: int| 0 <= i < s.len() ==> (#[trigger] s[i]).0 <= cells_max_x(s),
        forall|i: int| 0 <= i < s.len() ==> (#[trigger] s[i]).1 <= cells_max_y(s),
        exists|i: int| 0 <= i < s.len() && (#[trigger] s[i]).0 == cells_min_x(s),
        exists|i: int| 0 <= i < s.len() && (#[trigger] s[i]).1 == cells_min_y(s),
        exists|i: int| 0 <= i < s.len() && (#[trigger] s[i]).0 == cells_max_x(s),
        exists|i: int| 0 <= i < s.len() && (#[trigger] s[i]).1 == cells_max_y(s),
    decreases s.len(),
{
    if s.len() == 1 {
        assert((s[0]).0 == cells_min_x(s));
        assert((s[0]).1 == cells_min_y(s));
        assert((s[0]).0 == cells_max_x(s));
        assert((s[0]).1 == cells_max_y(s));
    } else {
        let init = s.drop_last();
        lemma_extremes(init);
        assert(forall|i: int| 0 <= i < init.len() ==> init[i] == s[i]);
        let last = s.len() - 1;
        assert(s[last] == s.last());
        if (s.last().0 as int) < cells_min_x(init) {
            assert((s[last]).0 == cells_min_x(s));
        } else {
            let i = choose|i: int| 0 <= i < init.len() && (#[trigger] init[i]).0 == cells_min_x(
                init,
            );
            assert((s[i]).0 == cells_min_x(s));
        }
        if (s.last().1 as int) < cells_min_y(init) {
            assert((s[last]).1 == cells_min_y(s));
        } else {
            let i = choose|i: int| 0 <= i < init.len() && (#[trigger] init[i]).1 == cells_min_y(
                init,
            );
            assert((s[i]).1 == cells_min_y(s));
        }
        if (s.last().0 as int) > cells_max_x(init) {
            assert((s[last]).0 == cells_max_x(s));
        } else {
            let i = choose|i: int| 0 <= i < init.len() && (#[trigger] init[i]).0 == cells_max_x(
                init,
            );
            assert((s[i]).0 == cells_max_x(s));
        }
        if (s.last().1 as int) > cells_max_y(init) {
            assert((s[last]).1 == cells_max_y(s));
        } else {
            let i = choose|i: int| 0 <= i < init.len() && (#[trigger] init[i]).1 == cells_max_y(
                init,
            );
            assert((s[i]).1 == cells_max_y(s));
        }
    }
}

/// Extremes depend only on the set of cells, not on their order.
pub proof fn lemma_extremes_of_set(a: Seq<Cell>, b: Seq<Cell>)
    requires
        a.len() > 0,
        b.len() > 0,
        a.to_set() == b.to_set(),
    ensures
        cells_min_x(a) == cells_min_x(b),
        cells_min_y(a) == cells_min_y(b),
        cells_max_x(a) == cells_max_x(b),
        cells_max_y(a) == cells_max_y(b),
{
    lemma_extremes(a);
    lemma_extremes(b);
    assert(forall|e: Cell| a.contains(e) <==> b.contains(e)) by {
        assert(forall|e: Cell| a.contains(e) <==> a.to_set().contains(e));
        assert(forall|e: Cell| b.contains(e) <==> b.to_set().contains(e));
    }
    let iax = choose|i: int| 0 <= i < a.len() && (#[trigger] a[i]).0 == cells_min_x(a);
    assert(b.contains(a[iax]));
    let ibx = choose|i: int| 0 <= i < b.len() && (#[trigger] b[i]).0 == cells_min_x(b);
    assert(a.contains(b[ibx]));
    let iay = choose|i: int| 0 <= i < a.len() && (#[trigger] a[i]).1 == cells_min_y(a);
    assert(b.contains(a[iay]));
    let iby = choose|i: int| 0 <= i < b.len() && (#[trigger] b[i]).1 == cells_min_y(b);
    assert(a.contains(b[iby]));
    let jax = choose|i: int| 0 <= i < a.len() && (#[trigger] a[i]).0 == cells_max_x(a);
    assert(b.contains(a[jax]));
    let jbx = choose|i: int| 0 <= i < b.len() && (#[trigger] b[i]).0 == cells_max_x(b);
    assert(a.contains(b[jbx]));
    let jay = choose|i: int| 0 <= i < a.len() && (#[trigger] a[i]).1 == cells_max_y(a);
    assert(b.contains(a[jay]));
    let jby = choose|i: int| 0 <= i < b.len() && (#[trigger] b[i]).1 == cells_max_y(b);
    assert(a.contains(b[jby]));
}

} // verus!

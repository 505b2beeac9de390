use vstd::prelude::*;

use crate::cells::{
    cell_before, cell_lt, cells_max_x, cells_max_y, cells_min_x, cells_min_y, lemma_extremes,
    sort_dedup, sort_dedup_cells, sorted_strict, Cell,
};
use crate::mask::mask_wf;

verus! {

/// A polyomino piece: a finite set of grid cells, held in canonical form as
/// a strictly sorted vector (so equal cell sets have equal vectors).
pub struct Piece {
    pub cells: Vec<Cell>,
}

impl View for Piece {
    type V = Seq<Cell>;

    open spec fn view(&self) -> Seq<Cell> {
        self.cells@
    }
}

/// Normalization: shift all cells so that the least coordinates become zero.
pub open spec fn norm_map(s: Seq<Cell>) -> Seq<Cell> {
    s.map_values(
        |c: Cell| (((c.0 - cells_min_x(s)) as usize, (c.1 - cells_min_y(s)) as usize)),
    )
}

/// A quarter turn `(x, y) -> (max_y - y, x)` followed by normalization.
pub open spec fn rot_map(s: Seq<Cell>) -> Seq<Cell> {
    s.map_values(
        |c: Cell| (((cells_max_y(s) - c.1) as usize, (c.0 - cells_min_x(s)) as usize)),
    )
}

/// The canonical piece after a quarter turn.
pub open spec fn spec_rotate90(s: Seq<Cell>) -> Seq<Cell> {
    sort_dedup(rot_map(s))
}

/// A reflection `x -> max_x - x` followed by normalization.
pub open spec fn flip_x_map(s: Seq<Cell>) -> Seq<Cell> {
    s.map_values(
        |c: Cell| (((cells_max_x(s) - c.0) as usize, (c.1 - cells_min_y(s)) as usize)),
    )
}

/// The canonical piece after reflecting across the x axis.
pub open spec fn spec_flip_x(s: Seq<Cell>) -> Seq<Cell> {
    sort_dedup(flip_x_map(s))
}

/// A reflection `y -> max_y - y` followed by normalization.
pub open spec fn flip_y_map(s: Seq<Cell>) -> Seq<Cell> {
    s.map_values(
        |c: Cell| (((c.0 - cells_min_x(s)) as usize, (cells_max_y(s) - c.1) as usize)),
    )
}

/// The canonical piece after reflecting across the y axis.
pub open spec fn spec_flip_y(s: Seq<Cell>) -> Seq<Cell> {
    sort_dedup(flip_y_map(s))
}

/// Translating every cell by `(dx, dy)`.
pub open spec fn shift_map(s: Seq<Cell>, dx: int, dy: int) -> Seq<Cell> {
    s.map_values(|c: Cell| (((c.0 + dx) as usize, (c.1 + dy) as usize)))
}

/// The translation stays within the machine's coordinate range.
pub open spec fn shift_fits(s: Seq<Cell>, dx: int, dy: int) -> bool {
    forall|i: int|
        0 <= i < s.len() ==> (#[trigger] s[i]).0 + dx <= usize::MAX && s[i].1 + dy <= usize::MAX
}

impl Piece {
    /// The cell vector is in canonical form.
    pub open spec fn wf(&self) -> bool {
        sorted_strict(self@)
    }

    /// Build a piece from cells given in any order; duplicates collapse.
    pub fn new(cells: Vec<Cell>) -> (r: Piece)
        ensures
            r@ == sort_dedup(cells@),
            r.wf(),
            r@.to_set() == cells@.to_set(),
            r@.len() <= cells@.len(),
            cells@.len() > 0 ==> r@.len() > 0,
    {
        let canon = sort_dedup_cells(&cells);
        proof {
            if cells@.len() > 0 {
                assert(cells@.contains(cells@[0]));
                assert(canon@.to_set().contains(cells@[0]));
                assert(canon@.contains(cells@[0]));
            }
        }
        Piece { cells: canon }
    }

    /// The bounding box `((min_x, min_y), (max_x, max_y))` of the cells.
    pub fn get_min_max(&self) -> (r: ((usize, usize), (usize, usize)))
        requires
            self@.len() > 0,
        ensures
            r.0.0 == cells_min_x(self@),
            r.0.1 == cells_min_y(self@),
            r.1.0 == cells_max_x(self@),
            r.1.1 == cells_max_y(self@),
    {
        let first = self.cells[0];
        let mut min_x = first.0;
        let mut min_y = first.1;
        let mut max_x = first.0;
        let mut max_y = first.1;
        proof {
            assert(self@.take(1).len() == 1);
            assert(self@.take(1)[0] == self@[0]);
        }
        let n = self.cells.len();
        let mut i: usize = 1;
        while i < n
        invariant
            1 <= i <= n,
            n == self@.len(),
            min_x == cells_min_x(self@.take(i as int)),
            min_y == cells_min_y(self@.take(i as int)),
            max_x == cells_max_x(self@.take(i as int)),
            max_y == cells_max_y(self@.take(i as int)),
        decreases n - i,
        {
            let c = self.cells[i];
            proof {
                let pre = self@.take(i as int);
                let cur = self@.take(i + 1);
                assert(cur.drop_last() =~= pre);
                assert(cur.last() == self@[i as int]);
            }
            if c.0 < min_x {
                min_x = c.0;
            }
            if c.1 < min_y {
                min_y = c.1;
            }
            if c.0 > max_x {
                max_x = c.0;
            }
            if c.1 > max_y {
                max_y = c.1;
            }
            i += 1;
        }
        proof {
            assert(self@.take(n as int) =~= self@);
        }
        ((min_x, min_y), (max_x, max_y))
    }

    /// Translate the piece so that its least coordinates become zero.
    pub fn shift_to_origin(&self) -> (r: Piece)
        requires
            self.wf(),
            self@.len() > 0,
        ensures
            r@ == norm_map(self@),
            r.wf(),
            r@.len() == self@.len(),
    {
        let ((min_x, min_y), _) = self.get_min_max();
        proof {
            lemma_extremes(self@);
        }
        let n = self.cells.len();
        let mut out: Vec<Cell> = Vec::new();
        for i in 0..n
            invariant
                n == self@.len(),
                min_x == cells_min_x(self@),
                min_y == cells_min_y(self@),
                forall|k: int|
                    0 <= k < self@.len() ==> min_x <= (#[trigger] self@[k]).0 && min_y
                        <= self@[k].1,
                out@.len() == i,
                forall|k: int| 0 <= k < i ==> out@[k] == norm_map(self@)[k],
        {
            let c = self.cells[i];
            out.push((c.0 - min_x, c.1 - min_y));
        }
        proof {
            assert(out@ =~= norm_map(self@));
            assert forall|p: int, q: int|
                0 <= p < q < out@.len() implies cell_lt(out@[p], out@[q]) by {
                assert(cell_lt(self@[p], self@[q]));
            }
        }
        Piece { cells: out }
    }

    /// Translate the piece by `(x, y)`.
    pub fn shift(&self, x: usize, y: usize) -> (r: Piece)
        requires
            self.wf(),
            shift_fits(self@, x as int, y as int),
        ensures
            r@ == shift_map(self@, x as int, y as int),
            r.wf(),
            r@.len() == self@.len(),
    {
        let n = self.cells.len();
        let mut out: Vec<Cell> = Vec::new();
        for i in 0..n
            invariant
                n == self@.len(),
                shift_fits(self@, x as int, y as int),
                out@.len() == i,
                forall|k: int| 0 <= k < i ==> out@[k] == shift_map(self@, x as int, y as int)[k],
        {
            let c = self.cells[i];
            out.push((c.0 + x, c.1 + y));
        }
        proof {
            assert(out@ =~= shift_map(self@, x as int, y as int));
            assert forall|p: int, q: int|
                0 <= p < q < out@.len() implies cell_lt(out@[p], out@[q]) by {
                assert(cell_lt(self@[p], self@[q]));
            }
        }
        Piece { cells: out }
    }

    /// Rotate the piece a quarter turn counterclockwise and normalize.
    pub fn rotate90(&self) -> (r: Piece)
        requires
            self.wf(),
            self@.len() > 0,
        ensures
            r@ == spec_rotate90(self@),
            r.wf(),
            r@.len() > 0,
    {
        let ((min_x, _), (_, max_y)) = self.get_min_max();
        proof {
            lemma_extremes(self@);
        }
        let n = self.cells.len();
        let mut mapped: Vec<Cell> = Vec::new();
        for i in 0..n
            invariant
                n == self@.len(),
                min_x == cells_min_x(self@),
                max_y == cells_max_y(self@),
                forall|k: int|
                    0 <= k < self@.len() ==> min_x <= (#[trigger] self@[k]).0 && self@[k].1
                        <= max_y,
                mapped@.len() == i,
                forall|k: int| 0 <= k < i ==> mapped@[k] == rot_map(self@)[k],
        {
            let c = self.cells[i];
            mapped.push((max_y - c.1, c.0 - min_x));
        }
        proof {
            assert(mapped@ =~= rot_map(self@));
        }
        let canon = sort_dedup_cells(&mapped);
        proof {
            assert(mapped@.contains(mapped@[0]));
            assert(canon@.to_set().contains(mapped@[0]));
            assert(canon@.contains(mapped@[0]));
        }
        Piece { cells: canon }
    }

    /// Reflect the piece across the x axis and normalize.
    pub fn flip_x(&self) -> (r: Piece)
        requires
            self.wf(),
            self@.len() > 0,
        ensures
            r@ == spec_flip_x(self@),
            r.wf(),
            r@.len() > 0,
    {
        let ((_, min_y), (max_x, _)) = self.get_min_max();
        proof {
            lemma_extremes(self@);
        }
        let n = self.cells.len();
        let mut mapped: Vec<Cell> = Vec::new();
        for i in 0..n
            invariant
                n == self@.len(),
                min_y == cells_min_y(self@),
                max_x == cells_max_x(self@),
                forall|k: int|
                    0 <= k < self@.len() ==> min_y <= (#[trigger] self@[k]).1 && self@[k].0
                        <= max_x,
                mapped@.len() == i,
                forall|k: int| 0 <= k < i ==> mapped@[k] == flip_x_map(self@)[k],
        {
            let c = self.cells[i];
            mapped.push((max_x - c.0, c.1 - min_y));
        }
        proof {
            assert(mapped@ =~= flip_x_map(self@));
        }
        let canon = sort_dedup_cells(&mapped);
        proof {
            assert(mapped@.contains(mapped@[0]));
            assert(canon@.to_set().contains(mapped@[0]));
            assert(canon@.contains(mapped@[0]));
        }
        Piece { cells: canon }
    }

    /// Reflect the piece across the y axis and normalize.
    pub fn flip_y(&self) -> (r: Piece)
        requires
            self.wf(),
            self@.len() > 0,
        ensures
            r@ == spec_flip_y(self@),
            r.wf(),
            r@.len() > 0,
    {
        let ((min_x, _), (_, max_y)) = self.get_min_max();
        proof {
            lemma_extremes(self@);
        }
        let n = self.cells.len();
        let mut mapped: Vec<Cell> = Vec::new();
        for i in 0..n
            invariant
                n == self@.len(),
                min_x == cells_min_x(self@),
                max_y == cells_max_y(self@),
                forall|k: int|
                    0 <= k < self@.len() ==> min_x <= (#[trigger] self@[k]).0 && self@[k].1
                        <= max_y,
                mapped@.len() == i,
                forall|k: int| 0 <= k < i ==> mapped@[k] == flip_y_map(self@)[k],
        {
            let c = self.cells[i];
            mapped.push((c.0 - min_x, max_y - c.1));
        }
        proof {
            assert(mapped@ =~= flip_y_map(self@));
        }
        let canon = sort_dedup_cells(&mapped);
        proof {
            assert(mapped@.contains(mapped@[0]));
            assert(canon@.to_set().contains(mapped@[0]));
            assert(canon@.contains(mapped@[0]));
        }
        Piece { cells: canon }
    }
}

/// Lexicographic order on cell sequences, cell by cell; a proper prefix
/// comes first.
pub open spec fn seq_lex_lt(a: Seq<Cell>, b: Seq<Cell>) -> bool
    decreases a.len(),
{
    if b.len() == 0 {
        false
    } else if a.len() == 0 {
        true
    } else if a[0] == b[0] {
        seq_lex_lt(a.drop_first(), b.drop_first())
    } else {
        cell_lt(a[0], b[0])
    }
}

/// Total order on canonical pieces: by least `x`, then least `y`, then
/// lexicographically by the sorted cell list.
pub open spec fn piece_lt(a: Seq<Cell>, b: Seq<Cell>) -> bool
    recommends
        a.len() > 0,
        b.len() > 0,
{
    if cells_min_x(a) != cells_min_x(b) {
        cells_min_x(a) < cells_min_x(b)
    } else if cells_min_y(a) != cells_min_y(b) {
        cells_min_y(a) < cells_min_y(b)
    } else {
        seq_lex_lt(a, b)
    }
}

pub proof fn lemma_seq_lex_total(a: Seq<Cell>, b: Seq<Cell>)
    ensures
        a == b || seq_lex_lt(a, b) || seq_lex_lt(b, a),
    decreases a.len(),
{
    if b.len() == 0 {
        if a.len() == 0 {
            assert(a =~= b);
        }
    } else if a.len() == 0 {
    } else if a[0] == b[0] {
        lemma_seq_lex_total(a.drop_first(), b.drop_first());
        if a.drop_first() == b.drop_first() {
            assert(a.drop_first().len() == b.drop_first().len());
            assert(a.len() == b.len());
            assert forall|i: int| 0 <= i < a.len() implies a[i] == b[i] by {
                if i >= 1 {
                    assert(a.drop_first()[i - 1] == b.drop_first()[i - 1]);
                    assert(a.drop_first()[i - 1] == a[i]);
                    assert(b.drop_first()[i - 1] == b[i]);
                }
            }
            assert(a =~= b);
        }
    }
}

pub proof fn lemma_seq_lex_trans(a: Seq<Cell>, b: Seq<Cell>, c: Seq<Cell>)
    requires
        seq_lex_lt(a, b),
        seq_lex_lt(b, c),
    ensures
        seq_lex_lt(a, c),
    decreases a.len(),
{
    if a.len() > 0 && c.len() > 0 && b.len() > 0 {
        if a[0] == b[0] && b[0] == c[0] {
            lemma_seq_lex_trans(a.drop_first(), b.drop_first(), c.drop_first());
        }
    }
}

/// Asymmetry of the lexicographic order.
pub proof fn lemma_seq_lex_asym(a: Seq<Cell>, b: Seq<Cell>)
    requires
        seq_lex_lt(a, b),
    ensures
        !seq_lex_lt(b, a),
        a != b,
    decreases a.len(),
{
    if a.len() > 0 && b.len() > 0 && a[0] == b[0] {
        lemma_seq_lex_asym(a.drop_first(), b.drop_first());
        assert(a != b) by {
            if a == b {
                assert(a.drop_first() =~= b.drop_first());
            }
        }
    } else if a.len() > 0 && b.len() > 0 {
        assert(a != b) by {
            if a == b {
                assert(a[0] == b[0]);
            }
        }
    } else {
        assert(a.len() == 0 && b.len() > 0);
        assert(a != b);
    }
}

pub proof fn lemma_piece_lt_total(a: Seq<Cell>, b: Seq<Cell>)
    ensures
        a == b || piece_lt(a, b) || piece_lt(b, a),
        !(piece_lt(a, b) && piece_lt(b, a)),
        piece_lt(a, b) ==> a != b,
{
    lemma_seq_lex_total(a, b);
    if seq_lex_lt(a, b) {
        lemma_seq_lex_asym(a, b);
    }
    if seq_lex_lt(b, a) {
        lemma_seq_lex_asym(b, a);
    }
}

pub proof fn lemma_piece_lt_trans(a: Seq<Cell>, b: Seq<Cell>, c: Seq<Cell>)
    requires
        piece_lt(a, b),
        piece_lt(b, c),
    ensures
        piece_lt(a, c),
{
    if cells_min_x(a) == cells_min_x(b) && cells_min_x(b) == cells_min_x(c) && cells_min_y(a)
        == cells_min_y(b) && cells_min_y(b) == cells_min_y(c) {
        lemma_seq_lex_trans(a, b, c);
    }
}

/// The cell lists of a piece sequence.
pub open spec fn views_of(ps: Seq<Piece>) -> Seq<Seq<Cell>> {
    ps.map_values(|p: Piece| p@)
}

/// A piece sequence in strictly increasing piece order (hence duplicate
/// free).
pub open spec fn pieces_sorted(vs: Seq<Seq<Cell>>) -> bool {
    forall|i: int, j: int| 0 <= i < j < vs.len() ==> piece_lt(vs[i], vs[j])
}

/// Executable equality of cell vectors.
pub fn cells_equal(a: &Vec<Cell>, b: &Vec<Cell>) -> (r: bool)
    ensures
        r == (a@ == b@),
{
    if a.len() != b.len() {
        return false;
    }
    let n = a.len();
    for i in 0..n
        invariant
            n == a@.len() == b@.len(),
            forall|k: int| 0 <= k < i ==> a@[k] == b@[k],
    {
        if a[i].0 != b[i].0 || a[i].1 != b[i].1 {
            proof {
                assert(a@[i as int] != b@[i as int]);
            }
            return false;
        }
    }
    proof {
        assert(a@ =~= b@);
    }
    true
}

/// Decides the strict piece order executably.
pub fn piece_before(a: &Piece, b: &Piece) -> (r: bool)
    requires
        a@.len() > 0,
        b@.len() > 0,
    ensures
        r == piece_lt(a@, b@),
{
    let ((a_min_x, a_min_y), _) = a.get_min_max();
    let ((b_min_x, b_min_y), _) = b.get_min_max();
    if a_min_x != b_min_x {
        return a_min_x < b_min_x;
    }
    if a_min_y != b_min_y {
        return a_min_y < b_min_y;
    }
    let na = a.cells.len();
    let nb = b.cells.len();
    let mut i: usize = 0;
    while i < na && i < nb
        invariant
            na == a@.len(),
            nb == b@.len(),
            i <= na,
            i <= nb,
            cells_min_x(a@) == cells_min_x(b@),
            cells_min_y(a@) == cells_min_y(b@),
            forall|k: int| 0 <= k < i ==> a@[k] == b@[k],
        decreases na - i,
    {
        let ca = a.cells[i];
        let cb = b.cells[i];
        if ca.0 != cb.0 || ca.1 != cb.1 {
            proof {
                lemma_seq_lex_common_prefix(a@, b@, i as int);
                assert(a@.skip(i as int)[0] == a@[i as int]);
                assert(b@.skip(i as int)[0] == b@[i as int]);
                assert(a@[i as int] != b@[i as int]);
                assert(a@.skip(i as int).len() > 0);
                assert(b@.skip(i as int).len() > 0);
                assert(seq_lex_lt(a@.skip(i as int), b@.skip(i as int)) == cell_lt(
                    a@[i as int],
                    b@[i as int],
                ));
            }
            return cell_before(ca, cb);
        }
        i += 1;
    }
    proof {
        lemma_seq_lex_common_prefix(a@, b@, i as int);
        if i == na && i < nb {
            assert(a@.skip(i as int).len() == 0);
            assert(b@.skip(i as int).len() > 0);
            assert(seq_lex_lt(a@.skip(i as int), b@.skip(i as int)));
        } else {
            assert(i == nb);
            assert(b@.skip(i as int).len() == 0);
            assert(!seq_lex_lt(a@.skip(i as int), b@.skip(i as int)));
        }
    }
    na < nb
}

/// The lexicographic order only depends on what follows a common prefix.
pub proof fn lemma_seq_lex_common_prefix(a: Seq<Cell>, b: Seq<Cell>, i: int)
    requires
        0 <= i <= a.len(),
        i <= b.len(),
        forall|k: int| 0 <= k < i ==> a[k] == b[k],
    ensures
        seq_lex_lt(a, b) == seq_lex_lt(a.skip(i), b.skip(i)),
    decreases i,
{
    if i > 0 {
        assert(a.len() > 0 && b.len() > 0 && a[0] == b[0]);
        let ta = a.drop_first();
        let tb = b.drop_first();
        assert(forall|k: int| 0 <= k < i - 1 ==> ta[k] == a[k + 1] && tb[k] == b[k + 1]);
        lemma_seq_lex_common_prefix(ta, tb, i - 1);
        assert(ta.skip(i - 1) =~= a.skip(i));
        assert(tb.skip(i - 1) =~= b.skip(i));
    } else {
        assert(a.skip(0) =~= a);
        assert(b.skip(0) =~= b);
    }
}

/// Insert a piece into a vector sorted by the piece order, keeping it
/// sorted and skipping the insertion if an equal piece is already present.
fn insert_piece_sorted(v: &mut Vec<Piece>, p: Piece)
    requires
        pieces_sorted(views_of(old(v)@)),
        forall|k: int| 0 <= k < old(v)@.len() ==> (#[trigger] old(v)@[k]).wf() && old(v)@[k]@.len()
            > 0,
        p.wf(),
        p@.len() > 0,
    ensures
        pieces_sorted(views_of(final(v)@)),
        forall|k: int| 0 <= k < final(v)@.len() ==> (#[trigger] final(v)@[k]).wf()
            && final(v)@[k]@.len() > 0,
        views_of(final(v)@).to_set() == views_of(old(v)@).to_set().insert(p@),
        final(v)@.len() <= old(v)@.len() + 1,
{
    let mut j: usize = 0;
    while j < v.len() && piece_before(&v[j], &p)
        invariant
            j <= v@.len(),
            v@ == old(v)@,
            pieces_sorted(views_of(v@)),
            forall|k: int| 0 <= k < v@.len() ==> (#[trigger] v@[k]).wf() && v@[k]@.len() > 0,
            p.wf(),
            p@.len() > 0,
            forall|k: int| 0 <= k < j ==> piece_lt(views_of(v@)[k], p@),
        decreases v@.len() - j,
    {
        j += 1;
    }
    if j < v.len() && cells_equal(&v[j].cells, &p.cells) {
        proof {
            assert(views_of(v@)[j as int] == p@);
            assert(views_of(v@).contains(p@));
            assert(views_of(v@).to_set() =~= views_of(v@).to_set().insert(p@));
        }
        return ;
    }
    let ghost oldv = v@;
    proof {
        if j < oldv.len() {
            lemma_piece_lt_total(oldv[j as int]@, p@);
            assert(piece_lt(p@, views_of(oldv)[j as int]));
        }
    }
    v.insert(j, p);
    proof {
        let vs = views_of(v@);
        let os = views_of(oldv);
        assert(v@ == oldv.insert(j as int, p));
        assert(forall|k: int| 0 <= k < j ==> v@[k] == oldv[k]);
        assert(forall|k: int| j < k < v@.len() ==> v@[k] == oldv[k - 1]);
        assert(v@[j as int] == p);
        assert forall|x: int, y: int| 0 <= x < y < vs.len() implies piece_lt(vs[x], vs[y]) by {
            if y < j {
                assert(vs[x] == os[x]);
                assert(vs[y] == os[y]);
                assert(piece_lt(os[x], os[y]));
            } else if x > j {
                assert(vs[x] == os[x - 1]);
                assert(vs[y] == os[y - 1]);
                assert(piece_lt(os[x - 1], os[y - 1]));
            } else if x < j && y == j {
                assert(vs[x] == os[x]);
                assert(vs[y] == p@);
                assert(piece_lt(os[x], p@));
            } else if x == j {
                assert(vs[x] == p@);
                assert(vs[y] == os[y - 1]);
                assert(piece_lt(p@, os[j as int]));
                if y - 1 > j {
                    assert(piece_lt(os[j as int], os[y - 1]));
                    lemma_piece_lt_trans(p@, os[j as int], os[y - 1]);
                }
            } else {
                assert(x < j && y > j);
                assert(vs[x] == os[x]);
                assert(vs[y] == os[y - 1]);
                assert(piece_lt(os[x], p@));
                assert(piece_lt(p@, os[j as int]));
                if y - 1 > j {
                    assert(piece_lt(os[j as int], os[y - 1]));
                    lemma_piece_lt_trans(p@, os[j as int], os[y - 1]);
                }
                lemma_piece_lt_trans(os[x], p@, os[y - 1]);
            }
        }
        assert forall|e: Seq<Cell>| vs.to_set().contains(e) implies os.to_set().insert(
            p@,
        ).contains(e) by {
            let k = choose|k: int| 0 <= k < vs.len() && vs[k] == e;
            if k < j {
                assert(os[k] == e);
                assert(os.contains(e));
            } else if k > j {
                assert(os[k - 1] == e);
                assert(os.contains(e));
            }
        }
        assert forall|e: Seq<Cell>| os.to_set().insert(p@).contains(e) implies vs.to_set().contains(
            e,
        ) by {
            if e == p@ {
                assert(vs[j as int] == e);
                assert(vs.contains(e));
            } else {
                let k = choose|k: int| 0 <= k < os.len() && os[k] == e;
                if k < j {
                    assert(vs[k] == e);
                } else {
                    assert(vs[k + 1] == e);
                }
                assert(vs.contains(e));
            }
        }
        assert(vs.to_set() =~= os.to_set().insert(p@));
    }
}

/// A piece, its quarter turn, its half turn, and its three-quarter turn.
pub open spec fn rotations_of(p: Seq<Cell>) -> Seq<Seq<Cell>> {
    seq![
        p,
        spec_rotate90(p),
        spec_rotate90(spec_rotate90(p)),
        spec_rotate90(spec_rotate90(spec_rotate90(p))),
    ]
}

/// The orientation candidates examined for a piece: the rotation orbit of
/// its normal form and, with reflections allowed, the rotation orbits of
/// its reflections across each axis and across both.
pub open spec fn orientation_candidates(s: Seq<Cell>, flips_allowed: bool) -> Seq<Seq<Cell>> {
    let p0 = norm_map(s);
    if flips_allowed {
        rotations_of(p0) + rotations_of(spec_flip_x(p0)) + rotations_of(spec_flip_y(p0))
            + rotations_of(spec_flip_x(spec_flip_y(p0)))
    } else {
        rotations_of(p0)
    }
}

/// Two pieces are equal when their normalized cell sets are identical.
pub open spec fn piece_eq_spec(a: Seq<Cell>, b: Seq<Cell>) -> bool {
    if a.len() == 0 || b.len() == 0 {
        a.len() == b.len()
    } else {
        norm_map(a) == norm_map(b)
    }
}

impl Piece {
    /// Piece equality: identical cell sets after normalization.
    pub fn eq(&self, other: &Piece) -> (r: bool)
        requires
            self.wf(),
            other.wf(),
        ensures
            r == piece_eq_spec(self@, other@),
    {
        if self.cells.len() == 0 || other.cells.len() == 0 {
            return self.cells.len() == other.cells.len();
        }
        let a = self.shift_to_origin();
        let b = other.shift_to_origin();
        cells_equal(&a.cells, &b.cells)
    }

    /// Whether the piece occupies the cell `(x, y)`.
    pub fn contains_cell(&self, x: usize, y: usize) -> (r: bool)
        ensures
            r == self@.contains(((x, y))),
    {
        let n = self.cells.len();
        for i in 0..n
            invariant
                n == self@.len(),
                forall|k: int| 0 <= k < i ==> self@[k] != (x, y),
        {
            let c = self.cells[i];
            if c.0 == x && c.1 == y {
                proof {
                    assert(self@[i as int] == (x, y));
                }
                return true;
            }
        }
        false
    }

    /// The total piece order: by least coordinates, then lexicographically
    /// by the sorted cell list.
    pub fn cmp(&self, other: &Piece) -> (r: core::cmp::Ordering)
        requires
            self.wf(),
            other.wf(),
            self@.len() > 0,
            other@.len() > 0,
        ensures
            (r == core::cmp::Ordering::Less) == piece_lt(self@, other@),
            (r == core::cmp::Ordering::Greater) == piece_lt(other@, self@),
            (r == core::cmp::Ordering::Equal) == (self@ == other@),
    {
        proof {
            lemma_piece_lt_total(self@, other@);
        }
        if piece_before(self, other) {
            core::cmp::Ordering::Less
        } else if piece_before(other, self) {
            core::cmp::Ordering::Greater
        } else {
            core::cmp::Ordering::Equal
        }
    }

    /// The piece order as an optional ordering; the order is total, so the
    /// result is never `None`.
    pub fn partial_cmp(&self, other: &Piece) -> (r: Option<core::cmp::Ordering>)
        requires
            self.wf(),
            other.wf(),
            self@.len() > 0,
            other@.len() > 0,
        ensures
            r == Some(self.cmp_spec(other)),
    {
        Some(self.cmp(other))
    }

    /// What `cmp` returns.
    pub open spec fn cmp_spec(&self, other: &Piece) -> core::cmp::Ordering {
        if piece_lt(self@, other@) {
            core::cmp::Ordering::Less
        } else if piece_lt(other@, self@) {
            core::cmp::Ordering::Greater
        } else {
            core::cmp::Ordering::Equal
        }
    }

    /// All distinct orientations of the piece under the allowed symmetry
    /// group, in increasing piece order.
    pub fn generate_all_orientations(&self, flips_allowed: bool) -> (r: Vec<Piece>)
        requires
            self.wf(),
            self@.len() > 0,
        ensures
            pieces_sorted(views_of(r@)),
            views_of(r@).to_set() == orientation_candidates(self@, flips_allowed).to_set(),
            forall|k: int| 0 <= k < r@.len() ==> (#[trigger] r@[k]).wf() && r@[k]@.len() > 0,
            1 <= r@.len() <= (if flips_allowed {
                8int
            } else {
                4int
            }),
    {
        let p0 = self.shift_to_origin();
        let mut cands: Vec<Piece> = Vec::new();
        let p1 = p0.rotate90();
        let p2 = p1.rotate90();
        let p3 = p2.rotate90();
        cands.push(p0.clone());
        cands.push(p1);
        cands.push(p2);
        cands.push(p3);
        if flips_allowed {
            let f0 = p0.flip_x();
            let f1 = f0.rotate90();
            let f2 = f1.rotate90();
            let f3 = f2.rotate90();
            let g0 = p0.flip_y();
            let g1 = g0.rotate90();
            let g2 = g1.rotate90();
            let g3 = g2.rotate90();
            let h0 = g0.flip_x();
            let h1 = h0.rotate90();
            let h2 = h1.rotate90();
            let h3 = h2.rotate90();
            cands.push(f0);
            cands.push(f1);
            cands.push(f2);
            cands.push(f3);
            cands.push(g0);
            cands.push(g1);
            cands.push(g2);
            cands.push(g3);
            cands.push(h0);
            cands.push(h1);
            cands.push(h2);
            cands.push(h3);
        }
        proof {
            assert(views_of(cands@) =~= orientation_candidates(self@, flips_allowed));
        }
        let n = cands.len();
        let mut out: Vec<Piece> = Vec::new();
        proof {
            assert(views_of(out@).to_set() =~= views_of(cands@.take(0)).to_set());
        }
        for i in 0..n
            invariant
                n == cands@.len(),
                pieces_sorted(views_of(out@)),
                forall|k: int| 0 <= k < cands@.len() ==> (#[trigger] cands@[k]).wf()
                    && cands@[k]@.len() > 0,
                forall|k: int| 0 <= k < out@.len() ==> (#[trigger] out@[k]).wf() && out@[k]@.len()
                    > 0,
                views_of(out@).to_set() == views_of(cands@.take(i as int)).to_set(),
                out@.len() <= i,
        {
            let c = cands[i].clone();
            proof {
                assert(c.wf());
            }
            insert_piece_sorted(&mut out, c);
            proof {
                assert(views_of(cands@.take(i + 1)) =~= views_of(cands@.take(i as int)).push(
                    cands@[i as int]@,
                ));
                Seq::<Seq<Cell>>::lemma_push_to_set_commute(
                    views_of(cands@.take(i as int)),
                    cands@[i as int]@,
                );
                assert(views_of(out@).to_set() =~= views_of(cands@.take(i + 1)).to_set());
            }
        }
        proof {
            assert(cands@.take(n as int) =~= cands@);
            crate::laws::lemma_orientation_count_bound(self@, flips_allowed, views_of(out@));
        }
        out
    }
}

/// One translated copy of a normalized orientation.
pub open spec fn placement_at(p0: Seq<Cell>, dx: int, dy: int) -> Seq<Cell> {
    shift_map(p0, dx, dy)
}

/// The translated copy lies inside the mask, on `true` cells only.
pub open spec fn placement_ok(p0: Seq<Cell>, dx: int, dy: int, mask: Seq<Seq<bool>>) -> bool {
    forall|i: int|
        0 <= i < p0.len() ==> {
            let x = (#[trigger] p0[i]).0 + dx;
            let y = p0[i].1 + dy;
            &&& 0 <= y < mask.len()
            &&& 0 <= x < mask[y].len()
            &&& mask[y][x]
        }
}

/// The legal placements of `p0` at column offset `dx`, for row offsets
/// `dy < dy_count`, in increasing `dy` order.
pub open spec fn placements_row(p0: Seq<Cell>, mask: Seq<Seq<bool>>, dx: int, dy_count: nat) -> Seq<
    Seq<Cell>,
>
    decreases dy_count,
{
    if dy_count == 0 {
        Seq::empty()
    } else {
        placements_row(p0, mask, dx, (dy_count - 1) as nat) + if placement_ok(
            p0,
            dx,
            dy_count - 1,
            mask,
        ) {
            seq![placement_at(p0, dx, dy_count - 1)]
        } else {
            Seq::empty()
        }
    }
}

/// The legal placements for all offsets `dx < dx_count`, `dy < dy_count`,
/// column-major.
pub open spec fn placements_upto(
    p0: Seq<Cell>,
    mask: Seq<Seq<bool>>,
    dx_count: nat,
    dy_count: nat,
) -> Seq<Seq<Cell>>
    decreases dx_count,
{
    if dx_count == 0 {
        Seq::empty()
    } else {
        placements_upto(p0, mask, (dx_count - 1) as nat, dy_count) + placements_row(
            p0,
            mask,
            dx_count - 1,
            dy_count,
        )
    }
}

/// Every legal placement of a piece's normal form within the mask: offsets
/// range over the translations that keep the bounding box inside the grid,
/// and only those landing on `true` cells throughout are kept.
pub open spec fn placements_of(s: Seq<Cell>, mask: Seq<Seq<bool>>) -> Seq<Seq<Cell>> {
    let p0 = norm_map(s);
    let w = mask[0].len() as int;
    let h = mask.len() as int;
    if cells_max_x(p0) < w && cells_max_y(p0) < h {
        placements_upto(p0, mask, (w - cells_max_x(p0)) as nat, (h - cells_max_y(p0)) as nat)
    } else {
        Seq::empty()
    }
}

/// The placements of a list of orientations, flattened in order.
pub open spec fn flat_placements(os: Seq<Seq<Cell>>, m: Seq<Seq<bool>>) -> Seq<Seq<Cell>>
    decreases os.len(),
{
    if os.len() == 0 {
        Seq::empty()
    } else {
        flat_placements(os.drop_last(), m) + placements_of(os.last(), m)
    }
}

/// An empty flattening means every orientation has no placement.
pub proof fn lemma_flat_placements_empty(os: Seq<Seq<Cell>>, m: Seq<Seq<bool>>)
    requires
        flat_placements(os, m).len() == 0,
    ensures
        forall|o: int| 0 <= o < os.len() ==> placements_of(#[trigger] os[o], m).len() == 0,
    decreases os.len(),
{
    if os.len() > 0 {
        lemma_flat_placements_empty(os.drop_last(), m);
        assert(forall|o: int| 0 <= o < os.len() - 1 ==> os.drop_last()[o] == os[o]);
        assert(os[os.len() - 1] == os.last());
    }
}

/// `bviews` with the per-piece spans `rgs` is the placement-block table of
/// the given pieces: the spans are contiguous and exhaustive, and each
/// piece's span holds, in order, the placements of its deduplicated
/// orientation list (the sorted sequence of its orientation candidates).
pub open spec fn blocks_arrangement(
    bviews: Seq<Seq<Cell>>,
    rgs: Seq<(int, int)>,
    pieces: Seq<Seq<Cell>>,
    m: Seq<Seq<bool>>,
    flips: bool,
) -> bool {
    &&& rgs.len() == pieces.len()
    &&& (forall|p: int| 0 <= p < rgs.len() ==> 0 <= (#[trigger] rgs[p]).0 <= rgs[p].1
        <= bviews.len())
    &&& (forall|p: int|
        0 <= p < rgs.len() ==> (#[trigger] rgs[p]).0 == (if p == 0 {
            0int
        } else {
            rgs[p - 1].1
        }))
    &&& (rgs.len() > 0 ==> rgs.last().1 == bviews.len())
    &&& (rgs.len() == 0 ==> bviews.len() == 0)
    &&& (forall|p: int|
        0 <= p < rgs.len() ==> exists|os: Seq<Seq<Cell>>|
            pieces_sorted(os) && os.to_set() == orientation_candidates(
                sort_dedup(pieces[p]),
                flips,
            ).to_set() && bviews.subrange((#[trigger] rgs[p]).0, rgs[p].1) == flat_placements(
                os,
                m,
            ))
}

/// The piece with the given cells has, in some orientation, at least one
/// legal placement within the mask.
pub open spec fn piece_placeable(cells: Seq<Cell>, m: Seq<Seq<bool>>, flips: bool) -> bool {
    exists|o: int|
        0 <= o < orientation_candidates(sort_dedup(cells), flips).len() && placements_of(
            #[trigger] orientation_candidates(sort_dedup(cells), flips)[o],
            m,
        ).len() > 0
}

/// Every cell of the sequence lies inside the mask on a `true` cell.
pub open spec fn placement_cells_ok(q: Seq<Cell>, mask: Seq<Seq<bool>>) -> bool {
    forall|i: int|
        0 <= i < q.len() ==> {
            let c = #[trigger] q[i];
            &&& (c.1 as int) < mask.len()
            &&& (c.0 as int) < mask[c.1 as int].len()
            &&& mask[c.1 as int][c.0 as int]
        }
}

proof fn lemma_at_ok_cells(p0: Seq<Cell>, dx: int, dy: int, mask: Seq<Seq<bool>>)
    requires
        mask_wf(mask),
        0 <= dx,
        0 <= dy,
        placement_ok(p0, dx, dy, mask),
    ensures
        placement_cells_ok(placement_at(p0, dx, dy), mask),
{
    let q = placement_at(p0, dx, dy);
    assert forall|i: int| 0 <= i < q.len() implies {
        let c = #[trigger] q[i];
        &&& (c.1 as int) < mask.len()
        &&& (c.0 as int) < mask[c.1 as int].len()
        &&& mask[c.1 as int][c.0 as int]
    } by {
        assert(q[i] == (((p0[i].0 + dx) as usize, (p0[i].1 + dy) as usize)));
        assert(0 <= p0[i].1 + dy < mask.len());
        assert(0 <= p0[i].0 + dx < mask[p0[i].1 + dy].len());
        assert(mask[p0[i].1 + dy].len() <= usize::MAX);
    }
}

proof fn lemma_row_cells_ok(p0: Seq<Cell>, mask: Seq<Seq<bool>>, dx: int, dy_count: nat)
    requires
        mask_wf(mask),
        0 <= dx,
    ensures
        forall|k: int|
            0 <= k < placements_row(p0, mask, dx, dy_count).len() ==> placement_cells_ok(
                #[trigger] placements_row(p0, mask, dx, dy_count)[k],
                mask,
            ),
    decreases dy_count,
{
    if dy_count > 0 {
        let prev = placements_row(p0, mask, dx, (dy_count - 1) as nat);
        lemma_row_cells_ok(p0, mask, dx, (dy_count - 1) as nat);
        let cur = placements_row(p0, mask, dx, dy_count);
        assert forall|k: int| 0 <= k < cur.len() implies placement_cells_ok(cur[k], mask) by {
            if k < prev.len() {
                assert(cur[k] == prev[k]);
            } else {
                assert(placement_ok(p0, dx, dy_count - 1, mask));
                lemma_at_ok_cells(p0, dx, dy_count - 1, mask);
                assert(cur[k] == placement_at(p0, dx, dy_count - 1));
            }
        }
    }
}

proof fn lemma_upto_cells_ok(p0: Seq<Cell>, mask: Seq<Seq<bool>>, dx_count: nat, dy_count: nat)
    requires
        mask_wf(mask),
    ensures
        forall|k: int|
            0 <= k < placements_upto(p0, mask, dx_count, dy_count).len() ==> placement_cells_ok(
                #[trigger] placements_upto(p0, mask, dx_count, dy_count)[k],
                mask,
            ),
    decreases dx_count,
{
    if dx_count > 0 {
        let prev = placements_upto(p0, mask, (dx_count - 1) as nat, dy_count);
        let row = placements_row(p0, mask, dx_count - 1, dy_count);
        lemma_upto_cells_ok(p0, mask, (dx_count - 1) as nat, dy_count);
        lemma_row_cells_ok(p0, mask, dx_count - 1, dy_count);
        let cur = placements_upto(p0, mask, dx_count, dy_count);
        assert forall|k: int| 0 <= k < cur.len() implies placement_cells_ok(cur[k], mask) by {
            if k < prev.len() {
                assert(cur[k] == prev[k]);
            } else {
                assert(cur[k] == row[k - prev.len()]);
            }
        }
    }
}

/// Placement validity: every cell of every generated placement lies within
/// the grid bounds, on a `true` mask cell.
pub proof fn lemma_placements_valid(s: Seq<Cell>, mask: Seq<Seq<bool>>)
    requires
        mask_wf(mask),
    ensures
        forall|k: int|
            0 <= k < placements_of(s, mask).len() ==> placement_cells_ok(
                #[trigger] placements_of(s, mask)[k],
                mask,
            ),
{
    let p0 = norm_map(s);
    let w = mask[0].len() as int;
    let h = mask.len() as int;
    if cells_max_x(p0) < w && cells_max_y(p0) < h {
        lemma_upto_cells_ok(p0, mask, (w - cells_max_x(p0)) as nat, (h - cells_max_y(p0)) as nat);
    }
}

impl Piece {
    /// Every translation of this piece that fits entirely on `true` cells
    /// of the mask, in column-major offset order.
    pub fn generate_all_positions(&self, grid_mask: &Vec<Vec<bool>>) -> (r: Vec<Piece>)
        requires
            self.wf(),
            self@.len() > 0,
            mask_wf(grid_mask.deep_view()),
        ensures
            views_of(r@) == placements_of(self@, grid_mask.deep_view()),
            forall|k: int| 0 <= k < r@.len() ==> (#[trigger] r@[k]).wf() && r@[k]@.len()
                == self@.len(),
    {
        let ghost m = grid_mask.deep_view();
        let p0 = self.shift_to_origin();
        let ((_, _), (mx, my)) = p0.get_min_max();
        proof {
            lemma_extremes(p0@);
        }
        let h = grid_mask.len();
        let w = grid_mask[0].len();
        proof {
            assert(m[0] =~= grid_mask@[0]@);
            assert(m.len() == grid_mask@.len());
        }
        let mut out: Vec<Piece> = Vec::new();
        if mx >= w || my >= h {
            proof {
                assert(views_of(out@) =~= placements_of(self@, m));
            }
            return out;
        }
        let dx_count = w - mx;
        let dy_count = h - my;
        for dx in 0..dx_count
            invariant
                m == grid_mask.deep_view(),
                mask_wf(m),
                h == m.len(),
                w == m[0].len(),
                p0@ == norm_map(self@),
                p0.wf(),
                p0@.len() == self@.len(),
                self@.len() > 0,
                mx == cells_max_x(p0@),
                my == cells_max_y(p0@),
                mx < w,
                my < h,
                dx_count == w - mx,
                dy_count == h - my,
                forall|k: int|
                    0 <= k < p0@.len() ==> (#[trigger] p0@[k]).0 <= mx && p0@[k].1 <= my,
                views_of(out@) == placements_upto(p0@, m, dx as nat, dy_count as nat),
                forall|k: int| 0 <= k < out@.len() ==> (#[trigger] out@[k]).wf() && out@[k]@.len()
                    == self@.len(),
        {
            for dy in 0..dy_count
                invariant
                    m == grid_mask.deep_view(),
                    mask_wf(m),
                    h == m.len(),
                    w == m[0].len(),
                    p0@ == norm_map(self@),
                    p0.wf(),
                    p0@.len() == self@.len(),
                    self@.len() > 0,
                    mx == cells_max_x(p0@),
                    my == cells_max_y(p0@),
                    mx < w,
                    my < h,
                    dx < dx_count,
                    dx_count == w - mx,
                    dy_count == h - my,
                    forall|k: int|
                        0 <= k < p0@.len() ==> (#[trigger] p0@[k]).0 <= mx && p0@[k].1 <= my,
                    views_of(out@) == placements_upto(p0@, m, dx as nat, dy_count as nat)
                        + placements_row(p0@, m, dx as int, dy as nat),
                    forall|k: int|
                        0 <= k < out@.len() ==> (#[trigger] out@[k]).wf() && out@[k]@.len()
                            == self@.len(),
            {
                proof {
                    assert forall|k: int|
                        0 <= k < p0@.len() implies (#[trigger] p0@[k]).0 + dx <= usize::MAX && (
                    p0@[k]).1 + dy <= usize::MAX by {
                        assert(p0@[k].0 + dx <= mx + dx < w);
                        assert(p0@[k].1 + dy <= my + dy < h);
                    }
                }
                let cand = p0.shift(dx, dy);
                let nc = cand.cells.len();
                let mut ok = true;
                let mut j: usize = 0;
                while j < nc && ok
                    invariant
                        m == grid_mask.deep_view(),
                        mask_wf(m),
                        h == m.len(),
                        w == m[0].len(),
                        nc == cand@.len(),
                        nc == p0@.len(),
                        cand@ == placement_at(p0@, dx as int, dy as int),
                        j <= nc,
                        mx == cells_max_x(p0@),
                        my == cells_max_y(p0@),
                        dx + mx < w,
                        dy + my < h,
                        forall|k: int|
                            0 <= k < p0@.len() ==> (#[trigger] p0@[k]).0 <= mx && p0@[k].1 <= my,
                        ok ==> forall|k: int|
                            0 <= k < j ==> {
                                let x = (#[trigger] p0@[k]).0 + dx;
                                let y = p0@[k].1 + dy;
                                m[y][x]
                            },
                        !ok ==> !placement_ok(p0@, dx as int, dy as int, m),
                    decreases nc - j + (if ok {
                        1int
                    } else {
                        0int
                    }),
                {
                    let c = cand.cells[j];
                    proof {
                        assert(cand@[j as int] == (((p0@[j as int].0 + dx) as usize, (p0@[
                        j as int].1 + dy) as usize)));
                        assert(p0@[j as int].1 + dy < h);
                        assert(p0@[j as int].0 + dx < w);
                        assert(m[c.1 as int].len() == w);
                        assert(grid_mask@[c.1 as int]@ =~= m[c.1 as int]);
                    }
                    if !grid_mask[c.1][c.0] {
                        ok = false;
                        proof {
                            assert(!m[p0@[j as int].1 + dy][p0@[j as int].0 + dx]);
                        }
                    } else {
                        j += 1;
                    }
                }
                proof {
                    if ok {
                        assert(j == nc);
                        assert(placement_ok(p0@, dx as int, dy as int, m)) by {
                            assert forall|i: int| 0 <= i < p0@.len() implies {
                                let x = (#[trigger] p0@[i]).0 + dx;
                                let y = p0@[i].1 + dy;
                                &&& 0 <= y < m.len()
                                &&& 0 <= x < m[y].len()
                                &&& m[y][x]
                            } by {
                                assert(p0@[i].1 + dy < h);
                                assert(p0@[i].0 + dx < w);
                                assert(m[p0@[i].1 + dy].len() == w);
                            }
                        }
                    }
                }
                let ghost rowpre = placements_row(p0@, m, dx as int, dy as nat);
                let ghost vpre = views_of(out@);
                if ok {
                    out.push(cand);
                }
                proof {
                    let rownext = placements_row(p0@, m, dx as int, (dy + 1) as nat);
                    if ok {
                        assert(rownext =~= rowpre + seq![placement_at(p0@, dx as int, dy as int)]);
                        assert(views_of(out@) =~= vpre.push(cand@));
                        assert(views_of(out@) =~= placements_upto(p0@, m, dx as nat,
                        dy_count as nat) + rownext);
                    } else {
                        assert(rownext =~= rowpre);
                        assert(views_of(out@) =~= placements_upto(p0@, m, dx as nat,
                        dy_count as nat) + rownext);
                    }
                }
            }
            proof {
                assert(placements_upto(p0@, m, (dx + 1) as nat, dy_count as nat) =~= placements_upto(
                    p0@,
                    m,
                    dx as nat,
                    dy_count as nat,
                ) + placements_row(p0@, m, dx as int, dy_count as nat));
            }
        }
        proof {
            assert(views_of(out@) =~= placements_of(self@, m));
        }
        out
    }
}

impl Clone for Piece {
    fn clone(&self) -> (r: Self)
        ensures
            r@ == self@,
    {
        let n = self.cells.len();
        let mut out: Vec<Cell> = Vec::new();
        for i in 0..n
            invariant
                n == self@.len(),
                out@.len() == i,
                forall|k: int| 0 <= k < i ==> out@[k] == self@[k],
        {
            out.push(self.cells[i]);
        }
        proof {
            assert(out@ =~= self@);
        }
        Piece { cells: out }
    }
}

} // verus!

use vstd::prelude::*;
use vstd::string::StrSliceExecFns;

verus! {

/// A region mask is well formed when it is a non-degenerate rectangle:
/// at least one row, at least one column, and all rows of equal length.
pub open spec fn mask_wf(m: Seq<Seq<bool>>) -> bool {
    &&& 0 < m.len() <= usize::MAX
    &&& 0 < m[0].len() <= usize::MAX
    &&& forall|i: int| 0 <= i < m.len() ==> (#[trigger] m[i]).len() == m[0].len()
}

/// Convert rows of text into a boolean grid: `'X'` marks a coverable cell,
/// any other character an excluded one.
pub fn grid_mask_str2bool(grid_mask_str: Vec<&str>) -> (r: Vec<Vec<bool>>)
    ensures
        r.deep_view().len() == grid_mask_str@.len(),
        forall|i: int|
            0 <= i < r.deep_view().len() ==> (#[trigger] r.deep_view()[i]).len()
                == grid_mask_str@[i]@.len(),
        forall|i: int, j: int|
            0 <= i < r.deep_view().len() && 0 <= j < r.deep_view()[i].len()
                ==> r.deep_view()[i][j] == (grid_mask_str@[i]@[j] == 'X'),
{
    let n = grid_mask_str.len();
    let mut out: Vec<Vec<bool>> = Vec::new();
    for i in 0..n
        invariant
            n == grid_mask_str@.len(),
            out@.len() == i,
            forall|k: int| 0 <= k < i ==> (#[trigger] out@[k])@.len() == grid_mask_str@[k]@.len(),
            forall|k: int, j: int|
                0 <= k < i && 0 <= j < out@[k]@.len() ==> (#[trigger] out@[k]@[j]) == (
                grid_mask_str@[k]@[j] == 'X'),
    {
        let row = grid_mask_str[i];
        let len = row.unicode_len();
        let mut brow: Vec<bool> = Vec::new();
        for j in 0..len
            invariant
                len == row@.len(),
                row@ == grid_mask_str@[i as int]@,
                brow@.len() == j,
                forall|k: int| 0 <= k < j ==> brow@[k] == (row@[k] == 'X'),
        {
            let c = row.get_char(j);
            brow.push(c == 'X');
        }
        out.push(brow);
    }
    proof {
        assert(out.deep_view().len() == out@.len());
        assert(forall|k: int|
            0 <= k < out@.len() ==> (#[trigger] out.deep_view()[k]) =~= out@[k]@);
    }
    out
}

} // verus!

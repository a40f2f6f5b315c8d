use vstd::prelude::*;

verus! {

/// Side length of the square board.
pub const N: usize = 4;

/// A move the player can request: push every tile toward one edge.
#[derive(Debug, Clone, Copy, PartialEq, Eq, Structural)]
pub enum Action {
    Up,
    Down,
    Left,
    Right,
}

/// A board is a 4x4 matrix of tile ranks. Rank 0 is the empty cell;
/// rank r > 0 stands for the tile of value 2^r. Every operation is
/// functional: it returns a new board value.
#[derive(Debug, Clone, Copy, PartialEq, Eq, Hash)]
pub struct Board {
    pub cells: [[u8; 4]; 4],
}

impl View for Board {
    type V = Seq<Seq<u8>>;

    open spec fn view(&self) -> Seq<Seq<u8>> {
        Seq::new(4, |i: int| self.cells[i]@)
    }
}

/// A grid value is well-shaped: four rows of four cells each.
pub open spec fn wf_grid(g: Seq<Seq<u8>>) -> bool {
    g.len() == 4 && (forall|i: int| 0 <= i < 4 ==> (#[trigger] g[i]).len() == 4)
}

/// The all-zero grid.
pub open spec fn empty_grid() -> Seq<Seq<u8>> {
    Seq::new(4, |i: int| Seq::new(4, |j: int| 0u8))
}

/// The nonzero ranks of a row, in order, zeros removed.
pub open spec fn compact_row(s: Seq<u8>) -> Seq<u8>
    decreases s.len(),
{
    if s.len() == 0 {
        Seq::empty()
    } else if s.last() == 0 {
        compact_row(s.drop_last())
    } else {
        compact_row(s.drop_last()).push(s.last())
    }
}

/// One left-to-right merge pass over a compacted row: the first two equal
/// ranks of a run merge into the next rank, and the merged tile takes no
/// further part in the pass. A rank at the storage maximum never merges,
/// so ranks cannot wrap around.
pub open spec fn merge_row(s: Seq<u8>) -> Seq<u8>
    decreases s.len(),
{
    if s.len() <= 1 {
        s
    } else if s[0] == s[1] && s[0] < 255 {
        seq![(s[0] + 1) as u8] + merge_row(s.skip(2))
    } else {
        seq![s[0]] + merge_row(s.skip(1))
    }
}

/// Fill a row out to four cells with trailing zeros.
pub open spec fn pad_row(s: Seq<u8>) -> Seq<u8> {
    if s.len() >= 4 {
        s
    } else {
        s + Seq::new((4 - s.len()) as nat, |i: int| 0u8)
    }
}

/// The canonical transition primitive: compact the row leftward, merge
/// adjacent equal ranks in one pass, and pad with zeros.
pub open spec fn push_row_spec(s: Seq<u8>) -> Seq<u8> {
    pad_row(merge_row(compact_row(s)))
}

/// Rows and columns exchanged.
pub open spec fn transpose_spec(g: Seq<Seq<u8>>) -> Seq<Seq<u8>> {
    Seq::new(4, |i: int| Seq::new(4, |j: int| g[j][i]))
}

/// Each row reversed.
pub open spec fn mirror_spec(g: Seq<Seq<u8>>) -> Seq<Seq<u8>> {
    Seq::new(4, |i: int| Seq::new(4, |j: int| g[i][3 - j]))
}

/// Every row pushed left.
pub open spec fn push_grid_spec(g: Seq<Seq<u8>>) -> Seq<Seq<u8>> {
    Seq::new(4, |i: int| push_row_spec(g[i]))
}

/// The grid an action yields, before the legality test: the push-left
/// primitive composed with the symmetries that realize each direction.
pub open spec fn apply_spec(g: Seq<Seq<u8>>, a: Action) -> Seq<Seq<u8>> {
    match a {
        Action::Left => push_grid_spec(g),
        Action::Right => mirror_spec(push_grid_spec(mirror_spec(g))),
        Action::Up => transpose_spec(push_grid_spec(transpose_spec(g))),
        Action::Down => transpose_spec(mirror_spec(push_grid_spec(mirror_spec(transpose_spec(g))))),
    }
}

/// An action is legal exactly when it changes the grid.
pub open spec fn legal(g: Seq<Seq<u8>>, a: Action) -> bool {
    apply_spec(g, a) != g
}

/// The cell at flat row-major index `idx` (0..16).
pub open spec fn cell_at(g: Seq<Seq<u8>>, idx: int) -> u8 {
    g[idx / 4][idx % 4]
}

/// How many of the first `idx` cells, in row-major order, are empty.
pub open spec fn zeros_upto(g: Seq<Seq<u8>>, idx: int) -> nat
    decreases idx,
{
    if idx <= 0 {
        0
    } else {
        zeros_upto(g, idx - 1) + (if cell_at(g, idx - 1) == 0 { 1nat } else { 0nat })
    }
}

/// The number of empty cells of the whole grid.
pub open spec fn empty_count(g: Seq<Seq<u8>>) -> nat {
    zeros_upto(g, 16)
}

/// The flat index of the `k`-th empty cell at or after `start`, or 16 if
/// there is none.
pub open spec fn kth_zero_from(g: Seq<Seq<u8>>, start: int, k: int) -> int
    decreases 16 - start,
{
    if start < 0 || start >= 16 {
        16
    } else if cell_at(g, start) == 0 {
        if k == 0 {
            start
        } else {
            kth_zero_from(g, start + 1, k - 1)
        }
    } else {
        kth_zero_from(g, start + 1, k)
    }
}

/// The flat index of the `k`-th empty cell in row-major order.
pub open spec fn kth_zero(g: Seq<Seq<u8>>, k: int) -> int {
    kth_zero_from(g, 0, k)
}

/// The grid with the cell at flat index `idx` replaced by rank `v`.
pub open spec fn place_spec(g: Seq<Seq<u8>>, idx: int, v: u8) -> Seq<Seq<u8>> {
    g.update(idx / 4, g[idx / 4].update(idx % 4, v))
}

/// How many cells of a row are occupied.
pub open spec fn nonzeros_in(s: Seq<u8>) -> nat
    decreases s.len(),
{
    if s.len() == 0 {
        0
    } else {
        nonzeros_in(s.drop_last()) + (if s.last() == 0 { 0nat } else { 1nat })
    }
}

/// The grid holds some tile of rank `r` or higher.
pub open spec fn grid_has_rank(g: Seq<Seq<u8>>, r: u8) -> bool {
    exists|t: int| 0 <= t < 16 && cell_at(g, t) >= r
}

/// Applies the canonical left push to a single row: compacts the nonzero
/// ranks leftward, merges adjacent equal ranks in one pass without
/// cascading, and fills the tail with zeros.
pub fn push_left(row: [u8; 4]) -> (r: [u8; 4])
    ensures
        r@ == push_row_spec(row@),
{
    // Compact: collect the nonzero ranks in order.
    let mut c: Vec<u8> = Vec::new();
    let mut j: usize = 0;
    while j < 4
        invariant
            j <= 4,
            c@ == compact_row(row@.take(j as int)),
        decreases 4 - j,
    {
        proof {
            assert(row@.take(j + 1).drop_last() =~= row@.take(j as int));
            assert(row@.take(j + 1).last() == row@[j as int]);
        }
        if row[j] != 0 {
            c.push(row[j]);
        }
        j += 1;
    }
    proof {
        assert(row@.take(4) =~= row@);
        lemma_compact_len(row@);
    }

    // Merge: one left-to-right pass.
    let clen = c.len();
    let mut m: Vec<u8> = Vec::new();
    proof {
        assert(c@.skip(0) =~= c@);
        assert(Seq::<u8>::empty() + merge_row(c@) =~= merge_row(c@));
    }
    let mut i: usize = 0;
    while i < clen
        invariant
            i <= clen,
            clen == c@.len(),
            c@.len() <= 4,
            m@.len() <= i,
            merge_row(c@) == m@ + merge_row(c@.skip(i as int)),
        decreases clen - i,
    {
        let ghost pre = m@;
        if i + 1 < clen && c[i] == c[i + 1] && c[i] < 255 {
            m.push(c[i] + 1);
            proof {
                assert(c@.skip(i as int).skip(2) =~= c@.skip(i + 2));
                assert(merge_row(c@.skip(i as int)) =~= seq![(c@[i as int] + 1) as u8]
                    + merge_row(c@.skip(i + 2)));
                assert(pre + merge_row(c@.skip(i as int)) =~= m@ + merge_row(c@.skip(i + 2)));
            }
            i += 2;
        } else {
            m.push(c[i]);
            proof {
                if i + 1 < clen {
                    assert(c@.skip(i as int).skip(1) =~= c@.skip(i + 1));
                    assert(merge_row(c@.skip(i as int)) =~= seq![c@[i as int]]
                        + merge_row(c@.skip(i + 1)));
                } else {
                    assert(c@.skip(i as int) =~= seq![c@[i as int]]);
                    assert(c@.skip(i + 1) =~= Seq::<u8>::empty());
                    assert(merge_row(c@.skip(i as int)) =~= seq![c@[i as int]]
                        + merge_row(c@.skip(i + 1)));
                }
                assert(pre + merge_row(c@.skip(i as int)) =~= m@ + merge_row(c@.skip(i + 1)));
            }
            i += 1;
        }
    }
    proof {
        assert(c@.skip(clen as int) =~= Seq::<u8>::empty());
        assert(merge_row(c@) =~= m@);
    }

    // Pad the merged row out to four cells.
    let mut out: [u8; 4] = [0u8; 4];
    let mlen = m.len();
    let mut k: usize = 0;
    while k < mlen
        invariant
            k <= mlen,
            mlen == m@.len() <= 4,
            out@.len() == 4,
            forall|t: int| 0 <= t < k ==> out@[t] == m@[t],
            forall|t: int| k <= t < 4 ==> out@[t] == 0u8,
        decreases mlen - k,
    {
        out[k] = m[k];
        k += 1;
    }
    proof {
        assert(out@ =~= pad_row(m@));
    }
    out
}

/// The compacted row is never longer than the row.
pub proof fn lemma_compact_len(s: Seq<u8>)
    ensures
        compact_row(s).len() <= s.len(),
    decreases s.len(),
{
    if s.len() > 0 {
        lemma_compact_len(s.drop_last());
    }
}

/// The merge pass never lengthens a row.
pub proof fn lemma_merge_len(s: Seq<u8>)
    ensures
        merge_row(s).len() <= s.len(),
    decreases s.len(),
{
    if s.len() <= 1 {
    } else if s[0] == s[1] && s[0] < 255 {
        lemma_merge_len(s.skip(2));
    } else {
        lemma_merge_len(s.skip(1));
    }
}

impl Board {
    /// The board with every cell empty.
    pub fn empty() -> (r: Board)
        ensures
            r@ == empty_grid(),
    {
        let b = Board { cells: [[0u8; 4], [0u8; 4], [0u8; 4], [0u8; 4]] };
        proof {
            assert forall|i: int| 0 <= i < 4 implies b@[i] =~= empty_grid()[i] by {}
            assert(b@ =~~= empty_grid());
        }
        b
    }

    /// Every board value is a well-shaped grid.
    pub proof fn lemma_wf(&self)
        ensures
            wf_grid(self@),
    {
    }

    /// The grid with rows and columns exchanged. Self-inverse.
    pub fn transposed(&self) -> (r: Board)
        ensures
            r@ == transpose_spec(self@),
    {
        let mut out: [[u8; 4]; 4] = [[0u8; 4], [0u8; 4], [0u8; 4], [0u8; 4]];
        let mut i: usize = 0;
        while i < 4
            invariant
                i <= 4,
                out@.len() == 4,
                forall|a: int, b: int| 0 <= a < i && 0 <= b < 4 ==> out[a]@[b] == self@[b][a],
            decreases 4 - i,
        {
            let mut row: [u8; 4] = [0u8; 4];
            let mut j: usize = 0;
            while j < 4
                invariant
                    j <= 4,
                    i < 4,
                    forall|b: int| 0 <= b < j ==> row@[b] == self@[b][i as int],
                decreases 4 - j,
            {
                row[j] = self.cells[j][i];
                j += 1;
            }
            out[i] = row;
            i += 1;
        }
        let r = Board { cells: out };
        proof {
            assert forall|a: int| 0 <= a < 4 implies r@[a] =~= transpose_spec(self@)[a] by {}
            assert(r@ =~~= transpose_spec(self@));
        }
        r
    }

    /// The grid with every row reversed. Self-inverse.
    pub fn mirrored(&self) -> (r: Board)
        ensures
            r@ == mirror_spec(self@),
    {
        let mut out: [[u8; 4]; 4] = [[0u8; 4], [0u8; 4], [0u8; 4], [0u8; 4]];
        let mut i: usize = 0;
        while i < 4
            invariant
                i <= 4,
                forall|a: int, b: int| 0 <= a < i && 0 <= b < 4 ==> out[a]@[b] == self@[a][3 - b],
            decreases 4 - i,
        {
            let mut row: [u8; 4] = [0u8; 4];
            let mut j: usize = 0;
            while j < 4
                invariant
                    j <= 4,
                    i < 4,
                    forall|b: int| 0 <= b < j ==> row@[b] == self@[i as int][3 - b],
                decreases 4 - j,
            {
                row[j] = self.cells[i][3 - j];
                j += 1;
            }
            out[i] = row;
            i += 1;
        }
        let r = Board { cells: out };
        proof {
            assert forall|a: int| 0 <= a < 4 implies r@[a] =~= mirror_spec(self@)[a] by {}
            assert(r@ =~~= mirror_spec(self@));
        }
        r
    }

    /// Every row pushed left.
    pub fn pushed_left(&self) -> (r: Board)
        ensures
            r@ == push_grid_spec(self@),
    {
        let mut out: [[u8; 4]; 4] = [[0u8; 4], [0u8; 4], [0u8; 4], [0u8; 4]];
        let mut i: usize = 0;
        while i < 4
            invariant
                i <= 4,
                forall|a: int| 0 <= a < i ==> out[a]@ == push_row_spec(self@[a]),
            decreases 4 - i,
        {
            out[i] = push_left(self.cells[i]);
            i += 1;
        }
        let r = Board { cells: out };
        proof {
            assert forall|a: int| 0 <= a < 4 implies r@[a] == push_grid_spec(self@)[a] by {}
            assert(r@ =~~= push_grid_spec(self@));
        }
        r
    }

    /// Structural equality of two boards.
    pub fn same_grid(&self, other: &Board) -> (r: bool)
        ensures
            r <==> self@ == other@,
    {
        let mut i: usize = 0;
        while i < 4
            invariant
                i <= 4,
                forall|a: int, b: int| 0 <= a < i && 0 <= b < 4 ==> self@[a][b] == other@[a][b],
            decreases 4 - i,
        {
            let mut j: usize = 0;
            while j < 4
                invariant
                    j <= 4,
                    i < 4,
                    forall|b: int| 0 <= b < j ==> self@[i as int][b] == other@[i as int][b],
                decreases 4 - j,
            {
                if self.cells[i][j] != other.cells[i][j] {
                    proof {
                        assert(self@[i as int][j as int] != other@[i as int][j as int]);
                    }
                    return false;
                }
                j += 1;
            }
            i += 1;
        }
        proof {
            assert forall|a: int| 0 <= a < 4 implies self@[a] =~= other@[a] by {}
            assert(self@ =~~= other@);
        }
        true
    }

    /// Returns the board the action yields, or None when the action is
    /// illegal, that is, when it would leave the grid unchanged. The
    /// equality test is the sole legality test.
    pub fn apply(&self, action: Action) -> (r: Option<Board>)
        ensures
            r is Some <==> legal(self@, action),
            r matches Some(b) ==> b@ == apply_spec(self@, action) && b@ != self@,
    {
        let next = match action {
            Action::Left => self.pushed_left(),
            Action::Right => self.mirrored().pushed_left().mirrored(),
            Action::Up => self.transposed().pushed_left().transposed(),
            Action::Down => self.transposed().mirrored().pushed_left().mirrored().transposed(),
        };
        if self.same_grid(&next) {
            None
        } else {
            Some(next)
        }
    }

    /// Counts the empty cells of the board.
    pub fn num_empty(&self) -> (n: usize)
        ensures
            n == empty_count(self@),
    {
        let mut n: usize = 0;
        let mut i: usize = 0;
        while i < 4
            invariant
                i <= 4,
                n == zeros_upto(self@, 4 * i),
                n <= 4 * i,
            decreases 4 - i,
        {
            let mut j: usize = 0;
            while j < 4
                invariant
                    j <= 4,
                    i < 4,
                    n == zeros_upto(self@, 4 * i + j),
                    n <= 4 * i + j,
                decreases 4 - j,
            {
                proof {
                    lemma_flat_cell(self@, i as int, j as int);
                }
                if self.cells[i][j] == 0 {
                    n += 1;
                }
                j += 1;
            }
            i += 1;
        }
        n
    }

    /// The flat index of the `k`-th empty cell in row-major order.
    pub fn nth_empty(&self, k: usize) -> (idx: usize)
        requires
            k < empty_count(self@),
        ensures
            idx < 16,
            idx == kth_zero(self@, k as int),
            cell_at(self@, idx as int) == 0,
    {
        let mut count: usize = 0;
        let mut i: usize = 0;
        while i < 4
            invariant
                i <= 4,
                count <= k < empty_count(self@),
                count == zeros_upto(self@, 4 * i),
                kth_zero(self@, k as int) == kth_zero_from(self@, 4 * i, k - count),
            decreases 4 - i,
        {
            let mut j: usize = 0;
            while j < 4
                invariant
                    j <= 4,
                    i < 4,
                    count <= k < empty_count(self@),
                    count == zeros_upto(self@, 4 * i + j),
                    kth_zero(self@, k as int) == kth_zero_from(self@, 4 * i + j, k - count),
                decreases 4 - j,
            {
                proof {
                    lemma_flat_cell(self@, i as int, j as int);
                }
                if self.cells[i][j] == 0 {
                    if count == k {
                        return 4 * i + j;
                    }
                    count += 1;
                }
                j += 1;
            }
            i += 1;
        }
        proof {
            lemma_zeros_upto_full(self@);
            assert(false);
        }
        0
    }

    /// The board with the cell at flat index `idx` set to rank `v`.
    pub fn with_cell(&self, idx: usize, v: u8) -> (r: Board)
        requires
            idx < 16,
        ensures
            r@ == place_spec(self@, idx as int, v),
    {
        let i = idx / 4;
        let j = idx % 4;
        let mut row = self.cells[i];
        row[j] = v;
        let mut out = self.cells;
        out[i] = row;
        let r = Board { cells: out };
        proof {
            assert(r@[i as int] =~= place_spec(self@, idx as int, v)[i as int]);
            assert forall|a: int| 0 <= a < 4 implies r@[a] == place_spec(self@, idx as int, v)[a] by {
                if a != i as int {
                    assert(r@[a] =~= place_spec(self@, idx as int, v)[a]);
                }
            }
            assert(r@ =~~= place_spec(self@, idx as int, v));
        }
        r
    }

    /// The board holds some tile of rank `r` or higher.
    pub fn has_at_least_tile(&self, r: u8) -> (b: bool)
        ensures
            b == grid_has_rank(self@, r),
    {
        let mut i: usize = 0;
        while i < 4
            invariant
                i <= 4,
                forall|t: int| 0 <= t < 4 * i ==> cell_at(self@, t) < r,
            decreases 4 - i,
        {
            let mut j: usize = 0;
            while j < 4
                invariant
                    j <= 4,
                    i < 4,
                    forall|t: int| 0 <= t < 4 * i + j ==> cell_at(self@, t) < r,
                decreases 4 - j,
            {
                proof {
                    lemma_flat_cell(self@, i as int, j as int);
                }
                if self.cells[i][j] >= r {
                    proof {
                        assert(cell_at(self@, 4 * i + j) >= r);
                    }
                    return true;
                }
                j += 1;
            }
            i += 1;
        }
        false
    }
}

/// A flat index 4*i + j addresses row i, column j.
pub proof fn lemma_flat_cell(g: Seq<Seq<u8>>, i: int, j: int)
    requires
        0 <= i < 4,
        0 <= j < 4,
    ensures
        cell_at(g, 4 * i + j) == g[i][j],
{
    assert((4 * i + j) / 4 == i && (4 * i + j) % 4 == j) by (nonlinear_arith)
        requires
            0 <= i < 4 && 0 <= j < 4,
    ;
}

/// A grid has at most sixteen empty cells among its first sixteen slots.
pub proof fn lemma_zeros_upto_full(g: Seq<Seq<u8>>)
    ensures
        empty_count(g) <= 16,
{
    lemma_zeros_upto_le(g, 16);
}

/// The running zero count never exceeds the number of cells scanned.
pub proof fn lemma_zeros_upto_le(g: Seq<Seq<u8>>, idx: int)
    requires
        idx >= 0,
    ensures
        zeros_upto(g, idx) <= idx,
    decreases idx,
{
    if idx > 0 {
        lemma_zeros_upto_le(g, idx - 1);
    }
}

/// Scanning more cells never lowers the running zero count.
pub proof fn lemma_zeros_upto_mono(g: Seq<Seq<u8>>, a: int, b: int)
    requires
        a <= b,
    ensures
        zeros_upto(g, a) <= zeros_upto(g, b),
    decreases b - a,
{
    if a < b {
        lemma_zeros_upto_mono(g, a, b - 1);
    }
}

/// A grid with a zero cell has a positive empty count.
pub proof fn lemma_zero_cell_counts(g: Seq<Seq<u8>>, t: int)
    requires
        0 <= t < 16,
        cell_at(g, t) == 0,
    ensures
        empty_count(g) >= 1,
{
    assert(zeros_upto(g, t + 1) >= 1);
    lemma_zeros_upto_mono(g, t + 1, 16);
}

/// A compacted row that kept its length had nothing to remove.
proof fn lemma_compact_full(s: Seq<u8>)
    requires
        compact_row(s).len() == s.len(),
    ensures
        compact_row(s) == s,
    decreases s.len(),
{
    if s.len() == 0 {
        assert(compact_row(s) =~= s);
    } else if s.last() == 0 {
        lemma_compact_len(s.drop_last());
        assert(false);
    } else {
        lemma_compact_len(s.drop_last());
        lemma_compact_full(s.drop_last());
        assert(compact_row(s) =~= s.drop_last().push(s.last()));
        assert(s.drop_last().push(s.last()) =~= s);
    }
}

/// A merge pass that kept the length merged nothing.
proof fn lemma_merge_full(s: Seq<u8>)
    requires
        merge_row(s).len() == s.len(),
    ensures
        merge_row(s) == s,
    decreases s.len(),
{
    if s.len() <= 1 {
    } else if s[0] == s[1] && s[0] < 255 {
        lemma_merge_len(s.skip(2));
        assert(false);
    } else {
        lemma_merge_len(s.skip(1));
        lemma_merge_full(s.skip(1));
        assert(merge_row(s) =~= seq![s[0]] + s.skip(1));
        assert(seq![s[0]] + s.skip(1) =~= s);
    }
}

/// A pushed row always has four cells.
pub proof fn lemma_push_row_len(s: Seq<u8>)
    requires
        s.len() == 4,
    ensures
        push_row_spec(s).len() == 4,
{
    lemma_compact_len(s);
    lemma_merge_len(compact_row(s));
}

/// A push that changed the row left its last cell empty.
pub proof fn lemma_push_changed_row(s: Seq<u8>)
    requires
        s.len() == 4,
        push_row_spec(s) != s,
    ensures
        push_row_spec(s).len() == 4,
        push_row_spec(s)[3] == 0,
{
    let c = compact_row(s);
    let m = merge_row(c);
    lemma_compact_len(s);
    lemma_merge_len(c);
    if m.len() == 4 {
        lemma_compact_full(s);
        lemma_merge_full(c);
        assert(pad_row(m) == s);
        assert(false);
    }
}

/// A changed grid after a leftward push holds an empty cell.
proof fn lemma_push_grid_changed(g: Seq<Seq<u8>>)
    requires
        wf_grid(g),
        push_grid_spec(g) != g,
    ensures
        exists|t: int| 0 <= t < 16 && cell_at(#[trigger] push_grid_spec(g), t) == 0,
{
    if forall|i: int| 0 <= i < 4 ==> #[trigger] push_row_spec(g[i]) == g[i] {
        assert(push_grid_spec(g) =~= g);
        assert(false);
    }
    let i = choose|i: int| 0 <= i < 4 && push_row_spec(g[i]) != g[i];
    lemma_push_changed_row(g[i]);
    lemma_flat_cell(push_grid_spec(g), i, 3);
    assert(cell_at(push_grid_spec(g), 4 * i + 3) == 0);
}

/// Mirroring keeps an empty cell empty.
proof fn lemma_mirror_keeps_zero(h: Seq<Seq<u8>>, t: int)
    requires
        0 <= t < 16,
        cell_at(h, t) == 0,
    ensures
        exists|u: int| 0 <= u < 16 && cell_at(#[trigger] mirror_spec(h), u) == 0,
{
    let i = t / 4;
    let j = t % 4;
    lemma_flat_cell(h, i, j);
    lemma_flat_cell(mirror_spec(h), i, 3 - j);
    assert(cell_at(mirror_spec(h), 4 * i + (3 - j)) == 0);
}

/// Transposing keeps an empty cell empty.
proof fn lemma_transpose_keeps_zero(h: Seq<Seq<u8>>, t: int)
    requires
        0 <= t < 16,
        cell_at(h, t) == 0,
    ensures
        exists|u: int| 0 <= u < 16 && cell_at(#[trigger] transpose_spec(h), u) == 0,
{
    let i = t / 4;
    let j = t % 4;
    lemma_flat_cell(h, i, j);
    lemma_flat_cell(transpose_spec(h), j, i);
    assert(cell_at(transpose_spec(h), 4 * j + i) == 0);
}

/// Transposing twice gives the grid back.
pub proof fn lemma_transpose_involutive(g: Seq<Seq<u8>>)
    requires
        wf_grid(g),
    ensures
        transpose_spec(transpose_spec(g)) == g,
{
    assert forall|i: int| 0 <= i < 4 implies transpose_spec(transpose_spec(g))[i] =~= g[i] by {}
    assert(transpose_spec(transpose_spec(g)) =~~= g);
}

/// Mirroring twice gives the grid back.
pub proof fn lemma_mirror_involutive(g: Seq<Seq<u8>>)
    requires
        wf_grid(g),
    ensures
        mirror_spec(mirror_spec(g)) == g,
{
    assert forall|i: int| 0 <= i < 4 implies mirror_spec(mirror_spec(g))[i] =~= g[i] by {}
    assert(mirror_spec(mirror_spec(g)) =~~= g);
}

/// The grid an action yields is well-shaped.
pub proof fn lemma_apply_wf(g: Seq<Seq<u8>>, a: Action)
    requires
        wf_grid(g),
    ensures
        wf_grid(apply_spec(g, a)),
{
    match a {
        Action::Left => {
            assert forall|i: int| 0 <= i < 4 implies (#[trigger] apply_spec(g, a)[i]).len() == 4 by {
                lemma_push_row_len(g[i]);
            }
        },
        Action::Right => {},
        Action::Up => {},
        Action::Down => {},
    }
}

/// A legal move always frees at least one cell: the grid after any legal
/// action holds an empty cell.
pub proof fn lemma_apply_changed_has_empty(g: Seq<Seq<u8>>, a: Action)
    requires
        wf_grid(g),
        legal(g, a),
    ensures
        empty_count(apply_spec(g, a)) >= 1,
{
    match a {
        Action::Left => {
            lemma_push_grid_changed(g);
            let t = choose|t: int| 0 <= t < 16 && cell_at(push_grid_spec(g), t) == 0;
            lemma_zero_cell_counts(apply_spec(g, a), t);
        },
        Action::Right => {
            let h = mirror_spec(g);
            if push_grid_spec(h) == h {
                lemma_mirror_involutive(g);
                assert(false);
            }
            lemma_push_grid_changed(h);
            let t = choose|t: int| 0 <= t < 16 && cell_at(push_grid_spec(h), t) == 0;
            lemma_mirror_keeps_zero(push_grid_spec(h), t);
            let u = choose|u: int| 0 <= u < 16 && cell_at(mirror_spec(push_grid_spec(h)), u) == 0;
            lemma_zero_cell_counts(apply_spec(g, a), u);
        },
        Action::Up => {
            let h = transpose_spec(g);
            if push_grid_spec(h) == h {
                lemma_transpose_involutive(g);
                assert(false);
            }
            lemma_push_grid_changed(h);
            let t = choose|t: int| 0 <= t < 16 && cell_at(push_grid_spec(h), t) == 0;
            lemma_transpose_keeps_zero(push_grid_spec(h), t);
            let u = choose|u: int| 0 <= u < 16 && cell_at(transpose_spec(push_grid_spec(h)), u)
                == 0;
            lemma_zero_cell_counts(apply_spec(g, a), u);
        },
        Action::Down => {
            let tg = transpose_spec(g);
            let h = mirror_spec(tg);
            if push_grid_spec(h) == h {
                lemma_mirror_involutive(tg);
                lemma_transpose_involutive(g);
                assert(apply_spec(g, a) == g);
                assert(false);
            }
            lemma_push_grid_changed(h);
            let t = choose|t: int| 0 <= t < 16 && cell_at(push_grid_spec(h), t) == 0;
            lemma_mirror_keeps_zero(push_grid_spec(h), t);
            let u = choose|u: int| 0 <= u < 16 && cell_at(mirror_spec(push_grid_spec(h)), u) == 0;
            lemma_transpose_keeps_zero(mirror_spec(push_grid_spec(h)), u);
            let w = choose|w: int|
                0 <= w < 16 && cell_at(transpose_spec(mirror_spec(push_grid_spec(h))), w) == 0;
            lemma_zero_cell_counts(apply_spec(g, a), w);
        },
    }
}

/// A row never holds more occupied cells than it has cells.
pub proof fn lemma_nonzeros_le(s: Seq<u8>)
    ensures
        nonzeros_in(s) <= s.len(),
    decreases s.len(),
{
    if s.len() > 0 {
        lemma_nonzeros_le(s.drop_last());
    }
}

/// Compaction keeps exactly the occupied cells.
proof fn lemma_compact_nonzeros(s: Seq<u8>)
    ensures
        compact_row(s).len() == nonzeros_in(s),
    decreases s.len(),
{
    if s.len() > 0 {
        lemma_compact_nonzeros(s.drop_last());
    }
}

/// Appending zeros adds no occupied cell.
proof fn lemma_append_zeros_nonzeros(s: Seq<u8>, k: nat)
    ensures
        nonzeros_in(s + Seq::new(k, |i: int| 0u8)) == nonzeros_in(s),
    decreases k,
{
    if k == 0 {
        assert(s + Seq::new(0, |i: int| 0u8) =~= s);
    } else {
        assert((s + Seq::new(k, |i: int| 0u8)).drop_last() =~= s + Seq::new(
            (k - 1) as nat,
            |i: int| 0u8,
        ));
        assert((s + Seq::new(k, |i: int| 0u8)).last() == 0u8);
        lemma_append_zeros_nonzeros(s, (k - 1) as nat);
    }
}

/// Pushing a row never increases the number of occupied cells.
pub proof fn lemma_push_never_adds_tiles(s: Seq<u8>)
    ensures
        nonzeros_in(push_row_spec(s)) <= nonzeros_in(s),
{
    let c = compact_row(s);
    let m = merge_row(c);
    lemma_compact_nonzeros(s);
    lemma_merge_len(c);
    lemma_nonzeros_le(m);
    if m.len() >= 4 {
    } else {
        lemma_append_zeros_nonzeros(m, (4 - m.len()) as nat);
    }
}

/// Every rank of the row is at most `m`.
pub open spec fn row_bounded(s: Seq<u8>, m: u8) -> bool {
    forall|t: int| 0 <= t < s.len() ==> s[t] <= m
}

/// Every rank of the grid is at most `m`.
pub open spec fn rank_bounded(g: Seq<Seq<u8>>, m: u8) -> bool {
    forall|i: int, j: int| 0 <= i < 4 && 0 <= j < 4 ==> g[i][j] <= m
}

proof fn lemma_compact_bounded(s: Seq<u8>, m: u8)
    requires
        row_bounded(s, m),
    ensures
        row_bounded(compact_row(s), m),
    decreases s.len(),
{
    if s.len() > 0 {
        assert(row_bounded(s.drop_last(), m));
        lemma_compact_bounded(s.drop_last(), m);
    }
}

proof fn lemma_merge_bounded(s: Seq<u8>, m: u8)
    requires
        row_bounded(s, m),
        m <= 254,
    ensures
        row_bounded(merge_row(s), (m + 1) as u8),
    decreases s.len(),
{
    if s.len() <= 1 {
    } else if s[0] == s[1] && s[0] < 255 {
        assert(row_bounded(s.skip(2), m));
        lemma_merge_bounded(s.skip(2), m);
    } else {
        assert(row_bounded(s.skip(1), m));
        lemma_merge_bounded(s.skip(1), m);
    }
}

/// A push raises the largest rank of a row by at most one.
pub proof fn lemma_push_bounded(s: Seq<u8>, m: u8)
    requires
        row_bounded(s, m),
        m <= 254,
    ensures
        row_bounded(push_row_spec(s), (m + 1) as u8),
{
    lemma_compact_bounded(s, m);
    lemma_merge_bounded(compact_row(s), m);
}

/// Any action raises the largest rank of the grid by at most one.
pub proof fn lemma_apply_bounded(g: Seq<Seq<u8>>, a: Action, m: u8)
    requires
        wf_grid(g),
        rank_bounded(g, m),
        m <= 254,
    ensures
        rank_bounded(apply_spec(g, a), (m + 1) as u8),
{
    let mm = (m + 1) as u8;
    match a {
        Action::Left => {
            assert forall|i: int, j: int| 0 <= i < 4 && 0 <= j < 4 implies apply_spec(g, a)[i][j]
                <= mm by {
                assert(row_bounded(g[i], m));
                lemma_push_bounded(g[i], m);
                lemma_push_row_len(g[i]);
            }
        },
        Action::Right => {
            let h = mirror_spec(g);
            assert forall|i: int, j: int| 0 <= i < 4 && 0 <= j < 4 implies apply_spec(g, a)[i][j]
                <= mm by {
                assert(row_bounded(h[i], m));
                lemma_push_bounded(h[i], m);
                lemma_push_row_len(h[i]);
            }
        },
        Action::Up => {
            let h = transpose_spec(g);
            assert forall|i: int, j: int| 0 <= i < 4 && 0 <= j < 4 implies apply_spec(g, a)[i][j]
                <= mm by {
                assert(row_bounded(h[j], m));
                lemma_push_bounded(h[j], m);
                lemma_push_row_len(h[j]);
            }
        },
        Action::Down => {
            let h = mirror_spec(transpose_spec(g));
            assert forall|i: int, j: int| 0 <= i < 4 && 0 <= j < 4 implies apply_spec(g, a)[i][j]
                <= mm by {
                assert(row_bounded(h[j], m));
                lemma_push_bounded(h[j], m);
                lemma_push_row_len(h[j]);
            }
        },
    }
}

} // verus!

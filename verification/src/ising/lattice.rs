//! Square lattice of spins with periodic boundaries.

use vstd::prelude::*;

verus! {

/// Periodic successor of a coordinate in `0..l`.
pub open spec fn succ(x: int, l: int) -> int {
    if x + 1 == l {
        0
    } else {
        x + 1
    }
}

/// Periodic predecessor of a coordinate in `0..l`.
pub open spec fn pred(x: int, l: int) -> int {
    if x == 0 {
        l - 1
    } else {
        x - 1
    }
}

/// `(x + 1) % l` and `(x + l - 1) % l` are the periodic neighbours of a site.
pub proof fn lemma_wrap_neighbours(x: int, l: int)
    requires
        0 <= x < l,
    ensures
        (x + 1) % l == succ(x, l),
        (x + l - 1) % l == pred(x, l),
        0 <= succ(x, l) < l,
        0 <= pred(x, l) < l,
{
    if x + 1 < l {
        vstd::arithmetic::div_mod::lemma_small_mod((x + 1) as nat, l as nat);
    } else {
        vstd::arithmetic::div_mod::lemma_mod_self_0(l);
    }
    if x == 0 {
        vstd::arithmetic::div_mod::lemma_small_mod((l - 1) as nat, l as nat);
    } else {
        vstd::arithmetic::div_mod::lemma_mod_add_multiples_vanish(x - 1, l);
        vstd::arithmetic::div_mod::lemma_small_mod((x - 1) as nat, l as nat);
    }
}

/// A site `(x, y)` of an `l x l` lattice has the row-major index `y * l + x`,
/// which lies below `l * l`.
pub proof fn lemma_site_index(x: int, y: int, l: int)
    requires
        0 <= x < l,
        0 <= y < l,
    ensures
        0 <= y * l + x < l * l,
        y * l + x + l <= l * l + x,
{
    assert(0 <= y * l) by (nonlinear_arith)
        requires
            0 <= y,
            0 <= l,
    ;
    assert((y + 1) * l <= l * l) by (nonlinear_arith)
        requires
            y + 1 <= l,
            0 <= l,
    ;
    assert((y + 1) * l == y * l + l) by (nonlinear_arith);
}

/// Distinct sites have distinct row-major indices.
pub proof fn lemma_site_index_injective(x1: int, y1: int, x2: int, y2: int, l: int)
    requires
        0 <= x1 < l,
        0 <= y1 < l,
        0 <= x2 < l,
        0 <= y2 < l,
        y1 * l + x1 == y2 * l + x2,
    ensures
        x1 == x2,
        y1 == y2,
{
    if y1 < y2 {
        assert(y1 * l + l <= y2 * l) by (nonlinear_arith)
            requires
                y1 + 1 <= y2,
                0 <= l,
        ;
    } else if y2 < y1 {
        assert(y2 * l + l <= y1 * l) by (nonlinear_arith)
            requires
                y2 + 1 <= y1,
                0 <= l,
        ;
    }
}

/// A row-major index below `l * l` is the site `(index % l, index / l)`.
pub proof fn lemma_index_site(index: int, l: int)
    requires
        0 <= index < l * l,
        0 < l,
    ensures
        0 <= index % l < l,
        0 <= index / l < l,
        (index / l) * l + index % l == index,
{
    vstd::arithmetic::div_mod::lemma_fundamental_div_mod(index, l);
    vstd::arithmetic::div_mod::lemma_mod_pos_bound(index, l);
    vstd::arithmetic::div_mod::lemma_div_pos_is_pos(index, l);
    assert(l * (index / l) == (index / l) * l) by (nonlinear_arith);
    if index / l >= l {
        assert((index / l) * l >= l * l) by (nonlinear_arith)
            requires
                index / l >= l,
                l > 0,
        ;
    }
}

/// Change of the bonds owned by site `(x, y)` between two lattices.
pub open spec fn cell_change(a: Lattice, b: Lattice, x: int, y: int) -> int {
    b.cell_bonds(x, y) - a.cell_bonds(x, y)
}

/// `b` is `a` with the spin at site `(px, py)` negated.
pub open spec fn flipped_at(a: Lattice, b: Lattice, px: int, py: int) -> bool {
    &&& b.l == a.l
    &&& b.spins@ == a.spins@.update(py * a.l + px, (-a.spins@[py * a.l + px]) as i8)
}

proof fn lemma_flipped_spin(a: Lattice, b: Lattice, px: int, py: int, x: int, y: int)
    requires
        a.wf(),
        0 <= px < a.l,
        0 <= py < a.l,
        0 <= x < a.l,
        0 <= y < a.l,
        flipped_at(a, b, px, py),
        a.spins@[py * a.l + px] != i8::MIN,
    ensures
        b.spin(x, y) == (if x == px && y == py {
            -a.spin(x, y)
        } else {
            a.spin(x, y)
        }),
{
    let l = a.l as int;
    lemma_site_index(x, y, l);
    lemma_site_index(px, py, l);
    if y * l + x == py * l + px {
        lemma_site_index_injective(x, y, px, py, l);
    }
}

proof fn lemma_cell_change(a: Lattice, b: Lattice, px: int, py: int, x: int, y: int)
    requires
        a.wf(),
        a.l >= 2,
        0 <= px < a.l,
        0 <= py < a.l,
        0 <= x < a.l,
        0 <= y < a.l,
        flipped_at(a, b, px, py),
        a.spins@[py * a.l + px] != i8::MIN,
    ensures
        cell_change(a, b, x, y) == (if x == px && y == py {
            -2 * a.spin(px, py) * (a.spin(succ(px, a.l as int), py) + a.spin(px, succ(py, a.l as int)))
        } else if x == pred(px, a.l as int) && y == py {
            -2 * a.spin(px, py) * a.spin(x, y)
        } else if x == px && y == pred(py, a.l as int) {
            -2 * a.spin(px, py) * a.spin(x, y)
        } else {
            0
        }),
{
    let l = a.l as int;
    lemma_wrap_neighbours(x, l);
    lemma_wrap_neighbours(y, l);
    lemma_flipped_spin(a, b, px, py, x, y);
    lemma_flipped_spin(a, b, px, py, succ(x, l), y);
    lemma_flipped_spin(a, b, px, py, x, succ(y, l));
    let s = a.spin(x, y);
    let r = a.spin(succ(x, l), y);
    let d = a.spin(x, succ(y, l));
    let sp = a.spin(px, py);
    if x == px && y == py {
        assert((-s) * (r + d) - s * (r + d) == -2 * s * (r + d)) by (nonlinear_arith);
    } else if x == pred(px, l) && y == py {
        assert(s * (-sp + d) - s * (sp + d) == -2 * sp * s) by (nonlinear_arith);
    } else if x == px && y == pred(py, l) {
        assert(s * (r - sp) - s * (r + sp) == -2 * sp * s) by (nonlinear_arith);
    }
}

proof fn lemma_row_change(a: Lattice, b: Lattice, px: int, py: int, y: int, k: int)
    requires
        a.wf(),
        a.l >= 2,
        0 <= px < a.l,
        0 <= py < a.l,
        0 <= y < a.l,
        0 <= k <= a.l,
        flipped_at(a, b, px, py),
        a.spins@[py * a.l + px] != i8::MIN,
    ensures
        b.row_bonds(y, k) - a.row_bonds(y, k) == (if y == py && px < k {
            cell_change(a, b, px, py)
        } else {
            0
        }) + (if y == py && pred(px, a.l as int) < k {
            cell_change(a, b, pred(px, a.l as int), py)
        } else {
            0
        }) + (if y == pred(py, a.l as int) && px < k {
            cell_change(a, b, px, pred(py, a.l as int))
        } else {
            0
        }),
    decreases k,
{
    if k > 0 {
        lemma_row_change(a, b, px, py, y, k - 1);
        lemma_cell_change(a, b, px, py, k - 1, y);
        lemma_wrap_neighbours(px, a.l as int);
        lemma_wrap_neighbours(py, a.l as int);
    }
}

proof fn lemma_rows_change(a: Lattice, b: Lattice, px: int, py: int, j: int)
    requires
        a.wf(),
        a.l >= 2,
        0 <= px < a.l,
        0 <= py < a.l,
        0 <= j <= a.l,
        flipped_at(a, b, px, py),
        a.spins@[py * a.l + px] != i8::MIN,
    ensures
        b.rows_bonds(j) - a.rows_bonds(j) == (if py < j {
            cell_change(a, b, px, py) + cell_change(a, b, pred(px, a.l as int), py)
        } else {
            0
        }) + (if pred(py, a.l as int) < j {
            cell_change(a, b, px, pred(py, a.l as int))
        } else {
            0
        }),
    decreases j,
{
    if j > 0 {
        lemma_rows_change(a, b, px, py, j - 1);
        lemma_row_change(a, b, px, py, j - 1, a.l as int);
        lemma_wrap_neighbours(px, a.l as int);
        lemma_wrap_neighbours(py, a.l as int);
    }
}

/// Flipping the spin at site `(x, y)` of a lattice with side at least 2 lowers
/// the bond sum by `2 * s * (sum of the four neighbours)`: the total energy
/// `-bonds` rises by exactly the Metropolis energy change.
pub proof fn lemma_flip_bond_change(before: Lattice, after: Lattice, x: int, y: int)
    requires
        before.wf(),
        before.l >= 2,
        0 <= x < before.l,
        0 <= y < before.l,
        flipped_at(before, after, x, y),
        before.spins@[y * before.l + x] != i8::MIN,
    ensures
        after.wf(),
        after.bonds() == before.bonds() - 2 * before.spin(x, y) * before.neighbours(x, y),
{
    broadcast use vstd::std_specs::vec::axiom_spec_len;

    let l = before.l as int;
    lemma_site_index(x, y, l);
    lemma_rows_change(before, after, x, y, l);
    lemma_wrap_neighbours(x, l);
    lemma_wrap_neighbours(y, l);
    lemma_cell_change(before, after, x, y, x, y);
    lemma_cell_change(before, after, x, y, pred(x, l), y);
    lemma_cell_change(before, after, x, y, x, pred(y, l));
    let s = before.spin(x, y);
    let r = before.spin(succ(x, l), y);
    let d = before.spin(x, succ(y, l));
    let w = before.spin(pred(x, l), y);
    let u = before.spin(x, pred(y, l));
    assert(-2 * s * (r + d) + -2 * s * w + -2 * s * u == -(2 * s * (w + r + u + d)))
        by (nonlinear_arith);
    assert(after.rows_bonds(l) - before.rows_bonds(l) == -2 * s * (r + d) + -2 * s * w + -2 * s * u);
}

/// Flipping the same site twice restores the lattice.
pub proof fn lemma_flip_twice(a: Lattice, b: Lattice, c: Lattice, index: int)
    requires
        0 <= index < a.spins@.len(),
        a.spins@[index] != i8::MIN,
        b.spins@ == a.spins@.update(index, (-a.spins@[index]) as i8),
        c.spins@ == b.spins@.update(index, (-b.spins@[index]) as i8),
    ensures
        c.spins@ == a.spins@,
{
    assert(c.spins@ =~= a.spins@);
}

proof fn lemma_same_rows(a: Lattice, b: Lattice, y: int, k: int)
    requires
        a.l == b.l,
        a.spins@ == b.spins@,
    ensures
        a.row_bonds(y, k) == b.row_bonds(y, k),
    decreases k,
{
    if k > 0 {
        lemma_same_rows(a, b, y, k - 1);
    }
}

proof fn lemma_same_lattice_rows(a: Lattice, b: Lattice, j: int)
    requires
        a.l == b.l,
        a.spins@ == b.spins@,
    ensures
        a.rows_bonds(j) == b.rows_bonds(j),
    decreases j,
{
    if j > 0 {
        lemma_same_lattice_rows(a, b, j - 1);
        lemma_same_rows(a, b, j - 1, a.l as int);
    }
}

proof fn lemma_same_prefix(a: Lattice, b: Lattice, k: int)
    requires
        a.spins@ == b.spins@,
    ensures
        a.prefix_spins(k) == b.prefix_spins(k),
    decreases k,
{
    if k > 0 {
        lemma_same_prefix(a, b, k - 1);
    }
}

/// Two lattices of the same side holding the same spins have the same spin
/// sum and the same bond sum.
pub proof fn lemma_same_spins_same_sums(a: Lattice, b: Lattice)
    requires
        a.l == b.l,
        a.spins@ == b.spins@,
    ensures
        a.spin_total() == b.spin_total(),
        a.bonds() == b.bonds(),
{
    lemma_same_prefix(a, b, a.spins@.len() as int);
    lemma_same_lattice_rows(a, b, a.l as int);
}

proof fn lemma_uniform_rows(a: Lattice, y: int, k: int)
    requires
        a.wf(),
        0 <= y < a.l,
        0 <= k <= a.l,
        forall|i: int| 0 <= i < a.spins@.len() ==> #[trigger] a.spins@[i] == 1,
    ensures
        a.row_bonds(y, k) == 2 * k,
    decreases k,
{
    broadcast use vstd::std_specs::vec::axiom_spec_len;

    if k > 0 {
        let l = a.l as int;
        lemma_uniform_rows(a, y, k - 1);
        lemma_wrap_neighbours(k - 1, l);
        lemma_wrap_neighbours(y, l);
        lemma_site_index(k - 1, y, l);
        lemma_site_index(succ(k - 1, l), y, l);
        lemma_site_index(k - 1, succ(y, l), l);
        assert(a.spin(k - 1, y) == 1);
        assert(a.spin(succ(k - 1, l), y) == 1);
        assert(a.spin(k - 1, succ(y, l)) == 1);
        assert(a.cell_bonds(k - 1, y) == 2);
    }
}

proof fn lemma_uniform_lattice_rows(a: Lattice, j: int)
    requires
        a.wf(),
        0 <= j <= a.l,
        forall|i: int| 0 <= i < a.spins@.len() ==> #[trigger] a.spins@[i] == 1,
    ensures
        a.rows_bonds(j) == 2 * a.l * j,
    decreases j,
{
    if j > 0 {
        lemma_uniform_lattice_rows(a, j - 1);
        lemma_uniform_rows(a, j - 1, a.l as int);
        assert(2 * a.l * (j - 1) + 2 * a.l == 2 * a.l * j) by (nonlinear_arith);
    } else {
        assert(2 * a.l * j == 0) by (nonlinear_arith)
            requires
                j == 0,
        ;
    }
}

proof fn lemma_uniform_prefix(a: Lattice, k: int)
    requires
        0 <= k <= a.spins@.len(),
        forall|i: int| 0 <= i < a.spins@.len() ==> #[trigger] a.spins@[i] == 1,
    ensures
        a.prefix_spins(k) == k,
    decreases k,
{
    if k > 0 {
        lemma_uniform_prefix(a, k - 1);
    }
}

/// On a lattice with every spin up, every bond is +1 (so the bond sum is
/// `2 * n` and the energy per site is -2), the spin sum is `n`
/// (magnetization 1) and every site sees four up neighbours.
pub proof fn lemma_all_up_values(a: Lattice)
    requires
        a.wf(),
        forall|i: int| 0 <= i < a.spins@.len() ==> #[trigger] a.spins@[i] == 1,
    ensures
        a.bonds() == 2 * (a.l * a.l),
        a.spin_total() == a.l * a.l,
        forall|x: int, y: int|
            0 <= x < a.l && 0 <= y < a.l ==> #[trigger] a.neighbours(x, y) == 4,
{
    broadcast use vstd::std_specs::vec::axiom_spec_len;

    let l = a.l as int;
    lemma_uniform_lattice_rows(a, l);
    assert(2 * l * l == 2 * (l * l)) by (nonlinear_arith);
    lemma_uniform_prefix(a, a.spins@.len() as int);
    assert forall|x: int, y: int| 0 <= x < a.l && 0 <= y < a.l implies #[trigger] a.neighbours(
        x,
        y,
    ) == 4 by {
        lemma_wrap_neighbours(x, l);
        lemma_wrap_neighbours(y, l);
        lemma_site_index(pred(x, l), y, l);
        lemma_site_index(succ(x, l), y, l);
        lemma_site_index(x, pred(y, l), l);
        lemma_site_index(x, succ(y, l), l);
    }
}

/// Spins stored row-major: index = y * l + x.
#[derive(Clone, Debug)]
pub struct Lattice {
    pub l: usize,
    pub spins: Vec<i8>,
}

impl Lattice {
    /// The lattice holds exactly `l * l` spins.
    pub open spec fn wf(&self) -> bool {
        self.spins.len() == self.l * self.l
    }

    /// Every spin is +1 or -1.
    pub open spec fn unit_spins(&self) -> bool {
        forall|i: int| 0 <= i < self.spins@.len() ==> (#[trigger] self.spins@[i] == 1 || self.spins@[i] == -1)
    }

    /// Every spin can be negated in `i8` (none is -128).
    pub open spec fn flippable(&self) -> bool {
        forall|i: int| 0 <= i < self.spins@.len() ==> #[trigger] self.spins@[i] != i8::MIN
    }

    /// The spin at site `(x, y)`.
    pub open spec fn spin(&self, x: int, y: int) -> int {
        self.spins@[y * self.l + x] as int
    }

    /// Sum of the four periodic nearest neighbours of the site `(x, y)`.
    pub open spec fn neighbours(&self, x: int, y: int) -> int {
        let l = self.l as int;
        self.spin(pred(x, l), y) + self.spin(succ(x, l), y) + self.spin(x, pred(y, l)) + self.spin(
            x,
            succ(y, l),
        )
    }

    /// The two bonds owned by a site: to its right and to its lower neighbour.
    pub open spec fn cell_bonds(&self, x: int, y: int) -> int {
        let l = self.l as int;
        self.spin(x, y) * (self.spin(succ(x, l), y) + self.spin(x, succ(y, l)))
    }

    /// Bonds owned by the first `k` sites of row `y`.
    pub open spec fn row_bonds(&self, y: int, k: int) -> int
        decreases k,
    {
        if k <= 0 {
            0
        } else {
            self.row_bonds(y, k - 1) + self.cell_bonds(k - 1, y)
        }
    }

    /// Bonds owned by the sites of the first `j` rows.
    pub open spec fn rows_bonds(&self, j: int) -> int
        decreases j,
    {
        if j <= 0 {
            0
        } else {
            self.rows_bonds(j - 1) + self.row_bonds(j - 1, self.l as int)
        }
    }

    /// Sum over nearest-neighbour bonds of `s_i * s_j`, each bond counted once.
    pub open spec fn bonds(&self) -> int {
        self.rows_bonds(self.l as int)
    }

    /// Sum of the first `k` stored spins.
    pub open spec fn prefix_spins(&self, k: int) -> int
        decreases k,
    {
        if k <= 0 {
            0
        } else {
            self.prefix_spins(k - 1) + self.spins@[k - 1] as int
        }
    }

    /// Sum of all spins.
    pub open spec fn spin_total(&self) -> int {
        self.prefix_spins(self.spins@.len() as int)
    }

    /// A lattice with every spin up.
    pub fn all_up(l: usize) -> (r: Self)
        requires
            l * l <= usize::MAX,
        ensures
            r.l == l,
            r.wf(),
            r.unit_spins(),
            forall|i: int| 0 <= i < r.spins@.len() ==> #[trigger] r.spins@[i] == 1,
    {
        let n = l * l;
        let mut spins: Vec<i8> = Vec::new();
        let mut i: usize = 0;
        while i < n
            invariant
                i <= n,
                spins@.len() == i,
                forall|k: int| 0 <= k < i ==> #[trigger] spins@[k] == 1,
            decreases n - i,
        {
            spins.push(1);
            i = i + 1;
        }
        Lattice { l, spins }
    }

    /// Number of sites.
    pub fn n(&self) -> (r: usize)
        requires
            self.l * self.l <= usize::MAX,
        ensures
            r == self.l * self.l,
    {
        self.l * self.l
    }

    /// The spin stored at row-major index `y * l + x`.
    pub fn get(&self, x: usize, y: usize) -> (r: i8)
        requires
            y * self.l + x < self.spins.len(),
        ensures
            r == self.spins@[y * self.l + x],
    {
        let row = y * self.l;
        self.spins[row + x]
    }

    /// Sum of the four nearest neighbours of `(x, y)` on the periodic lattice.
    pub fn neighbour_sum(&self, x: usize, y: usize) -> (r: i32)
        requires
            self.wf(),
            x < self.l,
            y < self.l,
        ensures
            r == self.neighbours(x as int, y as int),
    {
        let l = self.l;
        proof {
            assert(x + l <= l * l) by (nonlinear_arith)
                requires
                    x < l,
            ;
            assert(y + l <= l * l) by (nonlinear_arith)
                requires
                    y < l,
            ;
            lemma_wrap_neighbours(x as int, l as int);
            lemma_wrap_neighbours(y as int, l as int);
            lemma_site_index(pred(x as int, l as int), y as int, l as int);
            lemma_site_index(succ(x as int, l as int), y as int, l as int);
            lemma_site_index(x as int, pred(y as int, l as int), l as int);
            lemma_site_index(x as int, succ(y as int, l as int), l as int);
        }
        let left = (x + l - 1) % l;
        let right = (x + 1) % l;
        let up = (y + l - 1) % l;
        let down = (y + 1) % l;
        (self.get(left, y) as i32) + (self.get(right, y) as i32) + (self.get(x, up) as i32) + (
        self.get(x, down) as i32)
    }

    /// Sum over nearest-neighbour bonds of `s_i * s_j`, each bond counted once
    /// (right and lower neighbours only); the energy per site is
    /// `-bond_sum / n`.
    pub fn bond_sum(&self) -> (r: i64)
        requires
            self.wf(),
            self.spins.len() <= 0x8000_0000_0000,
        ensures
            r == self.bonds(),
    {
        let l = self.l;
        let mut total: i64 = 0;
        let mut y: usize = 0;
        while y < l
            invariant
                self.wf(),
                l == self.l,
                self.spins.len() <= 0x8000_0000_0000,
                y <= l,
                total == self.rows_bonds(y as int),
                -32768 * (y * l) <= total <= 32768 * (y * l),
            decreases l - y,
        {
            let mut x: usize = 0;
            proof {
                lemma_site_index(0, y as int, l as int);
            }
            while x < l
                invariant
                    self.wf(),
                    l == self.l,
                    self.spins.len() <= 0x8000_0000_0000,
                    x <= l,
                    y < l,
                    total == self.rows_bonds(y as int) + self.row_bonds(y as int, x as int),
                    -32768 * (y * l + x) <= total <= 32768 * (y * l + x),
                decreases l - x,
            {
                proof {
                    lemma_wrap_neighbours(x as int, l as int);
                    lemma_wrap_neighbours(y as int, l as int);
                    lemma_site_index(x as int, y as int, l as int);
                    lemma_site_index(succ(x as int, l as int), y as int, l as int);
                    lemma_site_index(x as int, succ(y as int, l as int), l as int);
                }
                let s = self.get(x, y) as i64;
                let right = self.get((x + 1) % l, y) as i64;
                let down = self.get(x, (y + 1) % l) as i64;
                proof {
                    let idx = y * l + x;
                    assert(-32768 <= s * right + s * down <= 32768) by (nonlinear_arith)
                        requires
                            -128 <= s <= 127,
                            -128 <= right <= 127,
                            -128 <= down <= 127,
                    ;
                    assert(s * right + s * down == s * (right + down)) by (nonlinear_arith);
                    assert(-16384 <= s * right <= 16384) by (nonlinear_arith)
                        requires
                            -128 <= s <= 127,
                            -128 <= right <= 127,
                    ;
                    assert(-16384 <= s * down <= 16384) by (nonlinear_arith)
                        requires
                            -128 <= s <= 127,
                            -128 <= down <= 127,
                    ;
                    assert(32768 * (idx + 1) <= 32768 * 0x8000_0000_0000) by (nonlinear_arith)
                        requires
                            idx + 1 <= 0x8000_0000_0000,
                    ;
                }
                total = total + s * right + s * down;
                x = x + 1;
            }
            proof {
                assert((y + 1) * l == y * l + l) by (nonlinear_arith);
            }
            y = y + 1;
        }
        total
    }

    /// Sum of all spins; the signed magnetization is `spin_sum / n`.
    pub fn spin_sum(&self) -> (r: i64)
        requires
            self.spins.len() <= 0x8000_0000_0000,
        ensures
            r == self.spin_total(),
    {
        let mut total: i64 = 0;
        let mut i: usize = 0;
        while i < self.spins.len()
            invariant
                self.spins.len() <= 0x8000_0000_0000,
                i <= self.spins.len(),
                total == self.prefix_spins(i as int),
                -128 * i <= total <= 128 * i,
            decreases self.spins.len() - i,
        {
            total = total + self.spins[i] as i64;
            i = i + 1;
        }
        total
    }

    /// Energy change `2 * s * (sum of neighbours)` of flipping the spin at the
    /// row-major index `index`.
    pub fn flip_energy_change(&self, index: usize) -> (r: i32)
        requires
            self.wf(),
            index < self.spins.len(),
        ensures
            r == 2 * self.spin((index % self.l) as int, (index / self.l) as int) * self.neighbours(
                (index % self.l) as int,
                (index / self.l) as int,
            ),
            self.spin((index % self.l) as int, (index / self.l) as int) == self.spins@[index as int],
    {
        let l = self.l;
        proof {
            lemma_index_site(index as int, l as int);
        }
        let x = index % l;
        let y = index / l;
        let spin = self.spins[index] as i32;
        let field = self.neighbour_sum(x, y);
        proof {
            assert(-1024 <= field <= 1024);
            assert(-2147483648 <= 2 * spin * field <= 2147483647) by (nonlinear_arith)
                requires
                    -128 <= spin <= 127,
                    -1024 <= field <= 1024,
            ;
        }
        2 * spin * field
    }

    /// Flip the spin at a row-major index.
    pub fn flip(&mut self, index: usize)
        requires
            index < old(self).spins@.len(),
            old(self).spins@[index as int] != i8::MIN,
        ensures
            final(self).l == old(self).l,
            final(self).spins@ == old(self).spins@.update(
                index as int,
                (-old(self).spins@[index as int]) as i8,
            ),
    {
        let s = self.spins[index];
        self.spins.set(index, -s);
    }
}

} // verus!

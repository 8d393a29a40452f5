//! The frequency components of the transform and the order they are visited in.
use vstd::prelude::*;

verus! {

/// Limits a requested component count to `[1, 9]`.
pub fn clamp_component_count(n: usize) -> (r: usize)
    ensures
        r == (if n < 1 {
            1
        } else if n > 9 {
            9
        } else {
            n
        }),
{
    if n < 1 {
        1
    } else if n > 9 {
        9
    } else {
        n
    }
}

/// The weight of the cosine basis of component `(i, j)`: `1` for the DC
/// component `(0, 0)`, `2` for every AC component.
pub fn basis_normalization(i: usize, j: usize) -> (r: u32)
    ensures
        r == (if i == 0 && j == 0 {
            1u32
        } else {
            2u32
        }),
{
    if i == 0 && j == 0 {
        1
    } else {
        2
    }
}

/// Every component `(i, j)` of an `nx` by `ny` transform, `j` outer and `i`
/// inner: entry `k` is `(k % nx, k / nx)`. Entry `0` is the DC component and
/// the rest are the AC components in hash order.
pub fn component_order(nx: usize, ny: usize) -> (r: Vec<(usize, usize)>)
    requires
        1 <= nx <= 9,
        1 <= ny <= 9,
    ensures
        r@.len() == nx * ny,
        forall|k: int| 0 <= k < nx * ny ==> #[trigger] r@[k] == ((k % nx as int) as usize, (k / nx as int) as usize),
{
    let mut order: Vec<(usize, usize)> = Vec::new();
    let mut j: usize = 0;
    while j < ny
        invariant
            1 <= nx <= 9,
            1 <= ny <= 9,
            j <= ny,
            order@.len() == j * nx,
            forall|k: int| 0 <= k < j * nx ==> #[trigger] order@[k] == ((k % nx as int) as usize, (k / nx as int) as usize),
        decreases ny - j,
    {
        let mut i: usize = 0;
        while i < nx
            invariant
                1 <= nx <= 9,
                1 <= ny <= 9,
                j < ny,
                i <= nx,
                order@.len() == j * nx + i,
                forall|k: int| 0 <= k < j * nx + i ==> #[trigger] order@[k] == ((k % nx as int) as usize, (k / nx as int) as usize),
            decreases nx - i,
        {
            proof {
                let k = j * nx + i;
                vstd::arithmetic::div_mod::lemma_fundamental_div_mod_converse(k as int, nx as int, j as int, i as int);
            }
            order.push((i, j));
            i = i + 1;
        }
        assert((j + 1) * nx == j * nx + nx) by (nonlinear_arith);
        j = j + 1;
    }
    assert(ny * nx == nx * ny) by (nonlinear_arith);
    order
}

} // verus!

//! Editor grids: cell addresses, the finite grid domain, and grid step
//! identity.
use vstd::prelude::*;
use crate::ids::ComponentId;

verus! {

/// A gizmo-snapping grid intersection.
#[derive(Debug, Clone, Copy, PartialEq, Eq)]
pub struct GridStep {
    pub cell: [i32; 2],
}

/// A paint cell address: the cell bounded by grid lines `u..u + 1` and
/// `v..v + 1`. Kept apart from [`GridStep`], which addresses intersections.
#[derive(Debug, Clone, Copy, PartialEq, Eq, Hash, Structural)]
pub struct GridAddress {
    pub u: i32,
    pub v: i32,
}

/// Everything a transient paint gesture reads from its grid, captured when
/// the gesture starts so that later edits cannot change it mid-stroke.
/// Geometry is carried as IEEE-754 single-precision bit patterns; the
/// library only stores and compares them.
#[derive(Debug, Clone, Copy, PartialEq, Eq)]
pub struct CapturedGrid {
    pub grid_component: ComponentId,
    pub owner_transform: ComponentId,
    pub spacing_bits: u32,
    pub size_x: u32,
    pub size_z: u32,
    pub origin_world_bits: [u32; 3],
    pub normal_world_bits: [u32; 3],
    pub matrix_world_bits: [[u32; 4]; 4],
    pub inverse_world_bits: [[u32; 4]; 4],
}

/// The smallest cell coordinate of an axis with `size` cells, centred on 0.
pub open spec fn domain_min(size: u32) -> int {
    -((size as i32) / 2)
}

/// The largest cell coordinate of an axis with `size` cells.
pub open spec fn domain_max(size: u32) -> int {
    domain_min(size) + (size as i32) - 1
}

/// `address` lies in the finite `size_x` by `size_z` cell rectangle centred
/// on the grid origin.
pub open spec fn in_domain(size_x: u32, size_z: u32, address: GridAddress) -> bool {
    &&& domain_min(size_x) <= address.u <= domain_max(size_x)
    &&& domain_min(size_z) <= address.v <= domain_max(size_z)
}

fn axis_contains(size: u32, c: i32) -> (b: bool)
    ensures
        b <==> domain_min(size) <= c <= domain_max(size),
{
    let s = size as i32;
    let min = -(s / 2);
    let max = min + s - 1;
    min <= c && c <= max
}

/// Editor grid registry and queries.
#[derive(Debug, Clone)]
pub struct GridSystem {
    /// A refresh of the registry was asked for.
    pub dirty: bool,
    /// The parent-change handler has been installed.
    pub handlers_installed: bool,
}

impl GridSystem {
    /// Whether `address` lies inside the captured grid's finite domain.
    pub fn address_in_domain(grid: &CapturedGrid, address: GridAddress) -> (b: bool)
        ensures
            b <==> in_domain(grid.size_x, grid.size_z, address),
    {
        axis_contains(grid.size_x, address.u) && axis_contains(grid.size_z, address.v)
    }

    /// Whether an optional previous step is exactly `b`.
    pub fn same_step(a: Option<GridStep>, b: GridStep) -> (same: bool)
        ensures
            same <==> (a is Some && a.unwrap().cell@ == b.cell@),
    {
        match a {
            Some(step) => {
                let same = step.cell[0] == b.cell[0] && step.cell[1] == b.cell[1];
                proof {
                    if same {
                        assert(step.cell@ =~= b.cell@);
                    }
                }
                same
            },
            None => false,
        }
    }
}

} // verus!

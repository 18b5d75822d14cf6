//! Frame and character-cell geometry: grid size and working-image size
//! derived from the fixed frame dimensions and the glyph cell size.

use vstd::prelude::*;

verus! {

/// Largest accepted frame dimension in either axis.
pub const MAX_DIM: usize = 65535;

/// Accepts exactly the frame dimensions the pipeline supports.
pub fn check_dimensions(width: usize, height: usize) -> (r: bool)
    ensures
        r <==> (1 <= width <= MAX_DIM && 1 <= height <= MAX_DIM),
{
    width >= 1 && width <= MAX_DIM && height >= 1 && height <= MAX_DIM
}

/// Sizes derived once at startup from the frame dimensions and the glyph
/// cell: the character grid is `cols x rows`, and the working image handed to
/// the image-to-text collaborator carries two samples per cell in each axis.
pub struct Geometry {
    pub orig_width: usize,
    pub orig_height: usize,
    pub cell_width: usize,
    pub cell_height: usize,
    pub cols: usize,
    pub rows: usize,
    pub work_width: usize,
    pub work_height: usize,
}

impl Geometry {
    pub open spec fn wf(self) -> bool {
        &&& 1 <= self.orig_width <= MAX_DIM
        &&& 1 <= self.orig_height <= MAX_DIM
        &&& 1 <= self.cell_width
        &&& 1 <= self.cell_height
        &&& self.cols == self.orig_width as int / self.cell_width as int
        &&& self.rows == self.orig_height as int / self.cell_height as int
        &&& self.work_width == 2 * self.cols
        &&& self.work_height == 2 * self.rows
    }

    /// Derives the grid and working-image sizes; `None` exactly when the
    /// frame dimensions are out of range or a glyph cell axis is zero.
    pub fn compute(
        orig_width: usize,
        orig_height: usize,
        cell_width: usize,
        cell_height: usize,
    ) -> (r: Option<Geometry>)
        ensures
            r is Some <==> (1 <= orig_width <= MAX_DIM && 1 <= orig_height <= MAX_DIM
                && 1 <= cell_width && 1 <= cell_height),
            r matches Some(g) ==> {
                &&& g.wf()
                &&& g.orig_width == orig_width
                &&& g.orig_height == orig_height
                &&& g.cell_width == cell_width
                &&& g.cell_height == cell_height
            },
    {
        if !check_dimensions(orig_width, orig_height) || cell_width < 1 || cell_height < 1 {
            return None;
        }
        let cols = orig_width / cell_width;
        let rows = orig_height / cell_height;
        Some(Geometry {
            orig_width,
            orig_height,
            cell_width,
            cell_height,
            cols,
            rows,
            work_width: 2 * cols,
            work_height: 2 * rows,
        })
    }
}

} // verus!

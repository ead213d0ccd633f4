use vstd::prelude::*;

verus! {

/// The dimensions for which the cone has closed-form mass properties.
#[derive(Clone, Copy, Debug, PartialEq, Eq, Structural)]
pub enum ConeFormula {
    /// Two dimensions: the cone is an isosceles triangle.
    Planar,
    /// Three dimensions: a solid right circular cone.
    Solid,
}

/// The cone has no mass formula in this many dimensions.
#[derive(Clone, Copy, Debug, PartialEq, Eq, Structural)]
pub struct UnsupportedDimension {
    pub dim: usize,
}

/// Picks the cone's mass formula for `dim` dimensions, or refuses the dimension.
pub fn cone_formula(dim: usize) -> (r: Result<ConeFormula, UnsupportedDimension>)
    ensures
        dim == 2 <==> r == Ok::<ConeFormula, UnsupportedDimension>(ConeFormula::Planar),
        dim == 3 <==> r == Ok::<ConeFormula, UnsupportedDimension>(ConeFormula::Solid),
        dim != 2 && dim != 3 <==> r == Err::<ConeFormula, UnsupportedDimension>(
            UnsupportedDimension { dim },
        ),
{
    if dim == 2 {
        Ok(ConeFormula::Planar)
    } else if dim == 3 {
        Ok(ConeFormula::Solid)
    } else {
        Err(UnsupportedDimension { dim })
    }
}

} // verus!

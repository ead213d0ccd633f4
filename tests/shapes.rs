use ncollide::bounding_sphere::BoundingSphere;
use ncollide::geometry::Vector3;
use ncollide::mass::{cone_formula, ConeFormula, UnsupportedDimension};
use ncollide::shape::Shape;

#[test]
fn shape_bounding_radii() {
    let at = Vector3::new(1, 2, 3);
    assert_eq!(Shape::Ball { radius: 7 }.bounding_sphere(&at), BoundingSphere::new(at, 7));
    assert_eq!(
        Shape::Capsule { half_height: 2, radius: 3 }.bounding_sphere(&at).radius,
        5
    );
    assert_eq!(Shape::Cone { half_height: 3, radius: 4 }.bounding_sphere(&at).radius, 5);
    assert_eq!(Shape::Cone { half_height: 2, radius: 3 }.bounding_sphere(&at).radius, 4);
    assert_eq!(
        Shape::Cuboid { half_extents: Vector3::new(1, 1, 1) }.bounding_sphere(&at).radius,
        2
    );
    assert_eq!(
        Shape::Cuboid { half_extents: Vector3::new(4, 2, 4) }.bounding_sphere(&at).radius,
        6
    );
}

#[test]
fn cone_formula_by_dimension() {
    assert_eq!(cone_formula(2), Ok(ConeFormula::Planar));
    assert_eq!(cone_formula(3), Ok(ConeFormula::Solid));
}

#[test]
fn cone_formula_refuses_four_dimensions() {
    assert_eq!(cone_formula(4), Err(UnsupportedDimension { dim: 4 }));
    assert_eq!(cone_formula(1), Err(UnsupportedDimension { dim: 1 }));
}

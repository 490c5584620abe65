//! Taking polygons as `genmesh` triangles and quads.

use genmesh::{Polygon, Quad, Triangle};
use vstd::prelude::*;

use crate::obj::{IndexTuple, ObjError, ObjErrorView, SimplePolygon};

verus! {

// genmesh's `Triangle`, `Quad` and `Polygon` are declared with their public fields and
// variants visible, so that contracts can say which vertices a polygon holds.

/// `genmesh::Triangle`: three public fields `x`, `y`, `z`.
#[verifier::external_type_specification]
#[verifier::reject_recursive_types(T)]
pub struct ExTriangle<T>(Triangle<T>);

/// `genmesh::Quad`: four public fields `x`, `y`, `z`, `w`.
#[verifier::external_type_specification]
#[verifier::reject_recursive_types(T)]
pub struct ExQuad<T>(Quad<T>);

/// `genmesh::Polygon`: the variants `PolyTri` and `PolyQuad`.
#[verifier::external_type_specification]
#[verifier::reject_recursive_types(T)]
pub struct ExPolygon<T>(Polygon<T>);

/// Relies on `genmesh::Triangle::new`, which puts its arguments in `x`, `y` and `z`.
pub assume_specification<T>[ Triangle::<T>::new ](v0: T, v1: T, v2: T) -> (r: Triangle<T>)
    ensures
        r == (Triangle { x: v0, y: v1, z: v2 }),
;

/// Relies on `genmesh::Quad::new`, which puts its arguments in `x`, `y`, `z` and `w`.
pub assume_specification<T>[ Quad::<T>::new ](v0: T, v1: T, v2: T, v3: T) -> (r: Quad<T>)
    ensures
        r == (Quad { x: v0, y: v1, z: v2, w: v3 }),
;

/// The triangle of the first three vertices of `p`.
pub open spec fn triangle_of(p: Seq<IndexTuple>) -> Polygon<IndexTuple> {
    Polygon::PolyTri(Triangle { x: p[0], y: p[1], z: p[2] })
}

/// The quad of the first four vertices of `p`.
pub open spec fn quad_of(p: Seq<IndexTuple>) -> Polygon<IndexTuple> {
    Polygon::PolyQuad(Quad { x: p[0], y: p[1], z: p[2], w: p[3] })
}

pub open spec fn arity_error(n: nat) -> ObjErrorView {
    ObjErrorView::GenMeshWrongNumberOfVertsInPolygon { vert_count: n }
}

impl SimplePolygon {
    /// The polygon as a `genmesh` triangle or quad; an error for any other number of vertices.
    pub fn try_into_genmesh(self) -> (r: Result<Polygon<IndexTuple>, ObjError>)
        ensures
            self@.len() == 3 ==> r == Ok::<_, ObjError>(triangle_of(self@)),
            self@.len() == 4 ==> r == Ok::<_, ObjError>(quad_of(self@)),
            self@.len() != 3 && self@.len() != 4 ==> (r matches Err(e) && e@ == arity_error(
                self@.len(),
            )),
    {
        let v = &self.0;
        let n = v.len();
        if n == 3 {
            Ok(Polygon::PolyTri(Triangle::new(v[0], v[1], v[2])))
        } else if n == 4 {
            Ok(Polygon::PolyQuad(Quad::new(v[0], v[1], v[2], v[3])))
        } else {
            Err(ObjError::GenMeshWrongNumberOfVertsInPolygon { vert_count: n })
        }
    }

    /// The polygon as a `genmesh` triangle or quad.
    pub fn into_genmesh(self) -> (r: Polygon<IndexTuple>)
        requires
            self@.len() == 3 || self@.len() == 4,
        ensures
            self@.len() == 3 ==> r == triangle_of(self@),
            self@.len() == 4 ==> r == quad_of(self@),
    {
        let v = &self.0;
        if v.len() == 3 {
            Polygon::PolyTri(Triangle::new(v[0], v[1], v[2]))
        } else {
            Polygon::PolyQuad(Quad::new(v[0], v[1], v[2], v[3]))
        }
    }
}

} // verus!

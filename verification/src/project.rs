//! Density projections: the computational half of rendering a body set —
//! choosing an axis pair, projecting every position onto it, and the
//! bounding box of the projected points.  Drawing the result is an external
//! concern.

use vstd::prelude::*;
use crate::vec3::{Vec3, V3};
use crate::body::{Body, models};

verus! {

/// The axis pairs a projection accepts; anything else is rejected by
/// callers before the projection is asked for.
pub open spec fn valid_axes(axis1: char, axis2: char) -> bool {
    ||| (axis1 == 'x' && axis2 == 'y')
    ||| (axis1 == 'x' && axis2 == 'z')
    ||| (axis1 == 'y' && axis2 == 'z')
}

/// The chosen coordinate of a point.
pub open spec fn coord(p: V3, axis: char) -> int {
    if axis == 'x' {
        p.x
    } else if axis == 'y' {
        p.y
    } else {
        p.z
    }
}

fn coord_of(p: Vec3, axis: char) -> (r: i128)
    requires
        axis == 'x' || axis == 'y' || axis == 'z',
    ensures
        r as int == coord(p@, axis),
{
    if axis == 'x' {
        p.x
    } else if axis == 'y' {
        p.y
    } else {
        p.z
    }
}

/// Projects every body's position onto the chosen axis pair, in index order.
pub fn project_points(bodies: &Vec<Body>, axis1: char, axis2: char) -> (r: Vec<(i128, i128)>)
    requires
        valid_axes(axis1, axis2),
    ensures
        r@.len() == bodies@.len(),
        forall|i: int|
            0 <= i < r@.len() ==> (#[trigger] r@[i]).0 as int == coord(
                models(bodies@)[i].position,
                axis1,
            ) && r@[i].1 as int == coord(models(bodies@)[i].position, axis2),
{
    let mut out: Vec<(i128, i128)> = Vec::new();
    let mut k: usize = 0;
    let n = bodies.len();
    while k < n
        invariant
            valid_axes(axis1, axis2),
            n == bodies@.len(),
            k <= n,
            out@.len() == k as int,
            forall|i: int|
                0 <= i < k as int ==> (#[trigger] out@[i]).0 as int == coord(
                    models(bodies@)[i].position,
                    axis1,
                ) && out@[i].1 as int == coord(models(bodies@)[i].position, axis2),
        decreases n - k,
    {
        let p = bodies[k].position;
        let c1 = coord_of(p, axis1);
        let c2 = coord_of(p, axis2);
        out.push((c1, c2));
        proof {
            assert(models(bodies@)[k as int] == bodies@[k as int]@);
        }
        k = k + 1;
    }
    out
}

/// The bounding box of a point list: `None` exactly when the list is empty;
/// otherwise `((min1, min2), (max1, max2))`, each bound attained by some
/// point of the list.
pub fn bounding_box(points: &Vec<(i128, i128)>) -> (r: Option<((i128, i128), (i128, i128))>)
    ensures
        r is None <==> points@.len() == 0,
        r matches Some(bb) ==> forall|i: int|
            0 <= i < points@.len() ==> bb.0.0 <= (#[trigger] points@[i]).0 <= bb.1.0 && bb.0.1
                <= points@[i].1 <= bb.1.1,
        r matches Some(bb) ==> (exists|i: int| 0 <= i < points@.len() && (#[trigger] points@[i]).0 == bb.0.0)
            && (exists|i: int| 0 <= i < points@.len() && (#[trigger] points@[i]).0 == bb.1.0)
            && (exists|i: int| 0 <= i < points@.len() && (#[trigger] points@[i]).1 == bb.0.1)
            && (exists|i: int| 0 <= i < points@.len() && (#[trigger] points@[i]).1 == bb.1.1),
{
    let n = points.len();
    if n == 0 {
        return None;
    }
    let first = points[0];
    let mut min1 = first.0;
    let mut max1 = first.0;
    let mut min2 = first.1;
    let mut max2 = first.1;
    let ghost mut w_min1: int = 0;
    let ghost mut w_max1: int = 0;
    let ghost mut w_min2: int = 0;
    let ghost mut w_max2: int = 0;
    let mut k: usize = 1;
    while k < n
        invariant
            n == points@.len(),
            1 <= k <= n,
            forall|i: int|
                0 <= i < k as int ==> min1 as int <= (#[trigger] points@[i]).0 <= max1 as int
                    && min2 as int <= points@[i].1 <= max2 as int,
            0 <= w_min1 < k as int && points@[w_min1].0 == min1,
            0 <= w_max1 < k as int && points@[w_max1].0 == max1,
            0 <= w_min2 < k as int && points@[w_min2].1 == min2,
            0 <= w_max2 < k as int && points@[w_max2].1 == max2,
        decreases n - k,
    {
        let p = points[k];
        if p.0 < min1 {
            min1 = p.0;
            proof {
                w_min1 = k as int;
            }
        }
        if p.0 > max1 {
            max1 = p.0;
            proof {
                w_max1 = k as int;
            }
        }
        if p.1 < min2 {
            min2 = p.1;
            proof {
                w_min2 = k as int;
            }
        }
        if p.1 > max2 {
            max2 = p.1;
            proof {
                w_max2 = k as int;
            }
        }
        k = k + 1;
    }
    Some(((min1, min2), (max1, max2)))
}

} // verus!

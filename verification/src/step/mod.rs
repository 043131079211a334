//! STEP (AP214) export of the Parasolid B-rep.
//!
//! Two deliberate choices shape the output:
//!
//! * **Surfaces are exact** wherever STEP has the type: plane, cylinder, cone,
//!   sphere, torus, NURBS, extrusion, revolution, offset. Only surfaces that no
//!   STEP type fits are sampled.
//! * **Edges are sampled polylines**, not analytic curves, taken from the
//!   shared samples of each edge. Both faces of an edge reference one polyline,
//!   so the shell sews.
//!
//! What only arithmetic on the geometry gives (samples, angles, control points,
//! and the text of every number) comes in [`surface::Shapes`].

pub mod boundary;
pub mod export;
pub mod laws;
pub mod readback;
pub mod rims;
pub mod surface;
pub mod writer;

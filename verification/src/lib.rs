//! Read SolidWorks part files (2015+), extract the embedded Parasolid B-rep,
//! and work on the node graph and the meshes made from it.

use vstd::prelude::*;

pub mod anim;
pub mod bsp;
pub mod bytes;
pub mod container;
pub mod diff;
pub mod double;
pub mod edges;
pub mod files;
pub mod font;
pub mod frames;
pub mod geometry;
pub mod graph;
pub mod grid;
pub mod inflate;
pub mod iso;
pub mod mesh;
pub mod nurbs;
pub mod orient;
pub mod part;
pub mod pdm;
pub mod pictures;
pub mod records;
pub mod render;
pub mod sample;
pub mod scan;
pub mod sections;
pub mod settled;
pub mod sheet;
pub mod sources;
pub mod splat;
pub mod step;
pub mod text;
pub mod topology;
pub mod trim;
pub mod value;
pub mod verdicts;
pub mod weld;
pub mod winding;
pub mod xt;

pub use graph::Graph;
pub use mesh::Mesh;
pub use part::{body_graphs, BodyGraph};

verus! {

/// Error type for the whole pipeline.
#[derive(Debug)]
pub enum Error {
    /// Reading or writing failed; holds the system's own words.
    Io(String),
    /// Not a SolidWorks 2015+ chunk-container file (e.g. legacy OLE2).
    NotModernSldprt,
    /// No parseable Parasolid transmit containing geometry.
    NoGeometry,
    Parse(String),
}

impl Error {
    /// What `message` says of this error.
    pub open spec fn text(self) -> Seq<char> {
        match self {
            Error::Io(e) => "io error: "@ + e@,
            Error::NotModernSldprt => "not a modern (2015+) SolidWorks file"@,
            Error::NoGeometry => "no embedded Parasolid geometry found"@,
            Error::Parse(m) => "parse error: "@ + m@,
        }
    }

    /// The error in words.
    pub fn message(&self) -> (r: String)
        ensures
            r@ == self.text(),
    {
        match self {
            Error::Io(e) => {
                let mut s = String::new();
                s.append("io error: ");
                s.append(e.as_str());
                assert(s@ =~= self.text());
                s
            },
            Error::NotModernSldprt => "not a modern (2015+) SolidWorks file".to_owned(),
            Error::NoGeometry => "no embedded Parasolid geometry found".to_owned(),
            Error::Parse(m) => {
                let mut s = String::new();
                s.append("parse error: ");
                s.append(m.as_str());
                assert(s@ =~= self.text());
                s
            },
        }
    }
}

} // verus!

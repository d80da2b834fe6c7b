//! The parsed track model and its mathematical view.
//!
//! A GPX document is a sequence of tracks; a track holds an optional name,
//! an optional kind and a sequence of segments; a segment is a sequence of
//! points; a point is a coordinate with an optional elevation. Order is
//! significant everywhere and empty tracks or segments are preserved.
//!
//! Elevations are stored, like coordinates, as exact integers scaled by
//! 1e9 (nanometers of a meter reading: `23.6` becomes `23_600_000_000`).

use vstd::prelude::*;

use crate::geo::Coord;
use crate::geo::LAT_LIMIT_NANO;
use crate::geo::LON_LIMIT_NANO;

verus! {

/// One recorded point of a track segment.
#[derive(Debug)]
pub struct TrackPoint {
    pub coordinate: Coord,
    pub elevation: Option<i64>,
}

/// A contiguous run of points with no recording gap.
#[derive(Debug)]
pub struct Segment {
    pub points: Vec<TrackPoint>,
}

/// One track of a GPX document.
#[derive(Debug)]
pub struct Track {
    pub name: Option<Vec<u8>>,
    pub kind: Option<Vec<u8>>,
    pub segments: Vec<Segment>,
}

/// The whole parsed GPX result.
#[derive(Debug)]
pub struct TrackDocument {
    pub tracks: Vec<Track>,
}

/// Why a GPX text was rejected.
#[derive(Clone, Copy, PartialEq, Eq, Structural, Debug)]
pub enum ParseError {
    /// Malformed XML, an unknown root element, or invalid nesting.
    Malformed,
    /// A `lat` or `lon` value that is not a number in range; the payload
    /// is the index of the offending point in document order.
    InvalidCoordinate(usize),
}

/// Mathematical view of a [`TrackPoint`].
pub ghost struct PointM {
    pub lat_nano: i64,
    pub lon_nano: i64,
    pub elevation: Option<i64>,
}

/// Mathematical view of a [`Track`].
pub ghost struct TrackM {
    pub name: Option<Seq<u8>>,
    pub kind: Option<Seq<u8>>,
    pub segments: Seq<Seq<PointM>>,
}

/// Mathematical view of a [`TrackDocument`].
pub ghost struct DocM {
    pub tracks: Seq<TrackM>,
}

impl PointM {
    pub open spec fn coord(self) -> Coord {
        Coord { lat_nano: self.lat_nano, lon_nano: self.lon_nano }
    }

    pub open spec fn valid(self) -> bool {
        &&& -LAT_LIMIT_NANO <= self.lat_nano <= LAT_LIMIT_NANO
        &&& -LON_LIMIT_NANO <= self.lon_nano <= LON_LIMIT_NANO
    }
}

/// Every point of the list lies on the globe.
pub open spec fn points_valid(pts: Seq<PointM>) -> bool {
    forall|i: int| 0 <= i < pts.len() ==> (#[trigger] pts[i]).valid()
}

/// Every point of every segment lies on the globe.
pub open spec fn segs_valid(segs: Seq<Seq<PointM>>) -> bool {
    forall|i: int, j: int|
        0 <= i < segs.len() && 0 <= j < segs[i].len() ==> (#[trigger] segs[i][j]).valid()
}

/// Every point of every track lies on the globe.
pub open spec fn tracks_valid(tracks: Seq<TrackM>) -> bool {
    forall|i: int| 0 <= i < tracks.len() ==> (#[trigger] tracks[i]).valid()
}

impl TrackM {
    pub open spec fn valid(self) -> bool {
        segs_valid(self.segments)
    }
}

impl DocM {
    pub open spec fn valid(self) -> bool {
        tracks_valid(self.tracks)
    }
}

impl DeepView for TrackPoint {
    type V = PointM;

    open spec fn deep_view(&self) -> PointM {
        PointM {
            lat_nano: self.coordinate.lat_nano,
            lon_nano: self.coordinate.lon_nano,
            elevation: self.elevation,
        }
    }
}

impl DeepView for Segment {
    type V = Seq<PointM>;

    open spec fn deep_view(&self) -> Seq<PointM> {
        self.points.deep_view()
    }
}

impl DeepView for Track {
    type V = TrackM;

    open spec fn deep_view(&self) -> TrackM {
        TrackM {
            name: self.name.deep_view(),
            kind: self.kind.deep_view(),
            segments: self.segments.deep_view(),
        }
    }
}

impl DeepView for TrackDocument {
    type V = DocM;

    open spec fn deep_view(&self) -> DocM {
        DocM { tracks: self.tracks.deep_view() }
    }
}

/// All points of a list of segments, in order.
pub open spec fn segments_flat(segs: Seq<Seq<PointM>>) -> Seq<PointM>
    decreases segs.len(),
{
    if segs.len() == 0 {
        Seq::empty()
    } else {
        segs.first() + segments_flat(segs.drop_first())
    }
}

/// All points of a document, flattened track by track and segment by
/// segment, in document order.
pub open spec fn doc_flat(tracks: Seq<TrackM>) -> Seq<PointM>
    decreases tracks.len(),
{
    if tracks.len() == 0 {
        Seq::empty()
    } else {
        segments_flat(tracks.first().segments) + doc_flat(tracks.drop_first())
    }
}

} // verus!

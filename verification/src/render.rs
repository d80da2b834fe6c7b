//! Rendering-surface commands and their mathematical model.
//!
//! The controller never draws; it emits a list of [`SurfaceCommand`]
//! values, and the embedding replays them against the real map widget.
//! What a command list does to a surface is defined here once, by the
//! interpreter [`surface_run`] over the ghost model [`SurfaceM`], so every
//! claim about "what is drawn" is a claim about that interpreter.

use vstd::prelude::*;

use crate::geo::Coord;
use crate::track::DocM;
use crate::track::PointM;
use crate::track::TrackM;

verus! {

/// One drawing instruction for the rendering surface.
#[derive(Clone, Debug)]
pub enum SurfaceCommand {
    /// Create the surface with this view (container choice is the
    /// embedding's business).
    Construct { center: Coord, zoom: u8 },
    /// Add the background tile layer.
    AddTileBackground,
    /// Jump the viewport.
    SetView { center: Coord, zoom: u8 },
    /// Pan (animated move) the viewport.
    PanTo { center: Coord, zoom: u8 },
    /// Remove every polyline of the track layer.
    ClearTrackLayer,
    /// Add one polyline to the track layer.
    DrawPolyline { points: Vec<Coord> },
    /// Fit the viewport to a bounding box, in nanodegrees.
    FitBounds { south: i64, west: i64, north: i64, east: i64 },
}

/// Why the rendering surface could not be constructed: the fatal
/// condition of this core, reported once to the caller and never retried
/// here.
#[derive(Clone, Copy, PartialEq, Eq, Structural, Debug)]
pub enum SurfaceError {
    InitFailed,
    ContainerMissing,
}

/// Mathematical view of a [`SurfaceCommand`].
pub ghost enum CmdM {
    Construct { center: Coord, zoom: u8 },
    AddTileBackground,
    SetView { center: Coord, zoom: u8 },
    PanTo { center: Coord, zoom: u8 },
    ClearTrackLayer,
    DrawPolyline { points: Seq<Coord> },
    FitBounds { south: i64, west: i64, north: i64, east: i64 },
}

impl DeepView for Coord {
    type V = Coord;

    open spec fn deep_view(&self) -> Coord {
        *self
    }
}

impl DeepView for SurfaceCommand {
    type V = CmdM;

    open spec fn deep_view(&self) -> CmdM {
        match self {
            SurfaceCommand::Construct { center, zoom } => CmdM::Construct {
                center: *center,
                zoom: *zoom,
            },
            SurfaceCommand::AddTileBackground => CmdM::AddTileBackground,
            SurfaceCommand::SetView { center, zoom } => CmdM::SetView {
                center: *center,
                zoom: *zoom,
            },
            SurfaceCommand::PanTo { center, zoom } => CmdM::PanTo { center: *center, zoom: *zoom },
            SurfaceCommand::ClearTrackLayer => CmdM::ClearTrackLayer,
            SurfaceCommand::DrawPolyline { points } => CmdM::DrawPolyline {
                points: points.deep_view(),
            },
            SurfaceCommand::FitBounds { south, west, north, east } => CmdM::FitBounds {
                south: *south,
                west: *west,
                north: *north,
                east: *east,
            },
        }
    }
}

/// A bounding box in nanodegrees.
pub ghost struct BBox {
    pub south: i64,
    pub west: i64,
    pub north: i64,
    pub east: i64,
}

/// Model of the rendering surface: what the commands replayed so far have
/// put on it.
pub ghost struct SurfaceM {
    pub constructed: bool,
    pub center: Coord,
    pub zoom: u8,
    pub background: bool,
    pub polylines: Seq<Seq<Coord>>,
    pub fitted: Option<BBox>,
}

/// What one command does to the surface.
pub open spec fn surface_step(m: SurfaceM, c: CmdM) -> SurfaceM {
    match c {
        CmdM::Construct { center, zoom } => SurfaceM {
            constructed: true,
            center,
            zoom,
            background: false,
            polylines: Seq::empty(),
            fitted: None,
        },
        CmdM::AddTileBackground => SurfaceM { background: true, ..m },
        CmdM::SetView { center, zoom } => SurfaceM { center, zoom, ..m },
        CmdM::PanTo { center, zoom } => SurfaceM { center, zoom, ..m },
        CmdM::ClearTrackLayer => SurfaceM { polylines: Seq::empty(), ..m },
        CmdM::DrawPolyline { points } => SurfaceM { polylines: m.polylines.push(points), ..m },
        CmdM::FitBounds { south, west, north, east } => SurfaceM {
            fitted: Some(BBox { south, west, north, east }),
            ..m
        },
    }
}

/// What a command list does to the surface, first command first.
pub open spec fn surface_run(m: SurfaceM, cmds: Seq<CmdM>) -> SurfaceM
    decreases cmds.len(),
{
    if cmds.len() == 0 {
        m
    } else {
        surface_run(surface_step(m, cmds.first()), cmds.drop_first())
    }
}

pub proof fn lemma_surface_run_concat(m: SurfaceM, a: Seq<CmdM>, b: Seq<CmdM>)
    ensures
        surface_run(m, a + b) == surface_run(surface_run(m, a), b),
    decreases a.len(),
{
    if a.len() == 0 {
        assert(a + b =~= b);
    } else {
        assert((a + b).first() == a.first());
        assert((a + b).drop_first() =~= a.drop_first() + b);
        lemma_surface_run_concat(surface_step(m, a.first()), a.drop_first(), b);
    }
}

/// The coordinates of a segment's points, in order.
pub open spec fn seg_coords(pts: Seq<PointM>) -> Seq<Coord> {
    Seq::new(pts.len(), |i: int| pts[i].coord())
}

/// Polylines of one track's segments from index `si` on, appended to
/// `acc`: one polyline per segment with at least one point.
pub open spec fn track_polys_from(segs: Seq<Seq<PointM>>, si: int, acc: Seq<Seq<Coord>>) -> Seq<
    Seq<Coord>,
>
    decreases segs.len() - si when 0 <= si <= segs.len()
{
    if si >= segs.len() {
        acc
    } else if segs[si].len() > 0 {
        track_polys_from(segs, si + 1, acc.push(seg_coords(segs[si])))
    } else {
        track_polys_from(segs, si + 1, acc)
    }
}

/// Polylines of the tracks from index `ti` on, appended to `acc`.
pub open spec fn doc_polys_from(tracks: Seq<TrackM>, ti: int, acc: Seq<Seq<Coord>>) -> Seq<
    Seq<Coord>,
>
    decreases tracks.len() - ti when 0 <= ti <= tracks.len()
{
    if ti >= tracks.len() {
        acc
    } else {
        doc_polys_from(tracks, ti + 1, track_polys_from(tracks[ti].segments, 0, acc))
    }
}

/// Every polyline a document draws: track by track, segment by segment,
/// skipping empty segments.
pub open spec fn polylines_of(d: DocM) -> Seq<Seq<Coord>> {
    doc_polys_from(d.tracks, 0, Seq::empty())
}

pub open spec fn bbox_add_point(cur: Option<BBox>, p: PointM) -> Option<BBox> {
    match cur {
        None => Some(
            BBox { south: p.lat_nano, west: p.lon_nano, north: p.lat_nano, east: p.lon_nano },
        ),
        Some(b) => Some(
            BBox {
                south: if p.lat_nano < b.south {
                    p.lat_nano
                } else {
                    b.south
                },
                west: if p.lon_nano < b.west {
                    p.lon_nano
                } else {
                    b.west
                },
                north: if p.lat_nano > b.north {
                    p.lat_nano
                } else {
                    b.north
                },
                east: if p.lon_nano > b.east {
                    p.lon_nano
                } else {
                    b.east
                },
            },
        ),
    }
}

pub open spec fn bbox_pts_from(pts: Seq<PointM>, pi: int, cur: Option<BBox>) -> Option<BBox>
    decreases pts.len() - pi when 0 <= pi <= pts.len()
{
    if pi >= pts.len() {
        cur
    } else {
        bbox_pts_from(pts, pi + 1, bbox_add_point(cur, pts[pi]))
    }
}

pub open spec fn bbox_segs_from(segs: Seq<Seq<PointM>>, si: int, cur: Option<BBox>) -> Option<BBox>
    decreases segs.len() - si when 0 <= si <= segs.len()
{
    if si >= segs.len() {
        cur
    } else {
        bbox_segs_from(segs, si + 1, bbox_pts_from(segs[si], 0, cur))
    }
}

pub open spec fn bbox_tracks_from(tracks: Seq<TrackM>, ti: int, cur: Option<BBox>) -> Option<BBox>
    decreases tracks.len() - ti when 0 <= ti <= tracks.len()
{
    if ti >= tracks.len() {
        cur
    } else {
        bbox_tracks_from(tracks, ti + 1, bbox_segs_from(tracks[ti].segments, 0, cur))
    }
}

/// Bounding box of every point of the document, `None` when it has no
/// points.
pub open spec fn bbox_of(d: DocM) -> Option<BBox> {
    bbox_tracks_from(d.tracks, 0, None)
}

/// One draw command per polyline, in order.
pub open spec fn draw_cmds(polys: Seq<Seq<Coord>>) -> Seq<CmdM> {
    Seq::new(polys.len(), |i: int| CmdM::DrawPolyline { points: polys[i] })
}

/// The final fit command, when the document has any point.
pub open spec fn fit_cmds(bb: Option<BBox>) -> Seq<CmdM> {
    match bb {
        None => Seq::empty(),
        Some(b) => seq![
            CmdM::FitBounds { south: b.south, west: b.west, north: b.north, east: b.east },
        ],
    }
}

/// The command list that draws a document: clear the track layer, draw
/// every polyline, then fit the viewport when there is anything to fit.
pub open spec fn track_plan(d: DocM) -> Seq<CmdM> {
    seq![CmdM::ClearTrackLayer] + draw_cmds(polylines_of(d)) + fit_cmds(bbox_of(d))
}

/// The command list of a first initialization: construct the surface,
/// add the tile background, then draw the buffered track if one is
/// loaded.
pub open spec fn init_plan(center: Coord, zoom: u8, track: Option<DocM>) -> Seq<CmdM> {
    seq![CmdM::Construct { center, zoom }, CmdM::AddTileBackground] + (match track {
        None => Seq::empty(),
        Some(d) => track_plan(d),
    })
}

pub proof fn lemma_run_draws(m: SurfaceM, polys: Seq<Seq<Coord>>)
    ensures
        surface_run(m, draw_cmds(polys)) == (SurfaceM {
            polylines: m.polylines + polys,
            ..m
        }),
    decreases polys.len(),
{
    if polys.len() == 0 {
        assert(draw_cmds(polys) =~= Seq::<CmdM>::empty());
        assert(m.polylines + polys =~= m.polylines);
        assert((SurfaceM { polylines: m.polylines + polys, ..m }) == m);
    } else {
        let dc = draw_cmds(polys);
        assert(dc.first() == CmdM::DrawPolyline { points: polys[0] });
        assert(dc.drop_first() =~= draw_cmds(polys.drop_first()));
        let m1 = surface_step(m, dc.first());
        lemma_run_draws(m1, polys.drop_first());
        assert(m1.polylines + polys.drop_first() =~= m.polylines + polys);
    }
}

/// Replaying a document's plan leaves exactly its polylines on the track
/// layer, whatever was drawn before; it fits the viewport to the
/// document's bounding box when it has points and touches the viewport
/// fit in no other case; center, zoom, background and construction state
/// are untouched.
pub proof fn lemma_run_track_plan(m: SurfaceM, d: DocM)
    ensures
        surface_run(m, track_plan(d)).polylines == polylines_of(d),
        surface_run(m, track_plan(d)).fitted == (match bbox_of(d) {
            None => m.fitted,
            Some(b) => Some(b),
        }),
        surface_run(m, track_plan(d)).center == m.center,
        surface_run(m, track_plan(d)).zoom == m.zoom,
        surface_run(m, track_plan(d)).background == m.background,
        surface_run(m, track_plan(d)).constructed == m.constructed,
{
    let clear = seq![CmdM::ClearTrackLayer];
    let draws = draw_cmds(polylines_of(d));
    let fits = fit_cmds(bbox_of(d));
    lemma_surface_run_concat(m, clear + draws, fits);
    lemma_surface_run_concat(m, clear, draws);
    assert(track_plan(d) == (clear + draws) + fits) by {
        assert((clear + draws) + fits =~= clear + draws + fits);
    }
    let m0 = surface_run(m, clear);
    let m0s = surface_step(m, CmdM::ClearTrackLayer);
    assert(clear.first() == CmdM::ClearTrackLayer);
    assert(clear.drop_first() =~= Seq::<CmdM>::empty());
    assert(surface_run(m0s, Seq::<CmdM>::empty()) == m0s);
    assert(m0 == m0s);
    lemma_run_draws(m0, polylines_of(d));
    let m1 = surface_run(m0, draws);
    assert(m0.polylines + polylines_of(d) =~= polylines_of(d));
    match bbox_of(d) {
        None => {
            assert(fits =~= Seq::<CmdM>::empty());
            assert(surface_run(m1, fits) == m1);
        },
        Some(b) => {
            let fin = surface_step(
                m1,
                CmdM::FitBounds { south: b.south, west: b.west, north: b.north, east: b.east },
            );
            assert(fits.first() == CmdM::FitBounds {
                south: b.south,
                west: b.west,
                north: b.north,
                east: b.east,
            });
            assert(fits.drop_first() =~= Seq::<CmdM>::empty());
            assert(surface_run(fin, Seq::<CmdM>::empty()) == fin);
            assert(surface_run(m1, fits) == fin);
        },
    }
}

} // verus!

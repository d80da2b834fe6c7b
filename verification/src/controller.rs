//! The render-sync controller: single writer of the view state.
//!
//! It owns zoom, center, the loaded track and the surface handle, takes
//! position updates, track loads and zoom changes from independent
//! asynchronous sources, and answers each with the list of
//! [`SurfaceCommand`] values the rendering surface must execute — none
//! before the surface exists, no duplicate surface, no lost update:
//! positions and tracks arriving before [`Controller::initialize`] are
//! buffered and applied by it.

use vstd::prelude::*;

use crate::geo::Coord;
use crate::render::bbox_add_point;
use crate::render::bbox_of;
use crate::render::bbox_pts_from;
use crate::render::bbox_segs_from;
use crate::render::bbox_tracks_from;
use crate::render::draw_cmds;
use crate::render::fit_cmds;
use crate::render::init_plan;
use crate::render::polylines_of;
use crate::render::seg_coords;
use crate::render::track_plan;
use crate::render::track_polys_from;
use crate::render::doc_polys_from;
use crate::render::BBox;
use crate::render::CmdM;
use crate::render::SurfaceCommand;
use crate::render::SurfaceError;
use crate::track::ParseError;
use crate::track::TrackDocument;

verus! {

/// Opaque token for a constructed rendering surface; the controller keeps
/// the authoritative state and hands this out to callers.
#[derive(Clone, Copy, PartialEq, Eq, Structural, Debug)]
pub struct SurfaceHandle {
    pub id: u64,
}

/// The bounding-box accumulator of the command builder, as a model value.
pub open spec fn cur_bb(have: bool, south: i64, west: i64, north: i64, east: i64) -> Option<BBox> {
    if have {
        Some(BBox { south, west, north, east })
    } else {
        None
    }
}

/// Builds the command list that draws a document: exactly the list
/// [`track_plan`] names.
#[verifier::loop_isolation(false)]
pub fn track_cmds(doc: &TrackDocument) -> (out: Vec<SurfaceCommand>)
    ensures
        out.deep_view() == track_plan(doc.deep_view()),
{
    let ghost d = doc.deep_view();
    let mut out: Vec<SurfaceCommand> = Vec::new();
    out.push(SurfaceCommand::ClearTrackLayer);
    let ghost mut polys_acc: Seq<Seq<Coord>> = Seq::empty();
    proof {
        assert(draw_cmds(polys_acc) =~= Seq::<CmdM>::empty());
        assert(out.deep_view() =~= seq![CmdM::ClearTrackLayer] + draw_cmds(polys_acc));
    }
    let mut have: bool = false;
    let mut south: i64 = 0;
    let mut west: i64 = 0;
    let mut north: i64 = 0;
    let mut east: i64 = 0;
    let nt = doc.tracks.len();
    let mut ti: usize = 0;
    proof {
        assert(d.tracks == doc.tracks.deep_view());
    }
    while ti < nt
        invariant
            0 <= ti <= nt,
            polylines_of(d) == doc_polys_from(d.tracks, ti as int, polys_acc),
            bbox_of(d) == bbox_tracks_from(d.tracks, ti as int, cur_bb(have, south, west, north, east)),
            out.deep_view() == seq![CmdM::ClearTrackLayer] + draw_cmds(polys_acc),
        decreases nt - ti,
    {
        let t = &doc.tracks[ti];
        let ghost tm = d.tracks[ti as int];
        proof {
            assert(tm == doc.tracks@[ti as int].deep_view());
            assert(tm.segments == t.segments.deep_view());
        }
        let ns = t.segments.len();
        let mut si: usize = 0;
        while si < ns
            invariant
                0 <= si <= ns,
                polylines_of(d) == doc_polys_from(
                    d.tracks,
                    ti as int + 1,
                    track_polys_from(tm.segments, si as int, polys_acc),
                ),
                bbox_of(d) == bbox_tracks_from(
                    d.tracks,
                    ti as int + 1,
                    bbox_segs_from(
                        tm.segments,
                        si as int,
                        cur_bb(have, south, west, north, east),
                    ),
                ),
                out.deep_view() == seq![CmdM::ClearTrackLayer] + draw_cmds(polys_acc),
            decreases ns - si,
        {
            let sg = &t.segments[si];
            let ghost sm = tm.segments[si as int];
            proof {
                assert(sm == t.segments@[si as int].deep_view());
                assert(sm == sg.points.deep_view());
            }
            let np = sg.points.len();
            let mut cv: Vec<Coord> = Vec::new();
            let mut pi: usize = 0;
            proof {
                assert(cv.deep_view() =~= seg_coords(sm).take(0));
            }
            while pi < np
                invariant
                    0 <= pi <= np,
                    np == sg.points.len(),
                    cv.deep_view() == seg_coords(sm).take(pi as int),
                    bbox_of(d) == bbox_tracks_from(
                        d.tracks,
                        ti as int + 1,
                        bbox_segs_from(
                            tm.segments,
                            si as int + 1,
                            bbox_pts_from(sm, pi as int, cur_bb(have, south, west, north, east)),
                        ),
                    ),
                decreases np - pi,
            {
                let ghost bb0 = cur_bb(have, south, west, north, east);
                let p = &sg.points[pi];
                proof {
                    assert(sm[pi as int] == sg.points@[pi as int].deep_view());
                    assert(seg_coords(sm)[pi as int] == p.coordinate);
                }
                cv.push(p.coordinate);
                if !have {
                    have = true;
                    south = p.coordinate.lat_nano;
                    west = p.coordinate.lon_nano;
                    north = p.coordinate.lat_nano;
                    east = p.coordinate.lon_nano;
                } else {
                    if p.coordinate.lat_nano < south {
                        south = p.coordinate.lat_nano;
                    }
                    if p.coordinate.lon_nano < west {
                        west = p.coordinate.lon_nano;
                    }
                    if p.coordinate.lat_nano > north {
                        north = p.coordinate.lat_nano;
                    }
                    if p.coordinate.lon_nano > east {
                        east = p.coordinate.lon_nano;
                    }
                }
                pi = pi + 1;
                proof {
                    assert(cv.deep_view() =~= seg_coords(sm).take(pi as int));
                    assert(cur_bb(have, south, west, north, east) == bbox_add_point(
                        bb0,
                        sm[pi - 1],
                    ));
                }
            }
            if np > 0 {
                let ghost out0 = out.deep_view();
                let ghost acc0 = polys_acc;
                proof {
                    assert(cv.deep_view() =~= seg_coords(sm));
                }
                out.push(SurfaceCommand::DrawPolyline { points: cv });
                proof {
                    polys_acc = polys_acc.push(seg_coords(sm));
                    assert(out.deep_view() =~= out0.push(
                        CmdM::DrawPolyline { points: seg_coords(sm) },
                    ));
                    assert(draw_cmds(polys_acc) =~= draw_cmds(acc0).push(
                        CmdM::DrawPolyline { points: seg_coords(sm) },
                    ));
                    assert(out.deep_view() =~= seq![CmdM::ClearTrackLayer] + draw_cmds(polys_acc));
                }
            }
            si = si + 1;
        }
        ti = ti + 1;
    }
    if have {
        let ghost out0 = out.deep_view();
        out.push(SurfaceCommand::FitBounds { south, west, north, east });
        proof {
            assert(out.deep_view() =~= out0 + fit_cmds(cur_bb(true, south, west, north, east)));
        }
    }
    proof {
        assert(polylines_of(d) == polys_acc);
        assert(bbox_of(d) == cur_bb(have, south, west, north, east));
        if have {
            assert(out.deep_view() =~= seq![CmdM::ClearTrackLayer] + draw_cmds(polylines_of(d))
                + fit_cmds(bbox_of(d)));
        } else {
            assert(fit_cmds(bbox_of(d)) =~= Seq::<CmdM>::empty());
            assert(out.deep_view() =~= seq![CmdM::ClearTrackLayer] + draw_cmds(polylines_of(d))
                + fit_cmds(bbox_of(d)));
        }
    }
    out
}

/// The center a first initialization uses: the position buffered before
/// the surface existed, else the caller's initial center.
pub open spec fn chosen_center(pending: Option<Coord>, initial: Coord) -> Coord {
    match pending {
        Some(c) => c,
        None => initial,
    }
}

/// Zoom clamped to the legal range 1 to 18.
pub open spec fn clamp_zoom(z: u8) -> u8 {
    if z < 1 {
        1u8
    } else if z > 18 {
        18u8
    } else {
        z
    }
}

/// The view state and its single writer. All fields are mutated through
/// the operations below only; the embedding reads snapshots.
pub struct Controller {
    /// Always within 1 to 18.
    pub zoom_level: u8,
    /// The most recently applied position.
    pub center: Coord,
    /// The last successfully loaded track, replaced wholesale.
    pub loaded_track: Option<TrackDocument>,
    /// The handle of the constructed surface; `None` before
    /// `initialize` and after `teardown`.
    pub surface: Option<SurfaceHandle>,
    /// A position applied while no surface existed, to become the
    /// initial center of the next `initialize`.
    pub pending_center: Option<Coord>,
    /// How many surfaces this controller has constructed (handle ids).
    pub sessions: u64,
    /// Generation counter for file reads: completions of superseded
    /// reads are discarded.
    pub current_read: u64,
}

impl Controller {
    pub open spec fn wf(self) -> bool {
        1 <= self.zoom_level <= 18
    }

    pub open spec fn map_ready(self) -> bool {
        self.surface is Some
    }

    pub fn new() -> (c: Controller)
        ensures
            c.wf(),
            c == (Controller {
                zoom_level: 18u8,
                center: Coord { lat_nano: 0, lon_nano: 0 },
                loaded_track: None::<TrackDocument>,
                surface: None::<SurfaceHandle>,
                pending_center: None::<Coord>,
                sessions: 0u64,
                current_read: 0u64,
            }),
    {
        Controller {
            zoom_level: 18,
            center: Coord { lat_nano: 0, lon_nano: 0 },
            loaded_track: None,
            surface: None,
            pending_center: None,
            sessions: 0,
            current_read: 0,
        }
    }

    /// Constructs the rendering surface exactly once per session. A call
    /// while a surface exists changes nothing and returns the existing
    /// handle with no commands. The first call centers on the buffered
    /// position if one arrived early, else on `initial_center`, clamps
    /// the zoom, consumes the buffer, and emits the construction plan —
    /// including the drawing of a track that was loaded early.
    pub fn initialize(&mut self, initial_center: Coord, initial_zoom: u8) -> (res: (
        SurfaceHandle,
        Vec<SurfaceCommand>,
    ))
        requires
            old(self).wf(),
        ensures
            final(self).wf(),
            old(self).map_ready() ==> *final(self) == *old(self) && old(self).surface == Some(res.0)
                && res.1.deep_view() == Seq::<CmdM>::empty(),
            !old(self).map_ready() ==> {
                &&& final(self).surface == Some(res.0)
                &&& res.0 == (SurfaceHandle { id: old(self).sessions })
                &&& final(self).center == chosen_center(old(self).pending_center, initial_center)
                &&& final(self).zoom_level == clamp_zoom(initial_zoom)
                &&& final(self).loaded_track == old(self).loaded_track
                &&& final(self).pending_center is None
                &&& final(self).current_read == old(self).current_read
                &&& final(self).sessions == (if old(self).sessions < u64::MAX {
                    (old(self).sessions + 1) as u64
                } else {
                    old(self).sessions
                })
                &&& res.1.deep_view() == init_plan(
                    chosen_center(old(self).pending_center, initial_center),
                    clamp_zoom(initial_zoom),
                    old(self).loaded_track.deep_view(),
                )
            },
    {
        match self.surface {
            Some(h) => {
                let out: Vec<SurfaceCommand> = Vec::new();
                proof {
                    assert(out.deep_view() =~= Seq::<CmdM>::empty());
                }
                return (h, out);
            },
            None => {},
        }
        let chosen = match self.pending_center {
            Some(c) => c,
            None => initial_center,
        };
        let z: u8 = if initial_zoom < 1 {
            1
        } else if initial_zoom > 18 {
            18
        } else {
            initial_zoom
        };
        let h = SurfaceHandle { id: self.sessions };
        self.sessions = if self.sessions == u64::MAX {
            self.sessions
        } else {
            self.sessions + 1
        };
        self.surface = Some(h);
        self.center = chosen;
        self.zoom_level = z;
        self.pending_center = None;
        let mut out: Vec<SurfaceCommand> = Vec::new();
        out.push(SurfaceCommand::Construct { center: chosen, zoom: z });
        out.push(SurfaceCommand::AddTileBackground);
        let ghost base = out.deep_view();
        proof {
            assert(base =~= seq![
                CmdM::Construct { center: chosen, zoom: z },
                CmdM::AddTileBackground,
            ]);
        }
        match &self.loaded_track {
            None => {
                proof {
                    assert(out.deep_view() =~= init_plan(
                        chosen,
                        z,
                        self.loaded_track.deep_view(),
                    ));
                }
            },
            Some(doc) => {
                let mut extra = track_cmds(doc);
                out.append(&mut extra);
                proof {
                    assert(out.deep_view() =~= base + track_plan(doc.deep_view()));
                    assert(out.deep_view() =~= init_plan(
                        chosen,
                        z,
                        self.loaded_track.deep_view(),
                    ));
                }
            },
        }
        (h, out)
    }

    /// Updates the center to the applied position. With a surface it pans
    /// there at the current zoom; without one it buffers the position for
    /// the next `initialize`. The update is never lost.
    pub fn apply_position(&mut self, c: Coord) -> (out: Vec<SurfaceCommand>)
        requires
            old(self).wf(),
        ensures
            final(self).wf(),
            final(self).center == c,
            final(self).zoom_level == old(self).zoom_level,
            final(self).loaded_track == old(self).loaded_track,
            final(self).surface == old(self).surface,
            final(self).sessions == old(self).sessions,
            final(self).current_read == old(self).current_read,
            old(self).map_ready() ==> final(self).pending_center == old(self).pending_center
                && out.deep_view() == seq![
                CmdM::PanTo { center: c, zoom: old(self).zoom_level },
            ],
            !old(self).map_ready() ==> final(self).pending_center == Some(c) && out.deep_view()
                == Seq::<CmdM>::empty(),
    {
        self.center = c;
        let mut out: Vec<SurfaceCommand> = Vec::new();
        if self.surface.is_some() {
            out.push(SurfaceCommand::PanTo { center: c, zoom: self.zoom_level });
            proof {
                assert(out.deep_view() =~= seq![
                    CmdM::PanTo { center: c, zoom: self.zoom_level },
                ]);
            }
        } else {
            self.pending_center = Some(c);
            proof {
                assert(out.deep_view() =~= Seq::<CmdM>::empty());
            }
        }
        out
    }

    /// Feeds a parse result in. A failure changes nothing — the prior
    /// track stays loaded and drawn — and hands the error back. A success
    /// replaces the loaded track wholesale; with a surface it answers
    /// with the full redraw plan (clear, draw, fit), without one it
    /// buffers the track for the next `initialize`.
    pub fn apply_track(&mut self, parsed: Result<TrackDocument, ParseError>) -> (out: Result<
        Vec<SurfaceCommand>,
        ParseError,
    >)
        requires
            old(self).wf(),
        ensures
            final(self).wf(),
            parsed is Err ==> *final(self) == *old(self) && out == Err::<
                Vec<SurfaceCommand>,
                ParseError,
            >(parsed->Err_0),
            parsed is Ok ==> {
                &&& final(self).loaded_track == Some(parsed->Ok_0)
                &&& final(self).center == old(self).center
                &&& final(self).zoom_level == old(self).zoom_level
                &&& final(self).surface == old(self).surface
                &&& final(self).pending_center == old(self).pending_center
                &&& final(self).sessions == old(self).sessions
                &&& final(self).current_read == old(self).current_read
                &&& out is Ok
                &&& old(self).map_ready() ==> (out->Ok_0).deep_view() == track_plan(
                    (parsed->Ok_0).deep_view(),
                )
                &&& !old(self).map_ready() ==> (out->Ok_0).deep_view() == Seq::<CmdM>::empty()
            },
    {
        match parsed {
            Err(e) => Err(e),
            Ok(doc) => {
                let cmds: Vec<SurfaceCommand> = if self.surface.is_some() {
                    track_cmds(&doc)
                } else {
                    let empty_cmds: Vec<SurfaceCommand> = Vec::new();
                    proof {
                        assert(empty_cmds.deep_view() =~= Seq::<CmdM>::empty());
                    }
                    empty_cmds
                };
                self.loaded_track = Some(doc);
                Ok(cmds)
            },
        }
    }

    /// One zoom step in, saturating at 18; with a surface the view is set
    /// again at the unchanged center.
    pub fn zoom_in(&mut self) -> (out: Vec<SurfaceCommand>)
        requires
            old(self).wf(),
        ensures
            final(self).wf(),
            final(self).zoom_level == (if old(self).zoom_level < 18 {
                (old(self).zoom_level + 1) as u8
            } else {
                18u8
            }),
            final(self).center == old(self).center,
            final(self).loaded_track == old(self).loaded_track,
            final(self).surface == old(self).surface,
            final(self).pending_center == old(self).pending_center,
            final(self).sessions == old(self).sessions,
            final(self).current_read == old(self).current_read,
            old(self).map_ready() ==> out.deep_view() == seq![
                CmdM::SetView { center: old(self).center, zoom: final(self).zoom_level },
            ],
            !old(self).map_ready() ==> out.deep_view() == Seq::<CmdM>::empty(),
    {
        if self.zoom_level < 18 {
            self.zoom_level = self.zoom_level + 1;
        }
        let mut out: Vec<SurfaceCommand> = Vec::new();
        if self.surface.is_some() {
            out.push(SurfaceCommand::SetView { center: self.center, zoom: self.zoom_level });
            proof {
                assert(out.deep_view() =~= seq![
                    CmdM::SetView { center: self.center, zoom: self.zoom_level },
                ]);
            }
        } else {
            proof {
                assert(out.deep_view() =~= Seq::<CmdM>::empty());
            }
        }
        out
    }

    /// One zoom step out, saturating at 1; with a surface the view is set
    /// again at the unchanged center.
    pub fn zoom_out(&mut self) -> (out: Vec<SurfaceCommand>)
        requires
            old(self).wf(),
        ensures
            final(self).wf(),
            final(self).zoom_level == (if old(self).zoom_level > 1 {
                (old(self).zoom_level - 1) as u8
            } else {
                1u8
            }),
            final(self).center == old(self).center,
            final(self).loaded_track == old(self).loaded_track,
            final(self).surface == old(self).surface,
            final(self).pending_center == old(self).pending_center,
            final(self).sessions == old(self).sessions,
            final(self).current_read == old(self).current_read,
            old(self).map_ready() ==> out.deep_view() == seq![
                CmdM::SetView { center: old(self).center, zoom: final(self).zoom_level },
            ],
            !old(self).map_ready() ==> out.deep_view() == Seq::<CmdM>::empty(),
    {
        if self.zoom_level > 1 {
            self.zoom_level = self.zoom_level - 1;
        }
        let mut out: Vec<SurfaceCommand> = Vec::new();
        if self.surface.is_some() {
            out.push(SurfaceCommand::SetView { center: self.center, zoom: self.zoom_level });
            proof {
                assert(out.deep_view() =~= seq![
                    CmdM::SetView { center: self.center, zoom: self.zoom_level },
                ]);
            }
        } else {
            proof {
                assert(out.deep_view() =~= Seq::<CmdM>::empty());
            }
        }
        out
    }

    /// The embedding reports that executing the `Construct` command
    /// failed — the fatal condition of this core. The handle is released,
    /// so operations buffer again, and the error to surface to the
    /// caller is handed back: `ContainerMissing` when the drawing target
    /// did not exist, `InitFailed` for any other construction failure.
    /// No retry happens here; whether to initialize again is the
    /// caller's decision.
    pub fn construction_failed(&mut self, container_was_missing: bool) -> (e: SurfaceError)
        requires
            old(self).wf(),
        ensures
            final(self).wf(),
            final(self).surface is None,
            final(self).zoom_level == old(self).zoom_level,
            final(self).center == old(self).center,
            final(self).loaded_track == old(self).loaded_track,
            final(self).pending_center == old(self).pending_center,
            final(self).sessions == old(self).sessions,
            final(self).current_read == old(self).current_read,
            e == (if container_was_missing {
                SurfaceError::ContainerMissing
            } else {
                SurfaceError::InitFailed
            }),
    {
        self.surface = None;
        if container_was_missing {
            SurfaceError::ContainerMissing
        } else {
            SurfaceError::InitFailed
        }
    }

    /// Releases the surface handle: every later operation behaves as if
    /// no surface existed, until the next `initialize`.
    pub fn teardown(&mut self)
        requires
            old(self).wf(),
        ensures
            final(self).wf(),
            final(self).surface is None,
            final(self).zoom_level == old(self).zoom_level,
            final(self).center == old(self).center,
            final(self).loaded_track == old(self).loaded_track,
            final(self).pending_center == old(self).pending_center,
            final(self).sessions == old(self).sessions,
            final(self).current_read == old(self).current_read,
    {
        self.surface = None;
    }

    /// Opens a new file read and supersedes every earlier one: the id
    /// handed back is the only one whose completion will be accepted.
    pub fn begin_track_load(&mut self) -> (id: u64)
        requires
            old(self).wf(),
        ensures
            final(self).wf(),
            id == final(self).current_read,
            final(self).current_read == (if old(self).current_read < u64::MAX {
                (old(self).current_read + 1) as u64
            } else {
                old(self).current_read
            }),
            final(self).zoom_level == old(self).zoom_level,
            final(self).center == old(self).center,
            final(self).loaded_track == old(self).loaded_track,
            final(self).surface == old(self).surface,
            final(self).pending_center == old(self).pending_center,
            final(self).sessions == old(self).sessions,
    {
        if self.current_read < u64::MAX {
            self.current_read = self.current_read + 1;
        }
        self.current_read
    }

    /// Completion of the file read `id`: if a newer read was opened since,
    /// the completion is discarded and nothing changes; otherwise it is
    /// exactly an `apply_track`.
    pub fn apply_track_if_current(
        &mut self,
        id: u64,
        parsed: Result<TrackDocument, ParseError>,
    ) -> (out: Option<Result<Vec<SurfaceCommand>, ParseError>>)
        requires
            old(self).wf(),
        ensures
            final(self).wf(),
            id != old(self).current_read ==> *final(self) == *old(self) && out is None,
            id == old(self).current_read ==> {
                &&& out is Some
                &&& parsed is Err ==> *final(self) == *old(self) && out->Some_0 == Err::<
                    Vec<SurfaceCommand>,
                    ParseError,
                >(parsed->Err_0)
                &&& parsed is Ok ==> {
                    &&& final(self).loaded_track == Some(parsed->Ok_0)
                    &&& final(self).center == old(self).center
                    &&& final(self).zoom_level == old(self).zoom_level
                    &&& final(self).surface == old(self).surface
                    &&& final(self).pending_center == old(self).pending_center
                    &&& final(self).sessions == old(self).sessions
                    &&& final(self).current_read == old(self).current_read
                    &&& out->Some_0 is Ok
                    &&& old(self).map_ready() ==> ((out->Some_0)->Ok_0).deep_view() == track_plan(
                        (parsed->Ok_0).deep_view(),
                    )
                    &&& !old(self).map_ready() ==> ((out->Some_0)->Ok_0).deep_view() == Seq::<
                        CmdM,
                    >::empty()
                }
            },
    {
        if id != self.current_read {
            return None;
        }
        Some(self.apply_track(parsed))
    }
}

} // verus!


use trackmap::controller::Controller;
use trackmap::geo::Coord;
use trackmap::parser::parse;
use trackmap::render::SurfaceCommand;
use trackmap::render::SurfaceError;
use trackmap::track::ParseError;

const TRACK_A: &[u8] = b"<gpx><trk><trkseg>\
    <trkpt lat=\"52.135072\" lon=\"0.129808\"/>\
    <trkpt lat=\"52.135136\" lon=\"0.129777\"/>\
    <trkpt lat=\"52.1352\" lon=\"0.129749\"/>\
    </trkseg></trk></gpx>";

const TRACK_B: &[u8] = b"<gpx><trk><trkseg>\
    <trkpt lat=\"-1\" lon=\"-2\"/>\
    <trkpt lat=\"-3\" lon=\"-4\"/>\
    </trkseg></trk></gpx>";

/// A miniature surface: replays command lists the way the real embedding
/// would, keeping only what the tests inspect.
struct MiniSurface {
    constructed: bool,
    center: Coord,
    zoom: u8,
    polylines: Vec<Vec<Coord>>,
    fitted: Option<(i64, i64, i64, i64)>,
}

impl MiniSurface {
    fn new() -> MiniSurface {
        MiniSurface {
            constructed: false,
            center: Coord::new(0, 0),
            zoom: 1,
            polylines: Vec::new(),
            fitted: None,
        }
    }

    fn run(&mut self, cmds: &[SurfaceCommand]) {
        for c in cmds {
            match c {
                SurfaceCommand::Construct { center, zoom } => {
                    self.constructed = true;
                    self.center = *center;
                    self.zoom = *zoom;
                    self.polylines.clear();
                    self.fitted = None;
                }
                SurfaceCommand::AddTileBackground => {}
                SurfaceCommand::SetView { center, zoom }
                | SurfaceCommand::PanTo { center, zoom } => {
                    self.center = *center;
                    self.zoom = *zoom;
                }
                SurfaceCommand::ClearTrackLayer => self.polylines.clear(),
                SurfaceCommand::DrawPolyline { points } => self.polylines.push(points.clone()),
                SurfaceCommand::FitBounds {
                    south,
                    west,
                    north,
                    east,
                } => self.fitted = Some((*south, *west, *north, *east)),
            }
        }
    }
}

#[test]
fn initialize_is_idempotent() {
    let mut ctl = Controller::new();
    let (h1, cmds1) = ctl.initialize(Coord::new(5, 6), 12);
    assert!(!cmds1.is_empty());
    let zoom_after_first = ctl.zoom_level;
    let center_after_first = ctl.center;
    let (h2, cmds2) = ctl.initialize(Coord::new(7, 8), 3);
    assert_eq!(h1, h2, "second initialize returns the first handle");
    assert!(cmds2.is_empty(), "second initialize emits nothing");
    assert_eq!(ctl.zoom_level, zoom_after_first);
    assert_eq!(ctl.center, center_after_first);
}

#[test]
fn initialize_clamps_zoom_and_sets_state() {
    let mut ctl = Controller::new();
    let (_h, cmds) = ctl.initialize(Coord::new(1, 2), 0);
    assert_eq!(ctl.zoom_level, 1);
    assert!(matches!(
        cmds[0],
        SurfaceCommand::Construct {
            center: Coord {
                lat_nano: 1,
                lon_nano: 2
            },
            zoom: 1
        }
    ));
    assert!(matches!(cmds[1], SurfaceCommand::AddTileBackground));
    let mut ctl2 = Controller::new();
    ctl2.teardown();
    let (_h, _cmds) = ctl2.initialize(Coord::new(0, 0), 200);
    assert_eq!(ctl2.zoom_level, 18);
}

#[test]
fn buffered_position_becomes_initial_center() {
    let mut ctl = Controller::new();
    let buffered = Coord::new(52_000_000_000, 13_000_000_000);
    let cmds = ctl.apply_position(buffered);
    assert!(cmds.is_empty(), "no surface yet: nothing to pan");
    assert_eq!(ctl.center, buffered);
    let (_h, cmds) = ctl.initialize(Coord::new(1, 1), 10);
    match &cmds[0] {
        SurfaceCommand::Construct { center, zoom } => {
            assert_eq!(*center, buffered, "surface centers on the buffered position");
            assert_eq!(*zoom, 10);
        }
        other => panic!("expected Construct first, got {:?}", other),
    }
}

#[test]
fn apply_position_pans_when_ready() {
    let mut ctl = Controller::new();
    let (_h, _cmds) = ctl.initialize(Coord::new(0, 0), 13);
    let here = Coord::new(48_000_000_000, 11_000_000_000);
    let cmds = ctl.apply_position(here);
    assert_eq!(cmds.len(), 1);
    match &cmds[0] {
        SurfaceCommand::PanTo { center, zoom } => {
            assert_eq!(*center, here);
            assert_eq!(*zoom, 13, "pan keeps the current zoom");
        }
        other => panic!("expected PanTo, got {:?}", other),
    }
    assert_eq!(ctl.center, here);
}

#[test]
fn zoom_saturates_at_eighteen() {
    let mut ctl = Controller::new();
    let (_h, _c) = ctl.initialize(Coord::new(0, 0), 18);
    assert_eq!(ctl.zoom_level, 18);
    let _ = ctl.zoom_in();
    assert_eq!(ctl.zoom_level, 18, "zoom_in at 18 stays at 18");
}

#[test]
fn zoom_saturates_at_one() {
    let mut ctl = Controller::new();
    let (_h, _c) = ctl.initialize(Coord::new(0, 0), 1);
    assert_eq!(ctl.zoom_level, 1);
    let _ = ctl.zoom_out();
    assert_eq!(ctl.zoom_level, 1, "zoom_out at 1 stays at 1");
}

#[test]
fn zoom_steps_and_reissues_view() {
    let mut ctl = Controller::new();
    let (_h, _c) = ctl.initialize(Coord::new(9, 9), 10);
    let cmds = ctl.zoom_in();
    assert_eq!(ctl.zoom_level, 11);
    assert!(matches!(
        cmds[0],
        SurfaceCommand::SetView {
            center: Coord {
                lat_nano: 9,
                lon_nano: 9
            },
            zoom: 11
        }
    ));
    let cmds = ctl.zoom_out();
    assert_eq!(ctl.zoom_level, 10);
    assert!(matches!(cmds[0], SurfaceCommand::SetView { zoom: 10, .. }));
}

#[test]
fn rejected_track_mutates_nothing() {
    let mut ctl = Controller::new();
    let mut surface = MiniSurface::new();
    let (_h, cmds) = ctl.initialize(Coord::new(0, 0), 5);
    surface.run(&cmds);
    let ok = ctl.apply_track(parse(TRACK_A)).unwrap();
    surface.run(&ok);
    assert_eq!(surface.polylines.len(), 1);
    let bad = ctl.apply_track(parse(b"not a gpx"));
    match bad {
        Err(e) => assert_eq!(e, ParseError::Malformed),
        Ok(_) => panic!("invalid text must be rejected"),
    }
    assert!(ctl.loaded_track.is_some(), "prior track stays loaded");
    assert_eq!(
        ctl.loaded_track.as_ref().unwrap().tracks[0].segments[0]
            .points
            .len(),
        3,
        "prior track unchanged"
    );
    assert_eq!(surface.polylines.len(), 1, "drawn layer untouched");
}

#[test]
fn three_point_track_draws_one_polyline_and_fits() {
    let mut ctl = Controller::new();
    let mut surface = MiniSurface::new();
    let (_h, cmds) = ctl.initialize(Coord::new(0, 0), 5);
    surface.run(&cmds);
    let cmds = ctl.apply_track(parse(TRACK_A)).unwrap();
    surface.run(&cmds);
    assert_eq!(surface.polylines.len(), 1, "exactly one polyline");
    assert_eq!(surface.polylines[0].len(), 3, "of three points");
    assert_eq!(
        surface.polylines[0][0],
        Coord::new(52_135_072_000, 129_808_000)
    );
    assert_eq!(
        surface.fitted,
        Some((52_135_072_000, 129_749_000, 52_135_200_000, 129_808_000)),
        "viewport fit covers all three coordinates"
    );
}

#[test]
fn second_track_replaces_first_without_accumulation() {
    let mut ctl = Controller::new();
    let mut surface = MiniSurface::new();
    let (_h, cmds) = ctl.initialize(Coord::new(0, 0), 5);
    surface.run(&cmds);
    let cmds = ctl.apply_track(parse(TRACK_A)).unwrap();
    surface.run(&cmds);
    let cmds = ctl.apply_track(parse(TRACK_B)).unwrap();
    assert!(
        matches!(cmds[0], SurfaceCommand::ClearTrackLayer),
        "redraw starts by clearing"
    );
    surface.run(&cmds);
    assert_eq!(surface.polylines.len(), 1, "no accumulation across loads");
    assert_eq!(surface.polylines[0].len(), 2, "only the second track shows");
    assert_eq!(surface.polylines[0][0], Coord::new(-1_000_000_000, -2_000_000_000));
}

#[test]
fn track_loaded_before_initialize_is_drawn_by_it() {
    let mut ctl = Controller::new();
    let cmds = ctl.apply_track(parse(TRACK_B)).unwrap();
    assert!(cmds.is_empty(), "no surface yet: nothing drawn");
    assert!(ctl.loaded_track.is_some(), "the update is not lost");
    let mut surface = MiniSurface::new();
    let (_h, cmds) = ctl.initialize(Coord::new(0, 0), 7);
    surface.run(&cmds);
    assert_eq!(surface.polylines.len(), 1, "buffered track drawn on initialize");
    assert_eq!(surface.polylines[0].len(), 2);
}

#[test]
fn empty_segments_draw_nothing_and_fit_nothing() {
    let mut ctl = Controller::new();
    let mut surface = MiniSurface::new();
    let (_h, cmds) = ctl.initialize(Coord::new(0, 0), 5);
    surface.run(&cmds);
    let cmds = ctl
        .apply_track(parse(b"<gpx><trk><trkseg/></trk></gpx>"))
        .unwrap();
    surface.run(&cmds);
    assert_eq!(surface.polylines.len(), 0);
    assert_eq!(surface.fitted, None, "no fit attempted for empty segments");
}

#[test]
fn single_point_segment_is_a_degenerate_polyline() {
    let mut ctl = Controller::new();
    let mut surface = MiniSurface::new();
    let (_h, cmds) = ctl.initialize(Coord::new(0, 0), 5);
    surface.run(&cmds);
    let cmds = ctl
        .apply_track(parse(
            b"<gpx><trk><trkseg><trkpt lat=\"7\" lon=\"8\"/></trkseg></trk></gpx>",
        ))
        .unwrap();
    surface.run(&cmds);
    assert_eq!(surface.polylines.len(), 1);
    assert_eq!(surface.polylines[0].len(), 1);
    assert_eq!(
        surface.fitted,
        Some((7_000_000_000, 8_000_000_000, 7_000_000_000, 8_000_000_000)),
        "a single point is included in the fit"
    );
}

#[test]
fn teardown_makes_operations_buffer_again() {
    let mut ctl = Controller::new();
    let (_h, _c) = ctl.initialize(Coord::new(0, 0), 9);
    ctl.teardown();
    let cmds = ctl.apply_position(Coord::new(3, 4));
    assert!(cmds.is_empty(), "after teardown nothing reaches the surface");
    let (_h, cmds) = ctl.initialize(Coord::new(0, 0), 9);
    match &cmds[0] {
        SurfaceCommand::Construct { center, .. } => {
            assert_eq!(*center, Coord::new(3, 4));
        }
        other => panic!("expected Construct first, got {:?}", other),
    }
}

#[test]
fn failed_construction_releases_the_surface() {
    let mut ctl = Controller::new();
    let (_h, _cmds) = ctl.initialize(Coord::new(0, 0), 9);
    let e = ctl.construction_failed(true);
    assert_eq!(e, SurfaceError::ContainerMissing);
    assert!(ctl.surface.is_none());
    let mut ctl2 = Controller::new();
    let (_h, _cmds) = ctl2.initialize(Coord::new(0, 0), 9);
    assert_eq!(ctl2.construction_failed(false), SurfaceError::InitFailed);
    let cmds = ctl2.apply_position(Coord::new(1, 1));
    assert!(cmds.is_empty(), "after the failure nothing reaches a surface");
}

#[test]
fn superseded_file_read_is_discarded() {
    let mut ctl = Controller::new();
    let (_h, _c) = ctl.initialize(Coord::new(0, 0), 9);
    let old_read = ctl.begin_track_load();
    let new_read = ctl.begin_track_load();
    assert_ne!(old_read, new_read);
    let stale = ctl.apply_track_if_current(old_read, parse(TRACK_A));
    assert!(stale.is_none(), "completion of a superseded read is ignored");
    assert!(ctl.loaded_track.is_none());
    let fresh = ctl.apply_track_if_current(new_read, parse(TRACK_A));
    assert!(fresh.is_some());
    assert!(ctl.loaded_track.is_some());
}

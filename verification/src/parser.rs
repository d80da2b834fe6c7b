//! The GPX reader: raw XML text in, a track document or a typed error out.
//!
//! The supported subset is the GPX 1.1 track hierarchy: a `gpx` root
//! holding `trk` elements, each holding optional `name` and `type` text,
//! and `trkseg` elements of `trkpt` points with `lat`/`lon` attributes and
//! an optional `ele` elevation. Unknown elements anywhere are skipped over
//! (their tags must balance); an optional leading XML declaration is
//! skipped; character text is meaningful only inside `name`, `type` and
//! `ele`. Entities are not decoded: text comes back byte for byte.
//!
//! The whole grammar is a family of spec functions culminating in
//! [`parse_spec`]; the executable [`parse`] is proved to return exactly
//! the document or error that [`parse_spec`] names.

use vstd::prelude::*;
use vstd::string::StringSliceAdditionalSpecFns;
use vstd::slice::slice_subrange;
use vstd::slice::slice_to_vec;

use crate::geo::Coord;
use crate::geo::LAT_LIMIT_NANO;
use crate::geo::LON_LIMIT_NANO;
use crate::num::lemma_parse_nano_range;
use crate::num::parse_nano;
use crate::num::parse_nano_exec;
use crate::track::DocM;
use crate::track::ParseError;
use crate::track::PointM;
use crate::track::points_valid;
use crate::track::segs_valid;
use crate::track::tracks_valid;
use crate::track::Segment;
use crate::track::Track;
use crate::track::TrackDocument;
use crate::track::TrackM;
use crate::track::TrackPoint;
use crate::xml::attr_lookup;
use crate::xml::attr_lookup_exec;
use crate::xml::attrs_parse;
use crate::xml::attrs_parse_exec;
use crate::xml::bytes_eq;
use crate::xml::lemma_attrs_parse;
use crate::xml::lemma_name_end;
use crate::xml::lemma_pi_end;
use crate::xml::lemma_scan_to;
use crate::xml::lemma_skip_node;
use crate::xml::lemma_ws_end;
use crate::xml::name_end;
use crate::xml::name_end_exec;
use crate::xml::pi_end;
use crate::xml::pi_end_exec;
use crate::xml::scan_to;
use crate::xml::scan_to_exec;
use crate::xml::skip_node;
use crate::xml::skip_node_exec;
use crate::xml::ws_end;
use crate::xml::ws_end_exec;

verus! {

/// Largest elevation magnitude accepted, in 1e-9 units.
pub const ELE_LIMIT_NANO: i64 = 1_000_000_000_000_000_000;

pub open spec fn nm_gpx() -> Seq<u8> {
    seq![103u8, 112u8, 120u8]
}

pub open spec fn nm_trk() -> Seq<u8> {
    seq![116u8, 114u8, 107u8]
}

pub open spec fn nm_trkseg() -> Seq<u8> {
    seq![116u8, 114u8, 107u8, 115u8, 101u8, 103u8]
}

pub open spec fn nm_trkpt() -> Seq<u8> {
    seq![116u8, 114u8, 107u8, 112u8, 116u8]
}

pub open spec fn nm_name() -> Seq<u8> {
    seq![110u8, 97u8, 109u8, 101u8]
}

pub open spec fn nm_type() -> Seq<u8> {
    seq![116u8, 121u8, 112u8, 101u8]
}

pub open spec fn nm_ele() -> Seq<u8> {
    seq![101u8, 108u8, 101u8]
}

pub open spec fn nm_lat() -> Seq<u8> {
    seq![108u8, 97u8, 116u8]
}

pub open spec fn nm_lon() -> Seq<u8> {
    seq![108u8, 111u8, 110u8]
}

/// A closing tag `</name>` (whitespace allowed before `>`) expected
/// exactly at `i`; yields the position after it.
pub open spec fn close_tag(s: Seq<u8>, i: int, name: Seq<u8>) -> Option<int> {
    if i + 1 < s.len() && s[i] == 60 && s[i + 1] == 47 {
        let ne = name_end(s, i + 2);
        if s.subrange(i + 2, ne) == name {
            let k = ws_end(s, ne);
            if k < s.len() && s[k] == 62 {
                Some(k + 1)
            } else {
                None
            }
        } else {
            None
        }
    } else {
        None
    }
}

pub proof fn lemma_close_tag(s: Seq<u8>, i: int, name: Seq<u8>)
    requires
        0 <= i <= s.len(),
    ensures
        close_tag(s, i, name) is Some ==> i < (close_tag(s, i, name)->Some_0) <= s.len(),
{
    if i + 1 < s.len() && s[i] == 60 && s[i + 1] == 47 {
        lemma_name_end(s, i + 2);
        lemma_ws_end(s, name_end(s, i + 2));
    }
}

/// Character content running from `i` up to the next `<`, which must open
/// the matching closing tag; yields the text and the position after the
/// closing tag.
pub open spec fn text_elem(s: Seq<u8>, i: int, name: Seq<u8>) -> Option<(Seq<u8>, int)> {
    let j = scan_to(s, i, 60);
    if j >= s.len() {
        None
    } else {
        match close_tag(s, j, name) {
            None => None,
            Some(k) => Some((s.subrange(i, j), k)),
        }
    }
}

pub proof fn lemma_text_elem(s: Seq<u8>, i: int, name: Seq<u8>)
    requires
        0 <= i <= s.len(),
    ensures
        text_elem(s, i, name) is Some ==> i < (text_elem(s, i, name)->Some_0).1 <= s.len(),
{
    lemma_scan_to(s, i, 60);
    let j = scan_to(s, i, 60);
    if j < s.len() {
        lemma_close_tag(s, j, name);
    }
}

/// Content of a `trkpt` element from `i`: an optional `ele` child (the
/// last one counts), unknown children skipped, up to `</trkpt>`. Yields
/// the elevation and the position after the closing tag.
pub open spec fn trkpt_content(s: Seq<u8>, i: int, ele: Option<i64>) -> Result<
    (Option<i64>, int),
    ParseError,
>
    decreases s.len() - i when 0 <= i <= s.len()
    via trkpt_content_dec
{
    let j = ws_end(s, i);
    if j >= s.len() {
        Err(ParseError::Malformed)
    } else if s[j] != 60 {
        Err(ParseError::Malformed)
    } else if j + 1 < s.len() && s[j + 1] == 47 {
        match close_tag(s, j, nm_trkpt()) {
            None => Err(ParseError::Malformed),
            Some(k) => Ok((ele, k)),
        }
    } else {
        let ne = name_end(s, j + 1);
        if ne == j + 1 {
            Err(ParseError::Malformed)
        } else {
            let nm = s.subrange(j + 1, ne);
            match attrs_parse(s, ne, Seq::empty()) {
                None => Err(ParseError::Malformed),
                Some((attrs, k, sc)) => {
                    if nm == nm_ele() {
                        if sc {
                            Err(ParseError::Malformed)
                        } else {
                            match text_elem(s, k, nm_ele()) {
                                None => Err(ParseError::Malformed),
                                Some((txt, k2)) => {
                                    match parse_nano(txt, ELE_LIMIT_NANO as int) {
                                        None => Err(ParseError::Malformed),
                                        Some(v) => trkpt_content(s, k2, Some(v as i64)),
                                    }
                                },
                            }
                        }
                    } else {
                        if sc {
                            trkpt_content(s, k, ele)
                        } else {
                            match skip_node(s, k, 0) {
                                None => Err(ParseError::Malformed),
                                Some(k2) => trkpt_content(s, k2, ele),
                            }
                        }
                    }
                },
            }
        }
    }
}

#[via_fn]
proof fn trkpt_content_dec(s: Seq<u8>, i: int, ele: Option<i64>) {
    if 0 <= i <= s.len() {
        lemma_ws_end(s, i);
        let j = ws_end(s, i);
        if j < s.len() && s[j] == 60 && !(j + 1 < s.len() && s[j + 1] == 47) {
            lemma_name_end(s, j + 1);
            let ne = name_end(s, j + 1);
            if ne != j + 1 {
                lemma_attrs_parse(s, ne, Seq::empty());
                match attrs_parse(s, ne, Seq::empty()) {
                    None => {},
                    Some((attrs, k, sc)) => {
                        lemma_text_elem(s, k, nm_ele());
                        lemma_skip_node(s, k, 0);
                    },
                }
            }
        }
    }
}

pub proof fn lemma_trkpt_content(s: Seq<u8>, i: int, ele: Option<i64>)
    requires
        0 <= i <= s.len(),
    ensures
        trkpt_content(s, i, ele) is Ok ==> i < (trkpt_content(s, i, ele)->Ok_0).1 <= s.len(),
    decreases s.len() - i,
{
    lemma_ws_end(s, i);
    let j = ws_end(s, i);
    if j < s.len() && s[j] == 60 {
        if j + 1 < s.len() && s[j + 1] == 47 {
            lemma_close_tag(s, j, nm_trkpt());
        } else {
            lemma_name_end(s, j + 1);
            let ne = name_end(s, j + 1);
            if ne != j + 1 {
                lemma_attrs_parse(s, ne, Seq::empty());
                match attrs_parse(s, ne, Seq::empty()) {
                    None => {},
                    Some((attrs, k, sc)) => {
                        let nm = s.subrange(j + 1, ne);
                        if nm == nm_ele() && !sc {
                            lemma_text_elem(s, k, nm_ele());
                            match text_elem(s, k, nm_ele()) {
                                None => {},
                                Some((txt, k2)) => {
                                    match parse_nano(txt, ELE_LIMIT_NANO as int) {
                                        None => {},
                                        Some(v) => {
                                            lemma_trkpt_content(s, k2, Some(v as i64));
                                        },
                                    }
                                },
                            }
                        } else if nm != nm_ele() {
                            if sc {
                                lemma_trkpt_content(s, k, ele);
                            } else {
                                lemma_skip_node(s, k, 0);
                                match skip_node(s, k, 0) {
                                    None => {},
                                    Some(k2) => {
                                        lemma_trkpt_content(s, k2, ele);
                                    },
                                }
                            }
                        }
                    },
                }
            }
        }
    }
}

/// Content of a `trkseg` element from `i`: `trkpt` children become points
/// in order, unknown children are skipped, up to `</trkseg>`. `count` is
/// the document-order index of the next point, used to name the offender
/// in [`ParseError::InvalidCoordinate`].
pub open spec fn seg_content(s: Seq<u8>, i: int, pts: Seq<PointM>, count: int) -> Result<
    (Seq<PointM>, int, int),
    ParseError,
>
    decreases s.len() - i when 0 <= i <= s.len()
    via seg_content_dec
{
    let j = ws_end(s, i);
    if j >= s.len() {
        Err(ParseError::Malformed)
    } else if s[j] != 60 {
        Err(ParseError::Malformed)
    } else if j + 1 < s.len() && s[j + 1] == 47 {
        match close_tag(s, j, nm_trkseg()) {
            None => Err(ParseError::Malformed),
            Some(k) => Ok((pts, k, count)),
        }
    } else {
        let ne = name_end(s, j + 1);
        if ne == j + 1 {
            Err(ParseError::Malformed)
        } else {
            let nm = s.subrange(j + 1, ne);
            match attrs_parse(s, ne, Seq::empty()) {
                None => Err(ParseError::Malformed),
                Some((attrs, k, sc)) => {
                    if nm == nm_trkpt() {
                        match attr_lookup(attrs, nm_lat()) {
                            None => Err(ParseError::Malformed),
                            Some(latv) => {
                                match parse_nano(latv, LAT_LIMIT_NANO as int) {
                                    None => Err(ParseError::InvalidCoordinate(count as usize)),
                                    Some(la) => {
                                        match attr_lookup(attrs, nm_lon()) {
                                            None => Err(ParseError::Malformed),
                                            Some(lonv) => {
                                                match parse_nano(lonv, LON_LIMIT_NANO as int) {
                                                    None => Err(
                                                        ParseError::InvalidCoordinate(
                                                            count as usize,
                                                        ),
                                                    ),
                                                    Some(lo) => {
                                                        if sc {
                                                            seg_content(
                                                                s,
                                                                k,
                                                                pts.push(
                                                                    PointM {
                                                                        lat_nano: la as i64,
                                                                        lon_nano: lo as i64,
                                                                        elevation: None,
                                                                    },
                                                                ),
                                                                count + 1,
                                                            )
                                                        } else {
                                                            match trkpt_content(s, k, None) {
                                                                Err(e) => Err(e),
                                                                Ok((ele, k2)) => seg_content(
                                                                    s,
                                                                    k2,
                                                                    pts.push(
                                                                        PointM {
                                                                            lat_nano: la as i64,
                                                                            lon_nano: lo as i64,
                                                                            elevation: ele,
                                                                        },
                                                                    ),
                                                                    count + 1,
                                                                ),
                                                            }
                                                        }
                                                    },
                                                }
                                            },
                                        }
                                    },
                                }
                            },
                        }
                    } else {
                        if sc {
                            seg_content(s, k, pts, count)
                        } else {
                            match skip_node(s, k, 0) {
                                None => Err(ParseError::Malformed),
                                Some(k2) => seg_content(s, k2, pts, count),
                            }
                        }
                    }
                },
            }
        }
    }
}

#[via_fn]
proof fn seg_content_dec(s: Seq<u8>, i: int, pts: Seq<PointM>, count: int) {
    if 0 <= i <= s.len() {
        lemma_ws_end(s, i);
        let j = ws_end(s, i);
        if j < s.len() && s[j] == 60 && !(j + 1 < s.len() && s[j + 1] == 47) {
            lemma_name_end(s, j + 1);
            let ne = name_end(s, j + 1);
            if ne != j + 1 {
                lemma_attrs_parse(s, ne, Seq::empty());
                match attrs_parse(s, ne, Seq::empty()) {
                    None => {},
                    Some((attrs, k, sc)) => {
                        lemma_trkpt_content(s, k, None);
                        lemma_skip_node(s, k, 0);
                    },
                }
            }
        }
    }
}

pub proof fn lemma_seg_content(s: Seq<u8>, i: int, pts: Seq<PointM>, count: int)
    requires
        0 <= i <= s.len(),
    ensures
        seg_content(s, i, pts, count) is Ok ==> i < (seg_content(s, i, pts, count)->Ok_0).1
            <= s.len(),
    decreases s.len() - i,
{
    lemma_ws_end(s, i);
    let j = ws_end(s, i);
    if j < s.len() && s[j] == 60 {
        if j + 1 < s.len() && s[j + 1] == 47 {
            lemma_close_tag(s, j, nm_trkseg());
        } else {
            lemma_name_end(s, j + 1);
            let ne = name_end(s, j + 1);
            if ne != j + 1 {
                lemma_attrs_parse(s, ne, Seq::empty());
                let nm = s.subrange(j + 1, ne);
                match attrs_parse(s, ne, Seq::empty()) {
                    None => {},
                    Some((attrs, k, sc)) => {
                        if nm == nm_trkpt() {
                            match attr_lookup(attrs, nm_lat()) {
                                None => {},
                                Some(latv) => {
                                    match parse_nano(latv, LAT_LIMIT_NANO as int) {
                                        None => {},
                                        Some(la) => {
                                            match attr_lookup(attrs, nm_lon()) {
                                                None => {},
                                                Some(lonv) => {
                                                    match parse_nano(lonv, LON_LIMIT_NANO as int) {
                                                        None => {},
                                                        Some(lo) => {
                                                            if sc {
                                                                lemma_seg_content(
                                                                    s,
                                                                    k,
                                                                    pts.push(
                                                                        PointM {
                                                                            lat_nano: la as i64,
                                                                            lon_nano: lo as i64,
                                                                            elevation: None,
                                                                        },
                                                                    ),
                                                                    count + 1,
                                                                );
                                                            } else {
                                                                lemma_trkpt_content(s, k, None);
                                                                match trkpt_content(s, k, None) {
                                                                    Err(e) => {},
                                                                    Ok((ele, k2)) => {
                                                                        lemma_seg_content(
                                                                            s,
                                                                            k2,
                                                                            pts.push(
                                                                                PointM {
                                                                                    lat_nano: (la
                                                                                        as i64),
                                                                                    lon_nano: (lo
                                                                                        as i64),
                                                                                    elevation: ele,
                                                                                },
                                                                            ),
                                                                            count + 1,
                                                                        );
                                                                    },
                                                                }
                                                            }
                                                        },
                                                    }
                                                },
                                            }
                                        },
                                    }
                                },
                            }
                        } else {
                            if sc {
                                lemma_seg_content(s, k, pts, count);
                            } else {
                                lemma_skip_node(s, k, 0);
                                match skip_node(s, k, 0) {
                                    None => {},
                                    Some(k2) => {
                                        lemma_seg_content(s, k2, pts, count);
                                    },
                                }
                            }
                        }
                    },
                }
            }
        }
    }
}

/// Content of a `trk` element from `i`: optional `name` and `type` text
/// (the last of each counts), `trkseg` children in order, unknown
/// children skipped, up to `</trk>`.
pub open spec fn trk_content(
    s: Seq<u8>,
    i: int,
    name: Option<Seq<u8>>,
    kind: Option<Seq<u8>>,
    segs: Seq<Seq<PointM>>,
    count: int,
) -> Result<(TrackM, int, int), ParseError>
    decreases s.len() - i when 0 <= i <= s.len()
    via trk_content_dec
{
    let j = ws_end(s, i);
    if j >= s.len() {
        Err(ParseError::Malformed)
    } else if s[j] != 60 {
        Err(ParseError::Malformed)
    } else if j + 1 < s.len() && s[j + 1] == 47 {
        match close_tag(s, j, nm_trk()) {
            None => Err(ParseError::Malformed),
            Some(k) => Ok((TrackM { name, kind, segments: segs }, k, count)),
        }
    } else {
        let ne = name_end(s, j + 1);
        if ne == j + 1 {
            Err(ParseError::Malformed)
        } else {
            let nm = s.subrange(j + 1, ne);
            match attrs_parse(s, ne, Seq::empty()) {
                None => Err(ParseError::Malformed),
                Some((attrs, k, sc)) => {
                    if nm == nm_name() {
                        if sc {
                            trk_content(s, k, Some(Seq::empty()), kind, segs, count)
                        } else {
                            match text_elem(s, k, nm_name()) {
                                None => Err(ParseError::Malformed),
                                Some((txt, k2)) => trk_content(s, k2, Some(txt), kind, segs, count),
                            }
                        }
                    } else if nm == nm_type() {
                        if sc {
                            trk_content(s, k, name, Some(Seq::empty()), segs, count)
                        } else {
                            match text_elem(s, k, nm_type()) {
                                None => Err(ParseError::Malformed),
                                Some((txt, k2)) => trk_content(s, k2, name, Some(txt), segs, count),
                            }
                        }
                    } else if nm == nm_trkseg() {
                        if sc {
                            trk_content(s, k, name, kind, segs.push(Seq::empty()), count)
                        } else {
                            match seg_content(s, k, Seq::empty(), count) {
                                Err(e) => Err(e),
                                Ok((pts, k2, c2)) => trk_content(
                                    s,
                                    k2,
                                    name,
                                    kind,
                                    segs.push(pts),
                                    c2,
                                ),
                            }
                        }
                    } else {
                        if sc {
                            trk_content(s, k, name, kind, segs, count)
                        } else {
                            match skip_node(s, k, 0) {
                                None => Err(ParseError::Malformed),
                                Some(k2) => trk_content(s, k2, name, kind, segs, count),
                            }
                        }
                    }
                },
            }
        }
    }
}

#[via_fn]
proof fn trk_content_dec(
    s: Seq<u8>,
    i: int,
    name: Option<Seq<u8>>,
    kind: Option<Seq<u8>>,
    segs: Seq<Seq<PointM>>,
    count: int,
) {
    if 0 <= i <= s.len() {
        lemma_ws_end(s, i);
        let j = ws_end(s, i);
        if j < s.len() && s[j] == 60 && !(j + 1 < s.len() && s[j + 1] == 47) {
            lemma_name_end(s, j + 1);
            let ne = name_end(s, j + 1);
            if ne != j + 1 {
                lemma_attrs_parse(s, ne, Seq::empty());
                match attrs_parse(s, ne, Seq::empty()) {
                    None => {},
                    Some((attrs, k, sc)) => {
                        lemma_text_elem(s, k, nm_name());
                        lemma_text_elem(s, k, nm_type());
                        lemma_seg_content(s, k, Seq::empty(), count);
                        lemma_skip_node(s, k, 0);
                    },
                }
            }
        }
    }
}

pub proof fn lemma_trk_content(
    s: Seq<u8>,
    i: int,
    name: Option<Seq<u8>>,
    kind: Option<Seq<u8>>,
    segs: Seq<Seq<PointM>>,
    count: int,
)
    requires
        0 <= i <= s.len(),
    ensures
        trk_content(s, i, name, kind, segs, count) is Ok ==> i < (trk_content(
            s,
            i,
            name,
            kind,
            segs,
            count,
        )->Ok_0).1 <= s.len(),
    decreases s.len() - i,
{
    lemma_ws_end(s, i);
    let j = ws_end(s, i);
    if j < s.len() && s[j] == 60 {
        if j + 1 < s.len() && s[j + 1] == 47 {
            lemma_close_tag(s, j, nm_trk());
        } else {
            lemma_name_end(s, j + 1);
            let ne = name_end(s, j + 1);
            if ne != j + 1 {
                lemma_attrs_parse(s, ne, Seq::empty());
                let nm = s.subrange(j + 1, ne);
                match attrs_parse(s, ne, Seq::empty()) {
                    None => {},
                    Some((attrs, k, sc)) => {
                        if nm == nm_name() {
                            if sc {
                                lemma_trk_content(s, k, Some(Seq::empty()), kind, segs, count);
                            } else {
                                lemma_text_elem(s, k, nm_name());
                                match text_elem(s, k, nm_name()) {
                                    None => {},
                                    Some((txt, k2)) => {
                                        lemma_trk_content(s, k2, Some(txt), kind, segs, count);
                                    },
                                }
                            }
                        } else if nm == nm_type() {
                            if sc {
                                lemma_trk_content(s, k, name, Some(Seq::empty()), segs, count);
                            } else {
                                lemma_text_elem(s, k, nm_type());
                                match text_elem(s, k, nm_type()) {
                                    None => {},
                                    Some((txt, k2)) => {
                                        lemma_trk_content(s, k2, name, Some(txt), segs, count);
                                    },
                                }
                            }
                        } else if nm == nm_trkseg() {
                            if sc {
                                lemma_trk_content(s, k, name, kind, segs.push(Seq::empty()), count);
                            } else {
                                lemma_seg_content(s, k, Seq::empty(), count);
                                match seg_content(s, k, Seq::empty(), count) {
                                    Err(e) => {},
                                    Ok((pts, k2, c2)) => {
                                        lemma_trk_content(s, k2, name, kind, segs.push(pts), c2);
                                    },
                                }
                            }
                        } else {
                            if sc {
                                lemma_trk_content(s, k, name, kind, segs, count);
                            } else {
                                lemma_skip_node(s, k, 0);
                                match skip_node(s, k, 0) {
                                    None => {},
                                    Some(k2) => {
                                        lemma_trk_content(s, k2, name, kind, segs, count);
                                    },
                                }
                            }
                        }
                    },
                }
            }
        }
    }
}

/// Content of the `gpx` root from `i`: `trk` children in order, unknown
/// children skipped, up to `</gpx>`.
pub open spec fn gpx_content(s: Seq<u8>, i: int, tracks: Seq<TrackM>, count: int) -> Result<
    (Seq<TrackM>, int, int),
    ParseError,
>
    decreases s.len() - i when 0 <= i <= s.len()
    via gpx_content_dec
{
    let j = ws_end(s, i);
    if j >= s.len() {
        Err(ParseError::Malformed)
    } else if s[j] != 60 {
        Err(ParseError::Malformed)
    } else if j + 1 < s.len() && s[j + 1] == 47 {
        match close_tag(s, j, nm_gpx()) {
            None => Err(ParseError::Malformed),
            Some(k) => Ok((tracks, k, count)),
        }
    } else {
        let ne = name_end(s, j + 1);
        if ne == j + 1 {
            Err(ParseError::Malformed)
        } else {
            let nm = s.subrange(j + 1, ne);
            match attrs_parse(s, ne, Seq::empty()) {
                None => Err(ParseError::Malformed),
                Some((attrs, k, sc)) => {
                    if nm == nm_trk() {
                        if sc {
                            gpx_content(
                                s,
                                k,
                                tracks.push(
                                    TrackM { name: None, kind: None, segments: Seq::empty() },
                                ),
                                count,
                            )
                        } else {
                            match trk_content(s, k, None, None, Seq::empty(), count) {
                                Err(e) => Err(e),
                                Ok((t, k2, c2)) => gpx_content(s, k2, tracks.push(t), c2),
                            }
                        }
                    } else {
                        if sc {
                            gpx_content(s, k, tracks, count)
                        } else {
                            match skip_node(s, k, 0) {
                                None => Err(ParseError::Malformed),
                                Some(k2) => gpx_content(s, k2, tracks, count),
                            }
                        }
                    }
                },
            }
        }
    }
}

#[via_fn]
proof fn gpx_content_dec(s: Seq<u8>, i: int, tracks: Seq<TrackM>, count: int) {
    if 0 <= i <= s.len() {
        lemma_ws_end(s, i);
        let j = ws_end(s, i);
        if j < s.len() && s[j] == 60 && !(j + 1 < s.len() && s[j + 1] == 47) {
            lemma_name_end(s, j + 1);
            let ne = name_end(s, j + 1);
            if ne != j + 1 {
                lemma_attrs_parse(s, ne, Seq::empty());
                match attrs_parse(s, ne, Seq::empty()) {
                    None => {},
                    Some((attrs, k, sc)) => {
                        lemma_trk_content(s, k, None, None, Seq::empty(), count);
                        lemma_skip_node(s, k, 0);
                    },
                }
            }
        }
    }
}

pub proof fn lemma_gpx_content(s: Seq<u8>, i: int, tracks: Seq<TrackM>, count: int)
    requires
        0 <= i <= s.len(),
    ensures
        gpx_content(s, i, tracks, count) is Ok ==> i < (gpx_content(s, i, tracks, count)->Ok_0).1
            <= s.len(),
    decreases s.len() - i,
{
    lemma_ws_end(s, i);
    let j = ws_end(s, i);
    if j < s.len() && s[j] == 60 {
        if j + 1 < s.len() && s[j + 1] == 47 {
            lemma_close_tag(s, j, nm_gpx());
        } else {
            lemma_name_end(s, j + 1);
            let ne = name_end(s, j + 1);
            if ne != j + 1 {
                lemma_attrs_parse(s, ne, Seq::empty());
                let nm = s.subrange(j + 1, ne);
                match attrs_parse(s, ne, Seq::empty()) {
                    None => {},
                    Some((attrs, k, sc)) => {
                        if nm == nm_trk() {
                            if sc {
                                lemma_gpx_content(
                                    s,
                                    k,
                                    tracks.push(
                                        TrackM { name: None, kind: None, segments: Seq::empty() },
                                    ),
                                    count,
                                );
                            } else {
                                lemma_trk_content(s, k, None, None, Seq::empty(), count);
                                match trk_content(s, k, None, None, Seq::empty(), count) {
                                    Err(e) => {},
                                    Ok((t, k2, c2)) => {
                                        lemma_gpx_content(s, k2, tracks.push(t), c2);
                                    },
                                }
                            }
                        } else {
                            if sc {
                                lemma_gpx_content(s, k, tracks, count);
                            } else {
                                lemma_skip_node(s, k, 0);
                                match skip_node(s, k, 0) {
                                    None => {},
                                    Some(k2) => {
                                        lemma_gpx_content(s, k2, tracks, count);
                                    },
                                }
                            }
                        }
                    },
                }
            }
        }
    }
}

/// Only whitespace may follow the document element.
pub open spec fn tail_check(s: Seq<u8>, i: int, d: DocM) -> Result<DocM, ParseError> {
    if ws_end(s, i) == s.len() {
        Ok(d)
    } else {
        Err(ParseError::Malformed)
    }
}

/// The document element: a `gpx` root, else the text is rejected.
pub open spec fn parse_root(s: Seq<u8>, i: int) -> Result<DocM, ParseError> {
    if i < s.len() && s[i] == 60 && !(i + 1 < s.len() && s[i + 1] == 47) {
        let ne = name_end(s, i + 1);
        if ne == i + 1 {
            Err(ParseError::Malformed)
        } else if s.subrange(i + 1, ne) != nm_gpx() {
            Err(ParseError::Malformed)
        } else {
            match attrs_parse(s, ne, Seq::empty()) {
                None => Err(ParseError::Malformed),
                Some((attrs, k, sc)) => {
                    if sc {
                        tail_check(s, k, DocM { tracks: Seq::empty() })
                    } else {
                        match gpx_content(s, k, Seq::empty(), 0) {
                            Err(e) => Err(e),
                            Ok((tracks, k2, c2)) => tail_check(s, k2, DocM { tracks }),
                        }
                    }
                },
            }
        }
    } else {
        Err(ParseError::Malformed)
    }
}

/// What [`parse`] returns on any byte sequence: optional whitespace, an
/// optional XML declaration, then a `gpx` document element, then only
/// whitespace to the end.
pub open spec fn parse_spec(s: Seq<u8>) -> Result<DocM, ParseError> {
    let i = ws_end(s, 0);
    if i + 1 < s.len() && s[i] == 60 && s[i + 1] == 63 {
        match pi_end(s, i + 2) {
            None => Err(ParseError::Malformed),
            Some(p) => parse_root(s, ws_end(s, p)),
        }
    } else {
        parse_root(s, i)
    }
}

pub proof fn lemma_seg_content_valid(s: Seq<u8>, i: int, pts: Seq<PointM>, count: int)
    requires
        0 <= i <= s.len(),
        seg_content(s, i, pts, count) is Ok,
        points_valid(pts),
    ensures
        points_valid((seg_content(s, i, pts, count)->Ok_0).0),
    decreases s.len() - i, 0int,
{
    lemma_ws_end(s, i);
    let j = ws_end(s, i);
    if j < s.len() && s[j] == 60 && !(j + 1 < s.len() && s[j + 1] == 47) {
        lemma_name_end(s, j + 1);
        let ne = name_end(s, j + 1);
        if ne != j + 1 {
            lemma_attrs_parse(s, ne, Seq::empty());
            let nm = s.subrange(j + 1, ne);
            match attrs_parse(s, ne, Seq::empty()) {
                None => {},
                Some((attrs, k, sc)) => {
                    if nm == nm_trkpt() {
                        match attr_lookup(attrs, nm_lat()) {
                            None => {},
                            Some(latv) => {
                                match parse_nano(latv, LAT_LIMIT_NANO as int) {
                                    None => {},
                                    Some(la) => {
                                        match attr_lookup(attrs, nm_lon()) {
                                            None => {},
                                            Some(lonv) => {
                                                match parse_nano(lonv, LON_LIMIT_NANO as int) {
                                                    None => {},
                                                    Some(lo) => {
                                                        lemma_parse_nano_range(
                                                            latv,
                                                            LAT_LIMIT_NANO as int,
                                                        );
                                                        lemma_parse_nano_range(
                                                            lonv,
                                                            LON_LIMIT_NANO as int,
                                                        );
                                                        if sc {
                                                            let pm = PointM {
                                                                lat_nano: la as i64,
                                                                lon_nano: lo as i64,
                                                                elevation: None,
                                                            };
                                                            assert(pm.valid());
                                                            seg_valid_step(s, k, pts, count, pm);
                                                        } else {
                                                            lemma_trkpt_content(s, k, None);
                                                            match trkpt_content(s, k, None) {
                                                                Err(e) => {},
                                                                Ok((ele, k2)) => {
                                                                    let pm = PointM {
                                                                        lat_nano: la as i64,
                                                                        lon_nano: lo as i64,
                                                                        elevation: ele,
                                                                    };
                                                                    assert(pm.valid());
                                                                    seg_valid_step(
                                                                        s,
                                                                        k2,
                                                                        pts,
                                                                        count,
                                                                        pm,
                                                                    );
                                                                },
                                                            }
                                                        }
                                                    },
                                                }
                                            },
                                        }
                                    },
                                }
                            },
                        }
                    } else {
                        if sc {
                            lemma_seg_content_valid(s, k, pts, count);
                        } else {
                            lemma_skip_node(s, k, 0);
                            match skip_node(s, k, 0) {
                                None => {},
                                Some(k2) => {
                                    lemma_seg_content_valid(s, k2, pts, count);
                                },
                            }
                        }
                    }
                },
            }
        }
    }
}

/// One point step of [`lemma_seg_content_valid`]: the accumulator grows
/// by one valid point.
proof fn seg_valid_step(s: Seq<u8>, k: int, pts: Seq<PointM>, count: int, pm: PointM)
    requires
        0 <= k <= s.len(),
        seg_content(s, k, pts.push(pm), count + 1) is Ok,
        points_valid(pts),
        pm.valid(),
    ensures
        points_valid((seg_content(s, k, pts.push(pm), count + 1)->Ok_0).0),
    decreases s.len() - k, 1int,
{
    assert(points_valid(pts.push(pm))) by {
        assert forall|x: int| 0 <= x < pts.push(pm).len() implies (#[trigger] pts.push(pm)[x])
            .valid() by {
            if x < pts.len() {
                assert(pts.push(pm)[x] == pts[x]);
            } else {
                assert(pts.push(pm)[x] == pm);
            }
        }
    }
    lemma_seg_content_valid(s, k, pts.push(pm), count + 1);
}

pub proof fn lemma_trk_content_valid(
    s: Seq<u8>,
    i: int,
    name: Option<Seq<u8>>,
    kind: Option<Seq<u8>>,
    segs: Seq<Seq<PointM>>,
    count: int,
)
    requires
        0 <= i <= s.len(),
        trk_content(s, i, name, kind, segs, count) is Ok,
        ({
            let t0 = TrackM { name, kind, segments: segs };
            t0.valid()
        }),
    ensures
        (trk_content(s, i, name, kind, segs, count)->Ok_0).0.valid(),
    decreases s.len() - i,
{
    lemma_ws_end(s, i);
    let j = ws_end(s, i);
    if j < s.len() && s[j] == 60 && !(j + 1 < s.len() && s[j + 1] == 47) {
        lemma_name_end(s, j + 1);
        let ne = name_end(s, j + 1);
        if ne != j + 1 {
            lemma_attrs_parse(s, ne, Seq::empty());
            let nm = s.subrange(j + 1, ne);
            match attrs_parse(s, ne, Seq::empty()) {
                None => {},
                Some((attrs, k, sc)) => {
                    if nm == nm_name() {
                        if sc {
                            lemma_trk_content_valid(s, k, Some(Seq::empty()), kind, segs, count);
                        } else {
                            lemma_text_elem(s, k, nm_name());
                            match text_elem(s, k, nm_name()) {
                                None => {},
                                Some((txt, k2)) => {
                                    lemma_trk_content_valid(s, k2, Some(txt), kind, segs, count);
                                },
                            }
                        }
                    } else if nm == nm_type() {
                        if sc {
                            lemma_trk_content_valid(s, k, name, Some(Seq::empty()), segs, count);
                        } else {
                            lemma_text_elem(s, k, nm_type());
                            match text_elem(s, k, nm_type()) {
                                None => {},
                                Some((txt, k2)) => {
                                    lemma_trk_content_valid(s, k2, name, Some(txt), segs, count);
                                },
                            }
                        }
                    } else if nm == nm_trkseg() {
                        if sc {
                            assert(segs_valid(segs.push(Seq::empty()))) by {
                                assert forall|a: int, b: int|
                                    0 <= a < segs.push(Seq::<PointM>::empty()).len() && 0 <= b
                                        < segs.push(Seq::<PointM>::empty())[a].len() implies (
                                #[trigger] segs.push(Seq::<PointM>::empty())[a][b]).valid() by {
                                    if a < segs.len() {
                                        assert(segs.push(Seq::<PointM>::empty())[a] == segs[a]);
                                        assert(segs[a][b].valid());
                                    } else {
                                        assert(segs.push(Seq::<PointM>::empty())[a]
                                            == Seq::<PointM>::empty());
                                    }
                                }
                            }
                            lemma_trk_content_valid(
                                s,
                                k,
                                name,
                                kind,
                                segs.push(Seq::empty()),
                                count,
                            );
                        } else {
                            lemma_seg_content(s, k, Seq::empty(), count);
                            match seg_content(s, k, Seq::empty(), count) {
                                Err(e) => {},
                                Ok((pts2, k2, c2)) => {
                                    assert(points_valid(Seq::<PointM>::empty()));
                                    lemma_seg_content_valid(s, k, Seq::empty(), count);
                                    assert(segs_valid(segs.push(pts2))) by {
                                        assert forall|a: int, b: int|
                                            0 <= a < segs.push(pts2).len() && 0 <= b < segs.push(
                                                pts2,
                                            )[a].len() implies (#[trigger] segs.push(
                                            pts2,
                                        )[a][b]).valid() by {
                                            if a < segs.len() {
                                                assert(segs.push(pts2)[a] == segs[a]);
                                                assert(segs[a][b].valid());
                                            } else {
                                                assert(segs.push(pts2)[a] == pts2);
                                                assert(pts2[b].valid());
                                            }
                                        }
                                    }
                                    lemma_trk_content_valid(
                                        s,
                                        k2,
                                        name,
                                        kind,
                                        segs.push(pts2),
                                        c2,
                                    );
                                },
                            }
                        }
                    } else {
                        if sc {
                            lemma_trk_content_valid(s, k, name, kind, segs, count);
                        } else {
                            lemma_skip_node(s, k, 0);
                            match skip_node(s, k, 0) {
                                None => {},
                                Some(k2) => {
                                    lemma_trk_content_valid(s, k2, name, kind, segs, count);
                                },
                            }
                        }
                    }
                },
            }
        }
    }
}

pub proof fn lemma_gpx_content_valid(s: Seq<u8>, i: int, tracks: Seq<TrackM>, count: int)
    requires
        0 <= i <= s.len(),
        gpx_content(s, i, tracks, count) is Ok,
        tracks_valid(tracks),
    ensures
        tracks_valid((gpx_content(s, i, tracks, count)->Ok_0).0),
    decreases s.len() - i,
{
    lemma_ws_end(s, i);
    let j = ws_end(s, i);
    if j < s.len() && s[j] == 60 && !(j + 1 < s.len() && s[j + 1] == 47) {
        lemma_name_end(s, j + 1);
        let ne = name_end(s, j + 1);
        if ne != j + 1 {
            lemma_attrs_parse(s, ne, Seq::empty());
            let nm = s.subrange(j + 1, ne);
            match attrs_parse(s, ne, Seq::empty()) {
                None => {},
                Some((attrs, k, sc)) => {
                    if nm == nm_trk() {
                        if sc {
                            let t0 = TrackM { name: None, kind: None, segments: Seq::empty() };
                            assert(t0.valid());
                            assert(tracks_valid(tracks.push(t0))) by {
                                assert forall|x: int|
                                    0 <= x < tracks.push(t0).len() implies (
                                #[trigger] tracks.push(t0)[x]).valid() by {
                                    if x < tracks.len() {
                                        assert(tracks.push(t0)[x] == tracks[x]);
                                        assert(tracks[x].valid());
                                    } else {
                                        assert(tracks.push(t0)[x] == t0);
                                    }
                                }
                            }
                            lemma_gpx_content_valid(s, k, tracks.push(t0), count);
                        } else {
                            lemma_trk_content(s, k, None, None, Seq::empty(), count);
                            match trk_content(s, k, None, None, Seq::empty(), count) {
                                Err(e) => {},
                                Ok((t, k2, c2)) => {
                                    assert((TrackM {
                                        name: None,
                                        kind: None,
                                        segments: Seq::empty(),
                                    }).valid());
                                    lemma_trk_content_valid(s, k, None, None, Seq::empty(), count);
                                    assert(tracks_valid(tracks.push(t))) by {
                                        assert forall|x: int|
                                            0 <= x < tracks.push(t).len() implies (
                                        #[trigger] tracks.push(t)[x]).valid() by {
                                            if x < tracks.len() {
                                                assert(tracks.push(t)[x] == tracks[x]);
                                                assert(tracks[x].valid());
                                            } else {
                                                assert(tracks.push(t)[x] == t);
                                            }
                                        }
                                    }
                                    lemma_gpx_content_valid(s, k2, tracks.push(t), c2);
                                },
                            }
                        }
                    } else {
                        if sc {
                            lemma_gpx_content_valid(s, k, tracks, count);
                        } else {
                            lemma_skip_node(s, k, 0);
                            match skip_node(s, k, 0) {
                                None => {},
                                Some(k2) => {
                                    lemma_gpx_content_valid(s, k2, tracks, count);
                                },
                            }
                        }
                    }
                },
            }
        }
    }
}

/// Validity of every parse: a document the parser accepts holds only
/// coordinates within 90 degrees of latitude and 180 of longitude —
/// anything outside was rejected as [`ParseError::InvalidCoordinate`].
pub proof fn lemma_parse_valid(s: Seq<u8>)
    requires
        parse_spec(s) is Ok,
    ensures
        (parse_spec(s)->Ok_0).valid(),
{
    lemma_ws_end(s, 0);
    let i0 = ws_end(s, 0);
    let i: int = if i0 + 1 < s.len() && s[i0] == 60 && s[i0 + 1] == 63 {
        match pi_end(s, i0 + 2) {
            None => s.len() as int + 1,
            Some(p) => {
                lemma_pi_end(s, i0 + 2);
                lemma_ws_end(s, p);
                ws_end(s, p)
            },
        }
    } else {
        i0
    };
    assert(0 <= i <= s.len());
    assert(parse_spec(s) == parse_root(s, i));
    if i < s.len() && s[i] == 60 && !(i + 1 < s.len() && s[i + 1] == 47) {
        lemma_name_end(s, i + 1);
        let ne = name_end(s, i + 1);
        if ne != i + 1 && s.subrange(i + 1, ne) == nm_gpx() {
            lemma_attrs_parse(s, ne, Seq::empty());
            match attrs_parse(s, ne, Seq::empty()) {
                None => {},
                Some((attrs, k, sc)) => {
                    if !sc {
                        match gpx_content(s, k, Seq::empty(), 0) {
                            Err(e) => {},
                            Ok((tracks, k2, c2)) => {
                                assert(tracks_valid(Seq::<TrackM>::empty()));
                                lemma_gpx_content_valid(s, k, Seq::empty(), 0);
                            },
                        }
                    }
                },
            }
        }
    }
}

fn close_tag_exec(s: &[u8], at: usize, name: &[u8]) -> (r: Option<usize>)
    requires
        at <= s.len(),
    ensures
        match r {
            Some(k) => close_tag(s@, at as int, name@) == Some(k as int) && at < k <= s.len(),
            None => close_tag(s@, at as int, name@) is None,
        },
{
    if s.len() - at < 2 {
        return None;
    }
    if s[at] != 60 || s[at + 1] != 47 {
        return None;
    }
    let ne = name_end_exec(s, at + 2);
    if !bytes_eq(slice_subrange(s, at + 2, ne), name) {
        return None;
    }
    let k = ws_end_exec(s, ne);
    if k >= s.len() {
        return None;
    }
    if s[k] != 62 {
        return None;
    }
    Some(k + 1)
}

fn text_elem_exec(s: &[u8], from: usize, name: &[u8]) -> (r: Option<(Vec<u8>, usize)>)
    requires
        from <= s.len(),
    ensures
        match r {
            Some(t) => text_elem(s@, from as int, name@) == Some((t.0@, t.1 as int)) && from < t.1
                <= s.len(),
            None => text_elem(s@, from as int, name@) is None,
        },
{
    let j = scan_to_exec(s, from, 60);
    if j >= s.len() {
        return None;
    }
    match close_tag_exec(s, j, name) {
        None => None,
        Some(k) => Some((slice_to_vec(slice_subrange(s, from, j)), k)),
    }
}

#[verifier::loop_isolation(false)]
fn trkpt_content_exec(s: &[u8], from: usize) -> (r: Result<(Option<i64>, usize), ParseError>)
    requires
        from <= s.len(),
    ensures
        match r {
            Ok(t) => trkpt_content(s@, from as int, None) == Ok::<(Option<i64>, int), ParseError>((t.0, t.1 as int)) && from < t.1
                <= s.len(),
            Err(e) => trkpt_content(s@, from as int, None) == Err::<(Option<i64>, int), ParseError>(e),
        },
{
    let pt_name = [116u8, 114u8, 107u8, 112u8, 116u8];
    let ele_name = [101u8, 108u8, 101u8];
    proof {
        assert(pt_name@ =~= nm_trkpt());
        assert(ele_name@ =~= nm_ele());
    }
    let mut ele: Option<i64> = None;
    let mut i: usize = from;
    loop
        invariant
            from <= i <= s.len(),
            trkpt_content(s@, from as int, None) == trkpt_content(s@, i as int, ele),
        decreases s.len() - i,
    {
        let ghost i0 = i as int;
        let ghost ele0 = ele;
        let j = ws_end_exec(s, i);
        if j >= s.len() {
            return Err(ParseError::Malformed);
        }
        if s[j] != 60 {
            return Err(ParseError::Malformed);
        }
        if j + 1 < s.len() && s[j + 1] == 47 {
            match close_tag_exec(s, j, pt_name.as_slice()) {
                None => {
                    return Err(ParseError::Malformed);
                },
                Some(k) => {
                    return Ok((ele, k));
                },
            }
        }
        let ne = name_end_exec(s, j + 1);
        if ne == j + 1 {
            return Err(ParseError::Malformed);
        }
        let nm = slice_subrange(s, j + 1, ne);
        match attrs_parse_exec(s, ne) {
            None => {
                return Err(ParseError::Malformed);
            },
            Some((_attrs, k, sc)) => {
                if bytes_eq(nm, ele_name.as_slice()) {
                    if sc {
                        return Err(ParseError::Malformed);
                    }
                    match text_elem_exec(s, k, ele_name.as_slice()) {
                        None => {
                            return Err(ParseError::Malformed);
                        },
                        Some((txt, k2)) => {
                            match parse_nano_exec(txt.as_slice(), ELE_LIMIT_NANO) {
                                None => {
                                    return Err(ParseError::Malformed);
                                },
                                Some(v) => {
                                    ele = Some(v);
                                    i = k2;
                                },
                            }
                        },
                    }
                } else {
                    if sc {
                        i = k;
                    } else {
                        match skip_node_exec(s, k) {
                            None => {
                                return Err(ParseError::Malformed);
                            },
                            Some(k2) => {
                                i = k2;
                            },
                        }
                    }
                }
            },
        }
        proof {
            assert(trkpt_content(s@, i0, ele0) == trkpt_content(s@, i as int, ele));
        }
    }
}

#[verifier::loop_isolation(false)]
fn seg_content_exec(s: &[u8], from: usize, count0: usize) -> (r: Result<
    (Vec<TrackPoint>, usize, usize),
    ParseError,
>)
    requires
        from <= s.len(),
        count0 as int + (s.len() - from) <= usize::MAX as int,
    ensures
        match r {
            Ok(t) => {
                &&& seg_content(s@, from as int, Seq::empty(), count0 as int) == Ok::<(Seq<PointM>, int, int), ParseError>(
                    (t.0.deep_view(), t.1 as int, t.2 as int),
                )
                &&& from < t.1 <= s.len()
                &&& count0 <= t.2
                &&& t.2 as int - count0 as int <= t.1 as int - from as int
            },
            Err(e) => seg_content(s@, from as int, Seq::empty(), count0 as int) == Err::<(Seq<PointM>, int, int), ParseError>(e),
        },
{
    let seg_name = [116u8, 114u8, 107u8, 115u8, 101u8, 103u8];
    let pt_name = [116u8, 114u8, 107u8, 112u8, 116u8];
    let lat_name = [108u8, 97u8, 116u8];
    let lon_name = [108u8, 111u8, 110u8];
    let mut pts: Vec<TrackPoint> = Vec::new();
    let mut count: usize = count0;
    let mut i: usize = from;
    proof {
        assert(seg_name@ =~= nm_trkseg());
        assert(pt_name@ =~= nm_trkpt());
        assert(lat_name@ =~= nm_lat());
        assert(lon_name@ =~= nm_lon());
        assert(pts.deep_view() =~= Seq::<PointM>::empty());
    }
    loop
        invariant
            from <= i <= s.len(),
            count0 <= count,
            count as int - count0 as int <= i as int - from as int,
            seg_content(s@, from as int, Seq::empty(), count0 as int) == seg_content(
                s@,
                i as int,
                pts.deep_view(),
                count as int,
            ),
        decreases s.len() - i,
    {
        let ghost i0 = i as int;
        let ghost pts0 = pts.deep_view();
        let ghost cnt0 = count as int;
        let j = ws_end_exec(s, i);
        if j >= s.len() {
            return Err(ParseError::Malformed);
        }
        if s[j] != 60 {
            return Err(ParseError::Malformed);
        }
        if j + 1 < s.len() && s[j + 1] == 47 {
            match close_tag_exec(s, j, seg_name.as_slice()) {
                None => {
                    return Err(ParseError::Malformed);
                },
                Some(k) => {
                    return Ok((pts, k, count));
                },
            }
        }
        let ne = name_end_exec(s, j + 1);
        if ne == j + 1 {
            return Err(ParseError::Malformed);
        }
        let nm = slice_subrange(s, j + 1, ne);
        match attrs_parse_exec(s, ne) {
            None => {
                return Err(ParseError::Malformed);
            },
            Some((attrs, k, sc)) => {
                if bytes_eq(nm, pt_name.as_slice()) {
                    let la = match attr_lookup_exec(&attrs, lat_name.as_slice()) {
                        None => {
                            return Err(ParseError::Malformed);
                        },
                        Some(latv) => {
                            match parse_nano_exec(latv.as_slice(), LAT_LIMIT_NANO) {
                                None => {
                                    return Err(ParseError::InvalidCoordinate(count));
                                },
                                Some(v) => v,
                            }
                        },
                    };
                    let lo = match attr_lookup_exec(&attrs, lon_name.as_slice()) {
                        None => {
                            return Err(ParseError::Malformed);
                        },
                        Some(lonv) => {
                            match parse_nano_exec(lonv.as_slice(), LON_LIMIT_NANO) {
                                None => {
                                    return Err(ParseError::InvalidCoordinate(count));
                                },
                                Some(v) => v,
                            }
                        },
                    };
                    let (ele_opt, k_next): (Option<i64>, usize) = if sc {
                        (None, k)
                    } else {
                        match trkpt_content_exec(s, k) {
                            Err(e) => {
                                return Err(e);
                            },
                            Ok(t) => t,
                        }
                    };
                    pts.push(
                        TrackPoint {
                            coordinate: Coord { lat_nano: la, lon_nano: lo },
                            elevation: ele_opt,
                        },
                    );
                    count = count + 1;
                    i = k_next;
                    proof {
                        assert(pts.deep_view() =~= pts0.push(
                            PointM { lat_nano: la, lon_nano: lo, elevation: ele_opt },
                        ));
                        assert(seg_content(s@, i0, pts0, cnt0) == seg_content(
                            s@,
                            i as int,
                            pts.deep_view(),
                            count as int,
                        ));
                    }
                } else {
                    if sc {
                        i = k;
                    } else {
                        match skip_node_exec(s, k) {
                            None => {
                                return Err(ParseError::Malformed);
                            },
                            Some(k2) => {
                                i = k2;
                            },
                        }
                    }
                    proof {
                        assert(seg_content(s@, i0, pts0, cnt0) == seg_content(
                            s@,
                            i as int,
                            pts.deep_view(),
                            count as int,
                        ));
                    }
                }
            },
        }
    }
}

#[verifier::loop_isolation(false)]
fn trk_content_exec(s: &[u8], from: usize, count0: usize) -> (r: Result<
    (Track, usize, usize),
    ParseError,
>)
    requires
        from <= s.len(),
        count0 as int + (s.len() - from) <= usize::MAX as int,
    ensures
        match r {
            Ok(t) => {
                &&& trk_content(s@, from as int, None, None, Seq::empty(), count0 as int) == Ok::<(TrackM, int, int), ParseError>(
                    (t.0.deep_view(), t.1 as int, t.2 as int),
                )
                &&& from < t.1 <= s.len()
                &&& count0 <= t.2
                &&& t.2 as int - count0 as int <= t.1 as int - from as int
            },
            Err(e) => trk_content(s@, from as int, None, None, Seq::empty(), count0 as int) == Err::<(TrackM, int, int), ParseError>(e),
        },
{
    let trk_name = [116u8, 114u8, 107u8];
    let name_name = [110u8, 97u8, 109u8, 101u8];
    let kind_tag_nm = [116u8, 121u8, 112u8, 101u8];
    let seg_name = [116u8, 114u8, 107u8, 115u8, 101u8, 103u8];
    let mut name: Option<Vec<u8>> = None;
    let mut kind: Option<Vec<u8>> = None;
    let mut segs: Vec<Segment> = Vec::new();
    let mut count: usize = count0;
    let mut i: usize = from;
    proof {
        assert(trk_name@ =~= nm_trk());
        assert(name_name@ =~= nm_name());
        assert(kind_tag_nm@ =~= nm_type());
        assert(seg_name@ =~= nm_trkseg());
        assert(segs.deep_view() =~= Seq::<Seq<PointM>>::empty());
    }
    loop
        invariant
            from <= i <= s.len(),
            count0 <= count,
            count as int - count0 as int <= i as int - from as int,
            trk_content(s@, from as int, None, None, Seq::empty(), count0 as int) == trk_content(
                s@,
                i as int,
                name.deep_view(),
                kind.deep_view(),
                segs.deep_view(),
                count as int,
            ),
        decreases s.len() - i,
    {
        let ghost i0 = i as int;
        let ghost name0 = name.deep_view();
        let ghost kind0 = kind.deep_view();
        let ghost segs0 = segs.deep_view();
        let ghost cnt0 = count as int;
        let j = ws_end_exec(s, i);
        if j >= s.len() {
            return Err(ParseError::Malformed);
        }
        if s[j] != 60 {
            return Err(ParseError::Malformed);
        }
        if j + 1 < s.len() && s[j + 1] == 47 {
            match close_tag_exec(s, j, trk_name.as_slice()) {
                None => {
                    return Err(ParseError::Malformed);
                },
                Some(k) => {
                    return Ok((Track { name, kind, segments: segs }, k, count));
                },
            }
        }
        let ne = name_end_exec(s, j + 1);
        if ne == j + 1 {
            return Err(ParseError::Malformed);
        }
        let nm = slice_subrange(s, j + 1, ne);
        match attrs_parse_exec(s, ne) {
            None => {
                return Err(ParseError::Malformed);
            },
            Some((_attrs, k, sc)) => {
                if bytes_eq(nm, name_name.as_slice()) {
                    if sc {
                        let empty_v: Vec<u8> = Vec::new();
                        proof {
                            assert(empty_v.deep_view() =~= Seq::<u8>::empty());
                        }
                        name = Some(empty_v);
                        i = k;
                    } else {
                        match text_elem_exec(s, k, name_name.as_slice()) {
                            None => {
                                return Err(ParseError::Malformed);
                            },
                            Some((txt, k2)) => {
                                proof {
                                    assert(txt.deep_view() =~= txt@);
                                }
                                name = Some(txt);
                                i = k2;
                            },
                        }
                    }
                } else if bytes_eq(nm, kind_tag_nm.as_slice()) {
                    if sc {
                        let empty_v: Vec<u8> = Vec::new();
                        proof {
                            assert(empty_v.deep_view() =~= Seq::<u8>::empty());
                        }
                        kind = Some(empty_v);
                        i = k;
                    } else {
                        match text_elem_exec(s, k, kind_tag_nm.as_slice()) {
                            None => {
                                return Err(ParseError::Malformed);
                            },
                            Some((txt, k2)) => {
                                proof {
                                    assert(txt.deep_view() =~= txt@);
                                }
                                kind = Some(txt);
                                i = k2;
                            },
                        }
                    }
                } else if bytes_eq(nm, seg_name.as_slice()) {
                    if sc {
                        let empty_pts: Vec<TrackPoint> = Vec::new();
                        proof {
                            assert(empty_pts.deep_view() =~= Seq::<PointM>::empty());
                        }
                        segs.push(Segment { points: empty_pts });
                        i = k;
                        proof {
                            assert(segs.deep_view() =~= segs0.push(Seq::<PointM>::empty()));
                        }
                    } else {
                        match seg_content_exec(s, k, count) {
                            Err(e) => {
                                return Err(e);
                            },
                            Ok((ptsv, k2, c2)) => {
                                segs.push(Segment { points: ptsv });
                                count = c2;
                                i = k2;
                                proof {
                                    assert(segs.deep_view() =~= segs0.push(
                                        segs.deep_view().last(),
                                    ));
                                }
                            },
                        }
                    }
                } else {
                    if sc {
                        i = k;
                    } else {
                        match skip_node_exec(s, k) {
                            None => {
                                return Err(ParseError::Malformed);
                            },
                            Some(k2) => {
                                i = k2;
                            },
                        }
                    }
                }
            },
        }
        proof {
            assert(trk_content(s@, i0, name0, kind0, segs0, cnt0) == trk_content(
                s@,
                i as int,
                name.deep_view(),
                kind.deep_view(),
                segs.deep_view(),
                count as int,
            ));
        }
    }
}

#[verifier::loop_isolation(false)]
fn gpx_content_exec(s: &[u8], from: usize, count0: usize) -> (r: Result<
    (Vec<Track>, usize, usize),
    ParseError,
>)
    requires
        from <= s.len(),
        count0 as int + (s.len() - from) <= usize::MAX as int,
    ensures
        match r {
            Ok(t) => {
                &&& gpx_content(s@, from as int, Seq::empty(), count0 as int) == Ok::<(Seq<TrackM>, int, int), ParseError>(
                    (t.0.deep_view(), t.1 as int, t.2 as int),
                )
                &&& from < t.1 <= s.len()
            },
            Err(e) => gpx_content(s@, from as int, Seq::empty(), count0 as int) == Err::<(Seq<TrackM>, int, int), ParseError>(e),
        },
{
    let trk_name = [116u8, 114u8, 107u8];
    let gpx_name = [103u8, 112u8, 120u8];
    let mut tracks: Vec<Track> = Vec::new();
    let mut count: usize = count0;
    let mut i: usize = from;
    proof {
        assert(trk_name@ =~= nm_trk());
        assert(gpx_name@ =~= nm_gpx());
        assert(tracks.deep_view() =~= Seq::<TrackM>::empty());
    }
    loop
        invariant
            from <= i <= s.len(),
            count0 <= count,
            count as int - count0 as int <= i as int - from as int,
            gpx_content(s@, from as int, Seq::empty(), count0 as int) == gpx_content(
                s@,
                i as int,
                tracks.deep_view(),
                count as int,
            ),
        decreases s.len() - i,
    {
        let ghost i0 = i as int;
        let ghost tracks0 = tracks.deep_view();
        let ghost cnt0 = count as int;
        let j = ws_end_exec(s, i);
        if j >= s.len() {
            return Err(ParseError::Malformed);
        }
        if s[j] != 60 {
            return Err(ParseError::Malformed);
        }
        if j + 1 < s.len() && s[j + 1] == 47 {
            match close_tag_exec(s, j, gpx_name.as_slice()) {
                None => {
                    return Err(ParseError::Malformed);
                },
                Some(k) => {
                    return Ok((tracks, k, count));
                },
            }
        }
        let ne = name_end_exec(s, j + 1);
        if ne == j + 1 {
            return Err(ParseError::Malformed);
        }
        let nm = slice_subrange(s, j + 1, ne);
        match attrs_parse_exec(s, ne) {
            None => {
                return Err(ParseError::Malformed);
            },
            Some((_attrs, k, sc)) => {
                if bytes_eq(nm, trk_name.as_slice()) {
                    if sc {
                        let empty_segs: Vec<Segment> = Vec::new();
                        let t = Track { name: None, kind: None, segments: empty_segs };
                        proof {
                            assert(t.deep_view().segments =~= Seq::<Seq<PointM>>::empty());
                            assert(t.deep_view() == (TrackM {
                                name: None,
                                kind: None,
                                segments: Seq::empty(),
                            }));
                        }
                        tracks.push(t);
                        i = k;
                        proof {
                            assert(tracks.deep_view() =~= tracks0.push(
                                TrackM { name: None, kind: None, segments: Seq::empty() },
                            ));
                        }
                    } else {
                        match trk_content_exec(s, k, count) {
                            Err(e) => {
                                return Err(e);
                            },
                            Ok((t, k2, c2)) => {
                                let ghost tm = t.deep_view();
                                tracks.push(t);
                                count = c2;
                                i = k2;
                                proof {
                                    assert(tracks.deep_view() =~= tracks0.push(tm));
                                }
                            },
                        }
                    }
                } else {
                    if sc {
                        i = k;
                    } else {
                        match skip_node_exec(s, k) {
                            None => {
                                return Err(ParseError::Malformed);
                            },
                            Some(k2) => {
                                i = k2;
                            },
                        }
                    }
                }
            },
        }
        proof {
            assert(gpx_content(s@, i0, tracks0, cnt0) == gpx_content(
                s@,
                i as int,
                tracks.deep_view(),
                count as int,
            ));
        }
    }
}

fn parse_root_exec(s: &[u8], i: usize) -> (r: Result<TrackDocument, ParseError>)
    requires
        i <= s.len(),
    ensures
        match r {
            Ok(doc) => parse_root(s@, i as int) == Ok::<DocM, ParseError>(doc.deep_view()),
            Err(e) => parse_root(s@, i as int) == Err::<DocM, ParseError>(e),
        },
{
    if i >= s.len() {
        return Err(ParseError::Malformed);
    }
    if s[i] != 60 {
        return Err(ParseError::Malformed);
    }
    if s.len() - i >= 2 && s[i + 1] == 47 {
        return Err(ParseError::Malformed);
    }
    let ne = name_end_exec(s, i + 1);
    if ne == i + 1 {
        return Err(ParseError::Malformed);
    }
    let gpx_name = [103u8, 112u8, 120u8];
    proof {
        assert(gpx_name@ =~= nm_gpx());
    }
    if !bytes_eq(slice_subrange(s, i + 1, ne), gpx_name.as_slice()) {
        return Err(ParseError::Malformed);
    }
    match attrs_parse_exec(s, ne) {
        None => Err(ParseError::Malformed),
        Some((_attrs, k, sc)) => {
            if sc {
                let empty_tracks: Vec<Track> = Vec::new();
                let d = TrackDocument { tracks: empty_tracks };
                proof {
                    assert(d.deep_view().tracks =~= Seq::<TrackM>::empty());
                    assert(d.deep_view() == (DocM { tracks: Seq::empty() }));
                }
                let t = ws_end_exec(s, k);
                if t < s.len() {
                    Err(ParseError::Malformed)
                } else {
                    Ok(d)
                }
            } else {
                match gpx_content_exec(s, k, 0) {
                    Err(e) => Err(e),
                    Ok((tracks, k2, _c2)) => {
                        let d = TrackDocument { tracks };
                        let t = ws_end_exec(s, k2);
                        if t < s.len() {
                            Err(ParseError::Malformed)
                        } else {
                            Ok(d)
                        }
                    },
                }
            }
        },
    }
}

/// Reads GPX text held in a string, keeping only whether a document came
/// out: the convenience entry point for callers that surface one error
/// state. [`parse`] is the full-fidelity reader.
pub fn parse_gpx(text: &str) -> (r: Option<TrackDocument>)
    ensures
        match r {
            Some(doc) => parse_spec(text.spec_bytes()) == Ok::<DocM, ParseError>(doc.deep_view()),
            None => parse_spec(text.spec_bytes()) is Err,
        },
{
    match parse(text.as_bytes()) {
        Ok(d) => Some(d),
        Err(e) => None,
    }
}

/// Reads GPX text into a track document, or rejects it with the exact
/// error [`parse_spec`] names: tracks, segments and points come back in
/// document order, absent names, kinds and elevations stay `None`, and a
/// `lat`/`lon` that is not a number within range is reported with the
/// document-order index of its point.
pub fn parse(data: &[u8]) -> (r: Result<TrackDocument, ParseError>)
    ensures
        match r {
            Ok(doc) => parse_spec(data@) == Ok::<DocM, ParseError>(doc.deep_view())
                && doc.deep_view().valid(),
            Err(e) => parse_spec(data@) == Err::<DocM, ParseError>(e),
        },
{
    proof {
        if parse_spec(data@) is Ok {
            lemma_parse_valid(data@);
        }
    }
    let i = ws_end_exec(data, 0);
    if data.len() - i >= 2 && data[i] == 60 && data[i + 1] == 63 {
        match pi_end_exec(data, i + 2) {
            None => Err(ParseError::Malformed),
            Some(p) => {
                let start = ws_end_exec(data, p);
                parse_root_exec(data, start)
            },
        }
    } else {
        parse_root_exec(data, i)
    }
}

} // verus!

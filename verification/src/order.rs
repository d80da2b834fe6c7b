//! Order preservation of the GPX reader.
//!
//! [`trkpt_scan`] walks the text by the same grammar as the parser but
//! keeps no structure at all: it collects the `trkpt` points of the
//! document in the order their elements stand in the text. The theorem
//! [`lemma_parse_order`] says that whenever parsing succeeds, the parsed
//! document's points — flattened track by track and segment by segment —
//! are exactly that document-order sequence: the parser neither reorders
//! nor drops nor duplicates a point.

use vstd::prelude::*;

use crate::geo::LAT_LIMIT_NANO;
use crate::geo::LON_LIMIT_NANO;
use crate::num::parse_nano;
use crate::parser::close_tag;
use crate::parser::gpx_content;
use crate::xml::lemma_attrs_parse;
use crate::parser::lemma_close_tag;
use crate::parser::lemma_seg_content;
use crate::xml::lemma_skip_node;
use crate::parser::lemma_text_elem;
use crate::parser::lemma_trk_content;
use crate::parser::lemma_trkpt_content;
use crate::parser::nm_gpx;
use crate::parser::nm_lat;
use crate::parser::nm_lon;
use crate::parser::nm_name;
use crate::parser::nm_trk;
use crate::parser::nm_trkpt;
use crate::parser::nm_trkseg;
use crate::parser::nm_type;
use crate::parser::parse_root;
use crate::parser::parse_spec;
use crate::parser::seg_content;
use crate::parser::text_elem;
use crate::parser::trk_content;
use crate::parser::trkpt_content;
use crate::track::doc_flat;
use crate::track::segments_flat;
use crate::track::PointM;
use crate::track::TrackM;
use crate::xml::attr_lookup;
use crate::xml::attrs_parse;
use crate::xml::lemma_name_end;
use crate::xml::lemma_pi_end;
use crate::xml::lemma_ws_end;
use crate::xml::name_end;
use crate::xml::pi_end;
use crate::xml::skip_node;
use crate::xml::ws_end;

verus! {

/// Points of the `trkpt` elements inside one `trkseg`, in text order,
/// appended to `acc`.
pub open spec fn scan_seg(s: Seq<u8>, i: int, acc: Seq<PointM>) -> Option<(Seq<PointM>, int)>
    decreases s.len() - i when 0 <= i <= s.len()
    via scan_seg_dec
{
    let j = ws_end(s, i);
    if j >= s.len() {
        None
    } else if s[j] != 60 {
        None
    } else if j + 1 < s.len() && s[j + 1] == 47 {
        match close_tag(s, j, nm_trkseg()) {
            None => None,
            Some(k) => Some((acc, k)),
        }
    } else {
        let ne = name_end(s, j + 1);
        if ne == j + 1 {
            None
        } else {
            let nm = s.subrange(j + 1, ne);
            match attrs_parse(s, ne, Seq::empty()) {
                None => None,
                Some((attrs, k, sc)) => {
                    if nm == nm_trkpt() {
                        match attr_lookup(attrs, nm_lat()) {
                            None => None,
                            Some(latv) => {
                                match parse_nano(latv, LAT_LIMIT_NANO as int) {
                                    None => None,
                                    Some(la) => {
                                        match attr_lookup(attrs, nm_lon()) {
                                            None => None,
                                            Some(lonv) => {
                                                match parse_nano(lonv, LON_LIMIT_NANO as int) {
                                                    None => None,
                                                    Some(lo) => {
                                                        if sc {
                                                            scan_seg(
                                                                s,
                                                                k,
                                                                acc.push(
                                                                    PointM {
                                                                        lat_nano: la as i64,
                                                                        lon_nano: lo as i64,
                                                                        elevation: None,
                                                                    },
                                                                ),
                                                            )
                                                        } else {
                                                            match trkpt_content(s, k, None) {
                                                                Err(e) => None,
                                                                Ok((ele, k2)) => scan_seg(
                                                                    s,
                                                                    k2,
                                                                    acc.push(
                                                                        PointM {
                                                                            lat_nano: la as i64,
                                                                            lon_nano: lo as i64,
                                                                            elevation: ele,
                                                                        },
                                                                    ),
                                                                ),
                                                            }
                                                        }
                                                    },
                                                }
                                            },
                                        }
                                    },
                                }
                            },
                        }
                    } else {
                        if sc {
                            scan_seg(s, k, acc)
                        } else {
                            match skip_node(s, k, 0) {
                                None => None,
                                Some(k2) => scan_seg(s, k2, acc),
                            }
                        }
                    }
                },
            }
        }
    }
}

#[via_fn]
proof fn scan_seg_dec(s: Seq<u8>, i: int, acc: Seq<PointM>) {
    if 0 <= i <= s.len() {
        lemma_ws_end(s, i);
        let j = ws_end(s, i);
        if j < s.len() && s[j] == 60 && !(j + 1 < s.len() && s[j + 1] == 47) {
            lemma_name_end(s, j + 1);
            let ne = name_end(s, j + 1);
            if ne != j + 1 {
                lemma_attrs_parse(s, ne, Seq::empty());
                match attrs_parse(s, ne, Seq::empty()) {
                    None => {},
                    Some((attrs, k, sc)) => {
                        lemma_trkpt_content(s, k, None);
                        lemma_skip_node(s, k, 0);
                    },
                }
            }
        }
    }
}

/// Points of the `trkseg` elements inside one `trk`, in text order,
/// appended to `acc`.
pub open spec fn scan_trk(s: Seq<u8>, i: int, acc: Seq<PointM>) -> Option<(Seq<PointM>, int)>
    decreases s.len() - i when 0 <= i <= s.len()
    via scan_trk_dec
{
    let j = ws_end(s, i);
    if j >= s.len() {
        None
    } else if s[j] != 60 {
        None
    } else if j + 1 < s.len() && s[j + 1] == 47 {
        match close_tag(s, j, nm_trk()) {
            None => None,
            Some(k) => Some((acc, k)),
        }
    } else {
        let ne = name_end(s, j + 1);
        if ne == j + 1 {
            None
        } else {
            let nm = s.subrange(j + 1, ne);
            match attrs_parse(s, ne, Seq::empty()) {
                None => None,
                Some((attrs, k, sc)) => {
                    if nm == nm_name() {
                        if sc {
                            scan_trk(s, k, acc)
                        } else {
                            match text_elem(s, k, nm_name()) {
                                None => None,
                                Some((txt, k2)) => scan_trk(s, k2, acc),
                            }
                        }
                    } else if nm == nm_type() {
                        if sc {
                            scan_trk(s, k, acc)
                        } else {
                            match text_elem(s, k, nm_type()) {
                                None => None,
                                Some((txt, k2)) => scan_trk(s, k2, acc),
                            }
                        }
                    } else if nm == nm_trkseg() {
                        if sc {
                            scan_trk(s, k, acc)
                        } else {
                            match scan_seg(s, k, acc) {
                                None => None,
                                Some((acc2, k2)) => scan_trk(s, k2, acc2),
                            }
                        }
                    } else {
                        if sc {
                            scan_trk(s, k, acc)
                        } else {
                            match skip_node(s, k, 0) {
                                None => None,
                                Some(k2) => scan_trk(s, k2, acc),
                            }
                        }
                    }
                },
            }
        }
    }
}

#[via_fn]
proof fn scan_trk_dec(s: Seq<u8>, i: int, acc: Seq<PointM>) {
    if 0 <= i <= s.len() {
        lemma_ws_end(s, i);
        let j = ws_end(s, i);
        if j < s.len() && s[j] == 60 && !(j + 1 < s.len() && s[j + 1] == 47) {
            lemma_name_end(s, j + 1);
            let ne = name_end(s, j + 1);
            if ne != j + 1 {
                lemma_attrs_parse(s, ne, Seq::empty());
                match attrs_parse(s, ne, Seq::empty()) {
                    None => {},
                    Some((attrs, k, sc)) => {
                        lemma_text_elem(s, k, nm_name());
                        lemma_text_elem(s, k, nm_type());
                        lemma_scan_seg_pos(s, k, acc);
                        lemma_skip_node(s, k, 0);
                    },
                }
            }
        }
    }
}

/// Position bounds of a successful segment scan.
pub proof fn lemma_scan_seg_pos(s: Seq<u8>, i: int, acc: Seq<PointM>)
    requires
        0 <= i <= s.len(),
    ensures
        scan_seg(s, i, acc) is Some ==> i < (scan_seg(s, i, acc)->Some_0).1 <= s.len(),
    decreases s.len() - i,
{
    lemma_ws_end(s, i);
    let j = ws_end(s, i);
    if j < s.len() && s[j] == 60 {
        if j + 1 < s.len() && s[j + 1] == 47 {
            lemma_close_tag(s, j, nm_trkseg());
        } else {
            lemma_name_end(s, j + 1);
            let ne = name_end(s, j + 1);
            if ne != j + 1 {
                lemma_attrs_parse(s, ne, Seq::empty());
                match attrs_parse(s, ne, Seq::empty()) {
                    None => {},
                    Some((attrs, k, sc)) => {
                        lemma_trkpt_content(s, k, None);
                        lemma_skip_node(s, k, 0);
                        let nm = s.subrange(j + 1, ne);
                        if nm == nm_trkpt() {
                            match attr_lookup(attrs, nm_lat()) {
                                None => {},
                                Some(latv) => {
                                    match parse_nano(latv, LAT_LIMIT_NANO as int) {
                                        None => {},
                                        Some(la) => {
                                            match attr_lookup(attrs, nm_lon()) {
                                                None => {},
                                                Some(lonv) => {
                                                    match parse_nano(lonv, LON_LIMIT_NANO as int) {
                                                        None => {},
                                                        Some(lo) => {
                                                            if sc {
                                                                lemma_scan_seg_pos(
                                                                    s,
                                                                    k,
                                                                    acc.push(
                                                                        PointM {
                                                                            lat_nano: la as i64,
                                                                            lon_nano: lo as i64,
                                                                            elevation: None,
                                                                        },
                                                                    ),
                                                                );
                                                            } else {
                                                                match trkpt_content(s, k, None) {
                                                                    Err(e) => {},
                                                                    Ok((ele, k2)) => {
                                                                        lemma_scan_seg_pos(
                                                                            s,
                                                                            k2,
                                                                            acc.push(
                                                                                PointM {
                                                                                    lat_nano: (la
                                                                                        as i64),
                                                                                    lon_nano: (lo
                                                                                        as i64),
                                                                                    elevation: ele,
                                                                                },
                                                                            ),
                                                                        );
                                                                    },
                                                                }
                                                            }
                                                        },
                                                    }
                                                },
                                            }
                                        },
                                    }
                                },
                            }
                        } else {
                            if sc {
                                lemma_scan_seg_pos(s, k, acc);
                            } else {
                                match skip_node(s, k, 0) {
                                    None => {},
                                    Some(k2) => {
                                        lemma_scan_seg_pos(s, k2, acc);
                                    },
                                }
                            }
                        }
                    },
                }
            }
        }
    }
}

/// Points of the `trk` elements inside the `gpx` root, in text order,
/// appended to `acc`.
pub open spec fn scan_gpx(s: Seq<u8>, i: int, acc: Seq<PointM>) -> Option<(Seq<PointM>, int)>
    decreases s.len() - i when 0 <= i <= s.len()
    via scan_gpx_dec
{
    let j = ws_end(s, i);
    if j >= s.len() {
        None
    } else if s[j] != 60 {
        None
    } else if j + 1 < s.len() && s[j + 1] == 47 {
        match close_tag(s, j, nm_gpx()) {
            None => None,
            Some(k) => Some((acc, k)),
        }
    } else {
        let ne = name_end(s, j + 1);
        if ne == j + 1 {
            None
        } else {
            let nm = s.subrange(j + 1, ne);
            match attrs_parse(s, ne, Seq::empty()) {
                None => None,
                Some((attrs, k, sc)) => {
                    if nm == nm_trk() {
                        if sc {
                            scan_gpx(s, k, acc)
                        } else {
                            match scan_trk(s, k, acc) {
                                None => None,
                                Some((acc2, k2)) => scan_gpx(s, k2, acc2),
                            }
                        }
                    } else {
                        if sc {
                            scan_gpx(s, k, acc)
                        } else {
                            match skip_node(s, k, 0) {
                                None => None,
                                Some(k2) => scan_gpx(s, k2, acc),
                            }
                        }
                    }
                },
            }
        }
    }
}

#[via_fn]
proof fn scan_gpx_dec(s: Seq<u8>, i: int, acc: Seq<PointM>) {
    if 0 <= i <= s.len() {
        lemma_ws_end(s, i);
        let j = ws_end(s, i);
        if j < s.len() && s[j] == 60 && !(j + 1 < s.len() && s[j + 1] == 47) {
            lemma_name_end(s, j + 1);
            let ne = name_end(s, j + 1);
            if ne != j + 1 {
                lemma_attrs_parse(s, ne, Seq::empty());
                match attrs_parse(s, ne, Seq::empty()) {
                    None => {},
                    Some((attrs, k, sc)) => {
                        lemma_scan_trk_pos(s, k, acc);
                        lemma_skip_node(s, k, 0);
                    },
                }
            }
        }
    }
}

/// Position bounds of a successful track scan.
pub proof fn lemma_scan_trk_pos(s: Seq<u8>, i: int, acc: Seq<PointM>)
    requires
        0 <= i <= s.len(),
    ensures
        scan_trk(s, i, acc) is Some ==> i < (scan_trk(s, i, acc)->Some_0).1 <= s.len(),
    decreases s.len() - i,
{
    lemma_ws_end(s, i);
    let j = ws_end(s, i);
    if j < s.len() && s[j] == 60 {
        if j + 1 < s.len() && s[j + 1] == 47 {
            lemma_close_tag(s, j, nm_trk());
        } else {
            lemma_name_end(s, j + 1);
            let ne = name_end(s, j + 1);
            if ne != j + 1 {
                lemma_attrs_parse(s, ne, Seq::empty());
                match attrs_parse(s, ne, Seq::empty()) {
                    None => {},
                    Some((attrs, k, sc)) => {
                        lemma_text_elem(s, k, nm_name());
                        lemma_text_elem(s, k, nm_type());
                        lemma_scan_seg_pos(s, k, acc);
                        lemma_skip_node(s, k, 0);
                        let nm = s.subrange(j + 1, ne);
                        if sc {
                            lemma_scan_trk_pos(s, k, acc);
                        } else {
                            if nm == nm_name() {
                                match text_elem(s, k, nm_name()) {
                                    None => {},
                                    Some((txt, k2)) => {
                                        lemma_scan_trk_pos(s, k2, acc);
                                    },
                                }
                            } else if nm == nm_type() {
                                match text_elem(s, k, nm_type()) {
                                    None => {},
                                    Some((txt, k2)) => {
                                        lemma_scan_trk_pos(s, k2, acc);
                                    },
                                }
                            } else if nm == nm_trkseg() {
                                match scan_seg(s, k, acc) {
                                    None => {},
                                    Some((acc2, k2)) => {
                                        lemma_scan_trk_pos(s, k2, acc2);
                                    },
                                }
                            } else {
                                match skip_node(s, k, 0) {
                                    None => {},
                                    Some(k2) => {
                                        lemma_scan_trk_pos(s, k2, acc);
                                    },
                                }
                            }
                        }
                    },
                }
            }
        }
    }
}

/// The document-order sequence of `trkpt` points of a whole GPX text:
/// the same grammar as the parser, with no structure kept.
pub open spec fn trkpt_scan(s: Seq<u8>) -> Option<Seq<PointM>> {
    let i0 = ws_end(s, 0);
    let i = if i0 + 1 < s.len() && s[i0] == 60 && s[i0 + 1] == 63 {
        match pi_end(s, i0 + 2) {
            None => s.len() as int + 1,
            Some(p) => ws_end(s, p),
        }
    } else {
        i0
    };
    if !(0 <= i <= s.len()) {
        None
    } else if i < s.len() && s[i] == 60 && !(i + 1 < s.len() && s[i + 1] == 47) {
        let ne = name_end(s, i + 1);
        if ne == i + 1 {
            None
        } else if s.subrange(i + 1, ne) != nm_gpx() {
            None
        } else {
            match attrs_parse(s, ne, Seq::empty()) {
                None => None,
                Some((attrs, k, sc)) => {
                    if sc {
                        if ws_end(s, k) == s.len() {
                            Some(Seq::empty())
                        } else {
                            None
                        }
                    } else {
                        match scan_gpx(s, k, Seq::empty()) {
                            None => None,
                            Some((pts, k2)) => {
                                if ws_end(s, k2) == s.len() {
                                    Some(pts)
                                } else {
                                    None
                                }
                            },
                        }
                    }
                },
            }
        }
    } else {
        None
    }
}

/// A successful segment parse only appends points, and the segment scan
/// collects exactly the appended points, in order, after any accumulator.
pub proof fn lemma_scan_seg_eq(s: Seq<u8>, i: int, pts: Seq<PointM>, c: int, acc: Seq<PointM>)
    requires
        0 <= i <= s.len(),
        seg_content(s, i, pts, c) is Ok,
    ensures
        ({
            let r = seg_content(s, i, pts, c)->Ok_0;
            let n = pts.len() as int;
            &&& pts.len() <= r.0.len()
            &&& r.0.take(n) == pts
            &&& scan_seg(s, i, acc) == Some((acc + r.0.skip(n), r.1))
        }),
    decreases s.len() - i, 0int,
{
    lemma_ws_end(s, i);
    let j = ws_end(s, i);
    let n = pts.len() as int;
    if j < s.len() && s[j] == 60 {
        if j + 1 < s.len() && s[j + 1] == 47 {
            match close_tag(s, j, nm_trkseg()) {
                None => {},
                Some(k) => {
                    assert(pts.take(n) =~= pts);
                    assert(pts.skip(n) =~= Seq::<PointM>::empty());
                    assert(acc + pts.skip(n) =~= acc);
                },
            }
        } else {
            lemma_name_end(s, j + 1);
            let ne = name_end(s, j + 1);
            if ne != j + 1 {
                lemma_attrs_parse(s, ne, Seq::empty());
                let nm = s.subrange(j + 1, ne);
                match attrs_parse(s, ne, Seq::empty()) {
                    None => {},
                    Some((attrs, k, sc)) => {
                        if nm == nm_trkpt() {
                            match attr_lookup(attrs, nm_lat()) {
                                None => {},
                                Some(latv) => {
                                    match parse_nano(latv, LAT_LIMIT_NANO as int) {
                                        None => {},
                                        Some(la) => {
                                            match attr_lookup(attrs, nm_lon()) {
                                                None => {},
                                                Some(lonv) => {
                                                    match parse_nano(lonv, LON_LIMIT_NANO as int) {
                                                        None => {},
                                                        Some(lo) => {
                                                            if sc {
                                                                let pm = PointM {
                                                                    lat_nano: la as i64,
                                                                    lon_nano: lo as i64,
                                                                    elevation: None,
                                                                };
                                                                scan_seg_step(
                                                                    s,
                                                                    k,
                                                                    pts,
                                                                    c,
                                                                    acc,
                                                                    pm,
                                                                );
                                                            } else {
                                                                lemma_trkpt_content(s, k, None);
                                                                match trkpt_content(s, k, None) {
                                                                    Err(e) => {},
                                                                    Ok((ele, k2)) => {
                                                                        let pm = PointM {
                                                                            lat_nano: la as i64,
                                                                            lon_nano: lo as i64,
                                                                            elevation: ele,
                                                                        };
                                                                        scan_seg_step(
                                                                            s,
                                                                            k2,
                                                                            pts,
                                                                            c,
                                                                            acc,
                                                                            pm,
                                                                        );
                                                                    },
                                                                }
                                                            }
                                                        },
                                                    }
                                                },
                                            }
                                        },
                                    }
                                },
                            }
                        } else {
                            if sc {
                                lemma_scan_seg_eq(s, k, pts, c, acc);
                            } else {
                                lemma_skip_node(s, k, 0);
                                match skip_node(s, k, 0) {
                                    None => {},
                                    Some(k2) => {
                                        lemma_scan_seg_eq(s, k2, pts, c, acc);
                                    },
                                }
                            }
                        }
                    },
                }
            }
        }
    }
}

/// One point step of [`lemma_scan_seg_eq`]: both sides continue at `k`
/// with the point `pm` appended, and the accumulator algebra lines up.
proof fn scan_seg_step(s: Seq<u8>, k: int, pts: Seq<PointM>, c: int, acc: Seq<PointM>, pm: PointM)
    requires
        0 <= k <= s.len(),
        seg_content(s, k, pts.push(pm), c + 1) is Ok,
    ensures
        ({
            let r = seg_content(s, k, pts.push(pm), c + 1)->Ok_0;
            let n = pts.len() as int;
            &&& pts.len() <= r.0.len()
            &&& r.0.take(n) == pts
            &&& scan_seg(s, k, acc.push(pm)) == Some((acc + r.0.skip(n), r.1))
        }),
    decreases s.len() - k, 1int,
{
    lemma_scan_seg_eq(s, k, pts.push(pm), c + 1, acc.push(pm));
    let r = seg_content(s, k, pts.push(pm), c + 1)->Ok_0;
    let n = pts.len() as int;
    assert(r.0.take(n + 1) == pts.push(pm));
    assert(r.0.take(n) =~= pts) by {
        assert(forall|idx: int|
            0 <= idx < n ==> r.0.take(n + 1)[idx] == #[trigger] pts.push(pm)[idx]);
    }
    assert(r.0[n] == pm) by {
        assert(r.0.take(n + 1)[n] == pts.push(pm)[n]);
    }
    assert(acc.push(pm) + r.0.skip(n + 1) =~= acc + r.0.skip(n)) by {
        assert(forall|idx: int| 0 <= idx < r.0.len() - n ==> #[trigger] r.0.skip(n)[idx] == r.0[n
            + idx]);
        assert(forall|idx: int|
            0 <= idx < r.0.len() - n - 1 ==> #[trigger] r.0.skip(n + 1)[idx] == r.0[n + 1 + idx]);
    }
}

/// A successful track parse only appends segments, and the track scan
/// collects exactly the appended points, in order, after any accumulator.
pub proof fn lemma_scan_trk_eq(
    s: Seq<u8>,
    i: int,
    name: Option<Seq<u8>>,
    kind: Option<Seq<u8>>,
    segs: Seq<Seq<PointM>>,
    c: int,
    acc: Seq<PointM>,
)
    requires
        0 <= i <= s.len(),
        trk_content(s, i, name, kind, segs, c) is Ok,
    ensures
        ({
            let r = trk_content(s, i, name, kind, segs, c)->Ok_0;
            let n = segments_flat(segs).len() as int;
            &&& segments_flat(segs).len() <= segments_flat(r.0.segments).len()
            &&& segments_flat(r.0.segments).take(n) == segments_flat(segs)
            &&& scan_trk(s, i, acc) == Some((acc + segments_flat(r.0.segments).skip(n), r.1))
        }),
    decreases s.len() - i,
{
    lemma_ws_end(s, i);
    let j = ws_end(s, i);
    let n = segments_flat(segs).len() as int;
    if j < s.len() && s[j] == 60 {
        if j + 1 < s.len() && s[j + 1] == 47 {
            match close_tag(s, j, nm_trk()) {
                None => {},
                Some(k) => {
                    assert(segments_flat(segs).take(n) =~= segments_flat(segs));
                    assert(segments_flat(segs).skip(n) =~= Seq::<PointM>::empty());
                    assert(acc + segments_flat(segs).skip(n) =~= acc);
                },
            }
        } else {
            lemma_name_end(s, j + 1);
            let ne = name_end(s, j + 1);
            if ne != j + 1 {
                lemma_attrs_parse(s, ne, Seq::empty());
                let nm = s.subrange(j + 1, ne);
                match attrs_parse(s, ne, Seq::empty()) {
                    None => {},
                    Some((attrs, k, sc)) => {
                        if nm == nm_name() {
                            if sc {
                                lemma_scan_trk_eq(s, k, Some(Seq::empty()), kind, segs, c, acc);
                            } else {
                                lemma_text_elem(s, k, nm_name());
                                match text_elem(s, k, nm_name()) {
                                    None => {},
                                    Some((txt, k2)) => {
                                        lemma_scan_trk_eq(s, k2, Some(txt), kind, segs, c, acc);
                                    },
                                }
                            }
                        } else if nm == nm_type() {
                            if sc {
                                lemma_scan_trk_eq(s, k, name, Some(Seq::empty()), segs, c, acc);
                            } else {
                                lemma_text_elem(s, k, nm_type());
                                match text_elem(s, k, nm_type()) {
                                    None => {},
                                    Some((txt, k2)) => {
                                        lemma_scan_trk_eq(s, k2, name, Some(txt), segs, c, acc);
                                    },
                                }
                            }
                        } else if nm == nm_trkseg() {
                            if sc {
                                lemma_segments_flat_push(segs, Seq::empty());
                                assert(segments_flat(segs.push(Seq::empty())) =~= segments_flat(
                                    segs,
                                ));
                                lemma_scan_trk_eq(
                                    s,
                                    k,
                                    name,
                                    kind,
                                    segs.push(Seq::empty()),
                                    c,
                                    acc,
                                );
                            } else {
                                lemma_seg_content(s, k, Seq::empty(), c);
                                match seg_content(s, k, Seq::empty(), c) {
                                    Err(e) => {},
                                    Ok((pts2, k2, c2)) => {
                                        lemma_scan_seg_eq(s, k, Seq::empty(), c, acc);
                                        assert(pts2.skip(0) =~= pts2);
                                        assert(scan_seg(s, k, acc) == Some((acc + pts2, k2)));
                                        lemma_segments_flat_push(segs, pts2);
                                        lemma_scan_trk_eq(
                                            s,
                                            k2,
                                            name,
                                            kind,
                                            segs.push(pts2),
                                            c2,
                                            acc + pts2,
                                        );
                                        let r = trk_content(s, i, name, kind, segs, c)->Ok_0;
                                        let flat = segments_flat(r.0.segments);
                                        let n2 = segments_flat(segs.push(pts2)).len() as int;
                                        assert(flat.take(n2) == segments_flat(segs.push(pts2)));
                                        assert(segments_flat(segs.push(pts2)) == segments_flat(
                                            segs,
                                        ) + pts2);
                                        assert(flat.take(n) =~= segments_flat(segs)) by {
                                            assert(forall|idx: int|
                                                0 <= idx < n2 ==> flat.take(n2)[idx]
                                                    == #[trigger] (segments_flat(segs)
                                                    + pts2)[idx]);
                                        }
                                        assert forall|idx: int|
                                            0 <= idx < pts2.len() implies flat[n + idx]
                                            == #[trigger] pts2[idx] by {
                                            assert(flat.take(n2)[n + idx] == (segments_flat(segs)
                                                + pts2)[n + idx]);
                                        }
                                        assert((acc + pts2) + flat.skip(n2) =~= acc + flat.skip(n))
                                            by {
                                            assert(forall|idx: int|
                                                0 <= idx < flat.len() - n ==> #[trigger] flat.skip(
                                                    n,
                                                )[idx] == flat[n + idx]);
                                            assert(forall|idx: int|
                                                0 <= idx < flat.len() - n2 ==> #[trigger] flat.skip(
                                                    n2,
                                                )[idx] == flat[n2 + idx]);
                                        }
                                    },
                                }
                            }
                        } else {
                            if sc {
                                lemma_scan_trk_eq(s, k, name, kind, segs, c, acc);
                            } else {
                                lemma_skip_node(s, k, 0);
                                match skip_node(s, k, 0) {
                                    None => {},
                                    Some(k2) => {
                                        lemma_scan_trk_eq(s, k2, name, kind, segs, c, acc);
                                    },
                                }
                            }
                        }
                    },
                }
            }
        }
    }
}

/// A successful root parse only appends tracks, and the root scan
/// collects exactly the appended points, in order, after any accumulator.
pub proof fn lemma_scan_gpx_eq(s: Seq<u8>, i: int, tracks: Seq<TrackM>, c: int, acc: Seq<PointM>)
    requires
        0 <= i <= s.len(),
        gpx_content(s, i, tracks, c) is Ok,
    ensures
        ({
            let r = gpx_content(s, i, tracks, c)->Ok_0;
            let n = doc_flat(tracks).len() as int;
            &&& doc_flat(tracks).len() <= doc_flat(r.0).len()
            &&& doc_flat(r.0).take(n) == doc_flat(tracks)
            &&& scan_gpx(s, i, acc) == Some((acc + doc_flat(r.0).skip(n), r.1))
        }),
    decreases s.len() - i,
{
    lemma_ws_end(s, i);
    let j = ws_end(s, i);
    let n = doc_flat(tracks).len() as int;
    if j < s.len() && s[j] == 60 {
        if j + 1 < s.len() && s[j + 1] == 47 {
            match close_tag(s, j, nm_gpx()) {
                None => {},
                Some(k) => {
                    assert(doc_flat(tracks).take(n) =~= doc_flat(tracks));
                    assert(doc_flat(tracks).skip(n) =~= Seq::<PointM>::empty());
                    assert(acc + doc_flat(tracks).skip(n) =~= acc);
                },
            }
        } else {
            lemma_name_end(s, j + 1);
            let ne = name_end(s, j + 1);
            if ne != j + 1 {
                lemma_attrs_parse(s, ne, Seq::empty());
                let nm = s.subrange(j + 1, ne);
                match attrs_parse(s, ne, Seq::empty()) {
                    None => {},
                    Some((attrs, k, sc)) => {
                        if nm == nm_trk() {
                            if sc {
                                let t0 = TrackM { name: None, kind: None, segments: Seq::empty() };
                                lemma_doc_flat_push(tracks, t0);
                                assert(segments_flat(t0.segments) =~= Seq::<PointM>::empty());
                                assert(doc_flat(tracks.push(t0)) =~= doc_flat(tracks));
                                lemma_scan_gpx_eq(s, k, tracks.push(t0), c, acc);
                            } else {
                                lemma_trk_content(s, k, None, None, Seq::empty(), c);
                                match trk_content(s, k, None, None, Seq::empty(), c) {
                                    Err(e) => {},
                                    Ok((t, k2, c2)) => {
                                        lemma_scan_trk_eq(
                                            s,
                                            k,
                                            None,
                                            None,
                                            Seq::empty(),
                                            c,
                                            acc,
                                        );
                                        let tp = segments_flat(t.segments);
                                        assert(segments_flat(Seq::<Seq<PointM>>::empty()).len()
                                            == 0);
                                        assert(tp.skip(0) =~= tp);
                                        assert(scan_trk(s, k, acc) == Some((acc + tp, k2)));
                                        lemma_doc_flat_push(tracks, t);
                                        lemma_scan_gpx_eq(s, k2, tracks.push(t), c2, acc + tp);
                                        let r = gpx_content(s, i, tracks, c)->Ok_0;
                                        let flat = doc_flat(r.0);
                                        let n2 = doc_flat(tracks.push(t)).len() as int;
                                        assert(flat.take(n2) == doc_flat(tracks.push(t)));
                                        assert(doc_flat(tracks.push(t)) == doc_flat(tracks) + tp);
                                        assert(flat.take(n) =~= doc_flat(tracks)) by {
                                            assert(forall|idx: int|
                                                0 <= idx < n2 ==> flat.take(n2)[idx]
                                                    == #[trigger] (doc_flat(tracks) + tp)[idx]);
                                        }
                                        assert forall|idx: int|
                                            0 <= idx < tp.len() implies flat[n + idx]
                                            == #[trigger] tp[idx] by {
                                            assert(flat.take(n2)[n + idx] == (doc_flat(tracks)
                                                + tp)[n + idx]);
                                        }
                                        assert((acc + tp) + flat.skip(n2) =~= acc + flat.skip(n))
                                            by {
                                            assert(forall|idx: int|
                                                0 <= idx < flat.len() - n ==> #[trigger] flat.skip(
                                                    n,
                                                )[idx] == flat[n + idx]);
                                            assert(forall|idx: int|
                                                0 <= idx < flat.len() - n2 ==> #[trigger] flat.skip(
                                                    n2,
                                                )[idx] == flat[n2 + idx]);
                                        }
                                    },
                                }
                            }
                        } else {
                            if sc {
                                lemma_scan_gpx_eq(s, k, tracks, c, acc);
                            } else {
                                lemma_skip_node(s, k, 0);
                                match skip_node(s, k, 0) {
                                    None => {},
                                    Some(k2) => {
                                        lemma_scan_gpx_eq(s, k2, tracks, c, acc);
                                    },
                                }
                            }
                        }
                    },
                }
            }
        }
    }
}

/// Order preservation: whenever parsing succeeds, the parsed document's
/// points, flattened track by track and segment by segment, are exactly
/// the document-order sequence of `trkpt` elements of the text.
pub proof fn lemma_parse_order(s: Seq<u8>)
    requires
        parse_spec(s) is Ok,
    ensures
        trkpt_scan(s) == Some(doc_flat((parse_spec(s)->Ok_0).tracks)),
{
    lemma_ws_end(s, 0);
    let i0 = ws_end(s, 0);
    let i: int = if i0 + 1 < s.len() && s[i0] == 60 && s[i0 + 1] == 63 {
        match pi_end(s, i0 + 2) {
            None => s.len() as int + 1,
            Some(p) => {
                lemma_pi_end(s, i0 + 2);
                lemma_ws_end(s, p);
                ws_end(s, p)
            },
        }
    } else {
        i0
    };
    assert(0 <= i <= s.len());
    assert(parse_spec(s) == parse_root(s, i));
    if i < s.len() && s[i] == 60 && !(i + 1 < s.len() && s[i + 1] == 47) {
        lemma_name_end(s, i + 1);
        let ne = name_end(s, i + 1);
        if ne != i + 1 && s.subrange(i + 1, ne) == nm_gpx() {
            lemma_attrs_parse(s, ne, Seq::empty());
            match attrs_parse(s, ne, Seq::empty()) {
                None => {},
                Some((attrs, k, sc)) => {
                    if sc {
                        assert(doc_flat(Seq::<TrackM>::empty()) == Seq::<PointM>::empty());
                    } else {
                        match gpx_content(s, k, Seq::empty(), 0) {
                            Err(e) => {},
                            Ok((tracks, k2, c2)) => {
                                lemma_scan_gpx_eq(s, k, Seq::empty(), 0, Seq::empty());
                                assert(doc_flat(Seq::<TrackM>::empty()).len() == 0);
                                assert(doc_flat(tracks).skip(0) =~= doc_flat(tracks));
                                assert(Seq::<PointM>::empty() + doc_flat(tracks) =~= doc_flat(
                                    tracks,
                                ));
                            },
                        }
                    }
                },
            }
        }
    }
}

/// Appending one more segment to a flattened segment list appends its
/// points.
pub proof fn lemma_segments_flat_push(segs: Seq<Seq<PointM>>, x: Seq<PointM>)
    ensures
        segments_flat(segs.push(x)) == segments_flat(segs) + x,
    decreases segs.len(),
{
    if segs.len() == 0 {
        assert(segs.push(x).first() == x);
        assert(segs.push(x).drop_first() =~= Seq::<Seq<PointM>>::empty());
        assert(segments_flat(Seq::<Seq<PointM>>::empty()) == Seq::<PointM>::empty());
        assert(x + Seq::<PointM>::empty() =~= x);
        assert(segments_flat(segs) + x =~= x);
    } else {
        assert(segs.push(x).first() == segs.first());
        assert(segs.push(x).drop_first() =~= segs.drop_first().push(x));
        lemma_segments_flat_push(segs.drop_first(), x);
        assert(segs.first() + (segments_flat(segs.drop_first()) + x) =~= (segs.first()
            + segments_flat(segs.drop_first())) + x);
    }
}

/// Appending one more track to a flattened document appends its points.
pub proof fn lemma_doc_flat_push(tracks: Seq<TrackM>, t: TrackM)
    ensures
        doc_flat(tracks.push(t)) == doc_flat(tracks) + segments_flat(t.segments),
    decreases tracks.len(),
{
    if tracks.len() == 0 {
        assert(tracks.push(t).first() == t);
        assert(tracks.push(t).drop_first() =~= Seq::<TrackM>::empty());
        assert(doc_flat(Seq::<TrackM>::empty()) == Seq::<PointM>::empty());
        assert(segments_flat(t.segments) + Seq::<PointM>::empty() =~= segments_flat(t.segments));
        assert(doc_flat(tracks) + segments_flat(t.segments) =~= segments_flat(t.segments));
    } else {
        assert(tracks.push(t).first() == tracks.first());
        assert(tracks.push(t).drop_first() =~= tracks.drop_first().push(t));
        lemma_doc_flat_push(tracks.drop_first(), t);
        assert(segments_flat(tracks.first().segments) + (doc_flat(tracks.drop_first())
            + segments_flat(t.segments)) =~= (segments_flat(tracks.first().segments) + doc_flat(
            tracks.drop_first(),
        )) + segments_flat(t.segments));
    }
}

} // verus!

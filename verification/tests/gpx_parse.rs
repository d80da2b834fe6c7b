use trackmap::geo::Coord;
use trackmap::parser::parse;
use trackmap::parser::parse_gpx;
use trackmap::track::ParseError;

const TEXT_GPX: &str = r#"<?xml version="1.0" encoding="UTF-8"?>
        <gpx creator="StravaGPX" xmlns:xsi="http://www.w3.org/2001/XMLSchema-instance"
          xsi:schemaLocation="http://www.topografix.com/GPX/1/1 http://www.topografix.com/GPX/1/1/gpx.xsd"
          version="1.1" xmlns="http://www.topografix.com/GPX/1/1">
          <trk>
            <name>Where was the rain?</name>
            <type>cycling</type>
            <trkseg>
              <trkpt lat="52.1350720" lon="0.1298080">
                <ele>23.6</ele>
              </trkpt>
              <trkpt lat="52.1351360" lon="0.1297770">
                <ele>23.8</ele>
              </trkpt>
              <trkpt lat="52.1352000" lon="0.1297490">
                <ele>23.8</ele>
              </trkpt>
            </trkseg>
          </trk>
        </gpx>"#;

#[test]
fn test_parse_gpx() {
    assert!(parse_gpx(TEXT_GPX).is_some());
    assert!(parse_gpx("").is_none());
    assert!(parse_gpx("not a gpx").is_none());
    assert_eq!(
        parse_gpx(TEXT_GPX).unwrap().tracks[0]
            .name
            .as_ref()
            .unwrap(),
        &b"Where was the rain?".to_vec(),
        "Testing track name"
    );
    assert_eq!(
        parse_gpx(TEXT_GPX).unwrap().tracks[0]
            .kind
            .as_ref()
            .unwrap(),
        &b"cycling".to_vec(),
        "Testing track type"
    );
    assert_eq!(
        parse_gpx(TEXT_GPX).unwrap().tracks[0].segments.len(),
        1,
        "Testing number of track segments"
    );
    assert_eq!(
        parse_gpx(TEXT_GPX).unwrap().tracks[0].segments[0]
            .points
            .len(),
        3,
        "Testing number of track points"
    );
    let gpx_points = [
        (129_808_000i64, 52_135_072_000i64),
        (129_777_000, 52_135_136_000),
        (129_749_000, 52_135_200_000),
    ];
    for (i, &(lon_nano, lat_nano)) in gpx_points.iter().enumerate() {
        let parsed_gpx = parse_gpx(TEXT_GPX).unwrap();
        let point = &parsed_gpx.tracks[0].segments[0].points[i];
        assert_eq!(
            point.coordinate.lon_nano, lon_nano,
            "Testing track points x coordinates"
        );
        assert_eq!(
            point.coordinate.lat_nano, lat_nano,
            "Testing track points y coordinates"
        );
    }
}

#[test]
fn parse_three_point_track_scenario() {
    let doc = parse(TEXT_GPX.as_bytes()).unwrap();
    assert_eq!(doc.tracks.len(), 1);
    assert_eq!(doc.tracks[0].segments[0].points.len(), 3);
    assert_eq!(
        doc.tracks[0].segments[0].points[0].coordinate,
        Coord {
            lat_nano: 52_135_072_000,
            lon_nano: 129_808_000,
        }
    );
}

#[test]
fn empty_input_is_malformed() {
    assert!(matches!(parse(b""), Err(ParseError::Malformed)));
}

#[test]
fn unknown_root_is_malformed() {
    assert!(matches!(
        parse(b"<foo></foo>"),
        Err(ParseError::Malformed)
    ));
    assert!(matches!(
        parse(b"<?xml version=\"1.0\"?><rte></rte>"),
        Err(ParseError::Malformed)
    ));
}

#[test]
fn empty_gpx_is_ok_with_no_tracks() {
    let doc = parse(b"<gpx></gpx>").unwrap();
    assert_eq!(doc.tracks.len(), 0);
    let doc2 = parse(b"<gpx/>").unwrap();
    assert_eq!(doc2.tracks.len(), 0);
}

#[test]
fn empty_track_and_segment_are_preserved() {
    let doc = parse(b"<gpx><trk/><trk><trkseg/><trkseg></trkseg></trkseg_oops>").unwrap_err();
    assert!(matches!(doc, ParseError::Malformed));
    let doc = parse(b"<gpx><trk/><trk><trkseg/><trkseg></trkseg></trk></gpx>").unwrap();
    assert_eq!(doc.tracks.len(), 2);
    assert_eq!(doc.tracks[0].segments.len(), 0);
    assert_eq!(doc.tracks[1].segments.len(), 2);
    assert_eq!(doc.tracks[1].segments[0].points.len(), 0);
    assert_eq!(doc.tracks[1].segments[1].points.len(), 0);
    assert!(doc.tracks[0].name.is_none());
    assert!(doc.tracks[0].kind.is_none());
}

#[test]
fn absent_elevation_stays_none() {
    let doc =
        parse(b"<gpx><trk><trkseg><trkpt lat=\"1.5\" lon=\"-2.25\"/></trkseg></trk></gpx>")
            .unwrap();
    let p = &doc.tracks[0].segments[0].points[0];
    assert_eq!(p.coordinate.lat_nano, 1_500_000_000);
    assert_eq!(p.coordinate.lon_nano, -2_250_000_000);
    assert!(p.elevation.is_none());
}

#[test]
fn elevation_is_exact_nano() {
    let doc = parse(
        b"<gpx><trk><trkseg><trkpt lat=\"0\" lon=\"0\"><ele>23.6</ele></trkpt></trkseg></trk></gpx>",
    )
    .unwrap();
    let p = &doc.tracks[0].segments[0].points[0];
    assert_eq!(p.elevation, Some(23_600_000_000));
}

#[test]
fn fraction_digits_beyond_nine_are_dropped() {
    let doc = parse(
        b"<gpx><trk><trkseg><trkpt lat=\"0.1234567894\" lon=\"+3\"/></trkseg></trk></gpx>",
    )
    .unwrap();
    let p = &doc.tracks[0].segments[0].points[0];
    assert_eq!(p.coordinate.lat_nano, 123_456_789);
    assert_eq!(p.coordinate.lon_nano, 3_000_000_000);
}

#[test]
fn out_of_range_latitude_names_the_point() {
    let text = b"<gpx><trk><trkseg><trkpt lat=\"90.000000001\" lon=\"0\"/></trkseg></trk></gpx>";
    assert!(matches!(
        parse(text),
        Err(ParseError::InvalidCoordinate(0))
    ));
}

#[test]
fn second_bad_point_is_index_one() {
    let text = b"<gpx><trk><trkseg>\
        <trkpt lat=\"1\" lon=\"2\"/>\
        <trkpt lat=\"3\" lon=\"x\"/>\
        </trkseg></trk></gpx>";
    assert!(matches!(
        parse(text),
        Err(ParseError::InvalidCoordinate(1))
    ));
}

#[test]
fn bad_point_index_counts_across_tracks() {
    let text = b"<gpx>\
        <trk><trkseg><trkpt lat=\"1\" lon=\"2\"/><trkpt lat=\"1\" lon=\"2\"/></trkseg></trk>\
        <trk><trkseg><trkpt lat=\"200\" lon=\"2\"/></trkseg></trk>\
        </gpx>";
    assert!(matches!(
        parse(text),
        Err(ParseError::InvalidCoordinate(2))
    ));
}

#[test]
fn missing_lat_or_lon_is_malformed() {
    assert!(matches!(
        parse(b"<gpx><trk><trkseg><trkpt lon=\"2\"/></trkseg></trk></gpx>"),
        Err(ParseError::Malformed)
    ));
    assert!(matches!(
        parse(b"<gpx><trk><trkseg><trkpt lat=\"2\"/></trkseg></trk></gpx>"),
        Err(ParseError::Malformed)
    ));
}

#[test]
fn unclosed_elements_are_malformed() {
    assert!(matches!(parse(b"<gpx>"), Err(ParseError::Malformed)));
    assert!(matches!(
        parse(b"<gpx><trk></gpx>"),
        Err(ParseError::Malformed)
    ));
    assert!(matches!(
        parse(b"<gpx><trk><trkseg></trkseg></trk>"),
        Err(ParseError::Malformed)
    ));
}

#[test]
fn trailing_content_is_malformed() {
    assert!(matches!(
        parse(b"<gpx></gpx>junk"),
        Err(ParseError::Malformed)
    ));
    assert!(parse(b"<gpx></gpx>   \n").is_ok());
}

#[test]
fn unknown_elements_are_skipped() {
    let text = b"<gpx><metadata><author><name>nobody</name></author></metadata>\
        <trk><desc>hilly</desc><trkseg>\
        <trkpt lat=\"1\" lon=\"2\"><extensions><power>5</power></extensions></trkpt>\
        </trkseg></trk></gpx>";
    let doc = parse(text).unwrap();
    assert_eq!(doc.tracks.len(), 1);
    assert_eq!(doc.tracks[0].segments[0].points.len(), 1);
    assert!(doc.tracks[0].name.is_none());
}

#[test]
fn bad_elevation_is_malformed() {
    assert!(matches!(
        parse(b"<gpx><trk><trkseg><trkpt lat=\"1\" lon=\"2\"><ele>high</ele></trkpt></trkseg></trk></gpx>"),
        Err(ParseError::Malformed)
    ));
}

#[test]
fn negative_and_signed_coordinates_parse_exactly() {
    let doc = parse(
        b"<gpx><trk><trkseg><trkpt lat=\"-89.999999999\" lon=\"+179.999999999\"/></trkseg></trk></gpx>",
    )
    .unwrap();
    let p = &doc.tracks[0].segments[0].points[0];
    assert_eq!(p.coordinate.lat_nano, -89_999_999_999);
    assert_eq!(p.coordinate.lon_nano, 179_999_999_999);
}

#[test]
fn longitude_over_limit_is_invalid() {
    assert!(matches!(
        parse(b"<gpx><trk><trkseg><trkpt lat=\"0\" lon=\"180.000000001\"/></trkseg></trk></gpx>"),
        Err(ParseError::InvalidCoordinate(0))
    ));
}

#[test]
fn single_quoted_attributes_parse() {
    let doc =
        parse(b"<gpx version='1.1'><trk><trkseg><trkpt lat='4' lon='5'/></trkseg></trk></gpx>")
            .unwrap();
    assert_eq!(
        doc.tracks[0].segments[0].points[0].coordinate,
        Coord {
            lat_nano: 4_000_000_000,
            lon_nano: 5_000_000_000,
        }
    );
}

#[test]
fn two_segments_keep_document_order() {
    let text = b"<gpx><trk><trkseg>\
        <trkpt lat=\"1\" lon=\"10\"/><trkpt lat=\"2\" lon=\"20\"/>\
        </trkseg><trkseg>\
        <trkpt lat=\"3\" lon=\"30\"/>\
        </trkseg></trk></gpx>";
    let doc = parse(text).unwrap();
    let flat: Vec<i64> = doc.tracks[0]
        .segments
        .iter()
        .flat_map(|s| s.points.iter().map(|p| p.coordinate.lat_nano))
        .collect();
    assert_eq!(
        flat,
        vec![1_000_000_000, 2_000_000_000, 3_000_000_000]
    );
}

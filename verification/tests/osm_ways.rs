use trackmap::osm::OsmDocument;
use trackmap::osm::OsmNd;
use trackmap::osm::OsmNode;
use trackmap::osm::OsmTag;
use trackmap::osm::OsmWay;

fn node(id: &str, lat_nano: i64, lon_nano: i64) -> OsmNode {
    OsmNode {
        id: id.to_string(),
        lat_nano,
        lon_nano,
    }
}

fn way(id: &str, refs: &[&str]) -> OsmWay {
    OsmWay {
        id: id.to_string(),
        nds: refs
            .iter()
            .map(|r| OsmNd {
                node_ref: r.to_string(),
            })
            .collect(),
        tags: vec![OsmTag {
            k: "highway".to_string(),
            v: "path".to_string(),
        }],
    }
}

#[test]
fn new_document_is_empty() {
    let d = OsmDocument::new();
    assert_eq!(d.nodes.len(), 0);
    assert_eq!(d.ways.len(), 0);
}

#[test]
fn points_resolve_in_reference_order() {
    let osm = OsmDocument {
        nodes: vec![node("a", 1, 10), node("b", 2, 20), node("c", 3, 30)],
        ways: vec![way("w", &["c", "a", "b"])],
    };
    let pts = osm.ways[0].points(&osm);
    assert_eq!(pts.len(), 3);
    assert_eq!(pts[0].lat_nano, 3);
    assert_eq!(pts[1].lat_nano, 1);
    assert_eq!(pts[2].lat_nano, 2);
}

#[test]
fn start_and_end_are_first_and_last() {
    let osm = OsmDocument {
        nodes: vec![node("a", 1, 10), node("b", 2, 20)],
        ways: vec![way("w", &["b", "a"]), way("empty", &[])],
    };
    let w = &osm.ways[0];
    assert_eq!(w.start(&osm).unwrap().id, "b");
    assert_eq!(w.end(&osm).unwrap().id, "a");
    let e = &osm.ways[1];
    assert!(e.start(&osm).is_none());
    assert!(e.end(&osm).is_none());
}

#[test]
fn duplicate_ids_resolve_to_the_first() {
    let osm = OsmDocument {
        nodes: vec![node("a", 1, 10), node("a", 2, 20)],
        ways: vec![way("w", &["a"])],
    };
    let pts = osm.ways[0].points(&osm);
    assert_eq!(pts[0].lat_nano, 1);
}

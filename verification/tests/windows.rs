use ocel_core::cells::StateWindow;
use ocel_core::features::{column_label, csv_escape, FeatureCell, FeatureColumn};
use ocel_core::document::OcelDocumentCore;
use ocel_core::error::OcelError;
use ocel_core::source::{FloatReadings, SourceLog};

const LOG_XML: &str = r#"<?xml version="1.0" encoding="UTF-8"?>
<log>
  <event-types>
    <event-type name="A"><attributes><attribute name="state" type="string"/></attributes></event-type>
    <event-type name="B"><attributes><attribute name="state" type="string"/></attributes></event-type>
  </event-types>
  <object-types>
    <object-type name="Order"><attributes/></object-type>
  </object-types>
  <events>
    <event id="e1" type="A" time="2024-01-01T00:00:00Z">
      <attributes><attribute name="state">Low</attribute></attributes>
      <objects><relationship object-id="o1" qualifier="order"/></objects>
    </event>
    <event id="e2" type="B" time="2024-01-01T01:00:00Z">
      <attributes><attribute name="state">High</attribute></attributes>
      <objects><relationship object-id="o1" qualifier="order"/></objects>
    </event>
    <event id="e3" type="A" time="2024-01-01T02:00:00Z">
      <attributes><attribute name="state">High</attribute></attributes>
      <objects><relationship object-id="o1" qualifier="order"/></objects>
    </event>
    <event id="e4" type="B" time="2024-01-01T03:00:00Z">
      <attributes><attribute name="state">Low</attribute></attributes>
      <objects><relationship object-id="o1" qualifier="order"/></objects>
    </event>
  </events>
  <objects>
    <object id="o1" type="Order"><attributes/></object>
  </objects>
</log>
"#;

fn load() -> OcelDocumentCore {
    let no_json: Result<SourceLog, OcelError> = Err(OcelError::new("not JSON".to_owned()));
    OcelDocumentCore::new(LOG_XML, Some("xml"), no_json, &FloatReadings::new()).expect("import")
}

#[test]
fn lifecycles_are_cut_into_sliding_windows() {
    let doc = load();
    let objects = doc.state_detection_objects("Order").expect("objects");
    assert_eq!(objects, vec![0]);
    let windows = doc.lifecycle_windows(&objects, 3);
    let cut: Vec<Vec<usize>> = windows.iter().map(|w| w.event_indices.clone()).collect();
    assert_eq!(cut, vec![vec![0, 1, 2], vec![1, 2, 3]]);
    let whole = doc.lifecycle_windows(&objects, 10);
    assert_eq!(whole.len(), 1);
    assert_eq!(whole[0].event_indices, vec![0, 1, 2, 3]);
    assert_eq!(
        doc.state_detection_objects("Truck").err().expect("error").message,
        "unknown object type 'Truck' for state detection"
    );
}

#[test]
fn boundary_windows_enter_and_leave_a_cell() {
    let doc = load();
    let windows = vec![
        StateWindow { object_index: 0, event_indices: vec![0, 1] },
        StateWindow { object_index: 0, event_indices: vec![1, 2] },
        StateWindow { object_index: 0, event_indices: vec![2, 3] },
    ];
    let cells = vec![(0, 0), (1, 0), (0, 0)];
    let b = doc.state_detection_boundary_windows(&windows, &cells, 1, 0);
    assert_eq!(b.entering_indices, vec![1]);
    assert_eq!(b.exiting_indices, vec![1]);
    assert_eq!(b.entering[0].source_cell, "S1-1");
    assert_eq!(b.entering[0].target_cell, "S2-1");
    assert_eq!(b.entering[0].start_event, "e2");
    assert_eq!(b.entering[0].end_event, "e3");
    assert_eq!(b.entering[0].activities, vec!["B".to_owned(), "A".to_owned()]);
    let g = doc.state_detection_cell_dfg(&windows, &cells, 0, 0);
    assert_eq!(g.title, "State Detection Cell S1-1");
    let w = |s: &str, t: &str| g.edges.iter().find(|e| e.source == s && e.target == t).map(|e| e.weight);
    assert_eq!(w("A", "B"), Some(2));
    assert_eq!(w("B", "A"), None);
    let listed = doc.state_detection_windows_dfg(&windows, &vec![1, 7], "Entering".to_owned(), "sub".to_owned());
    assert!(listed.edges.iter().any(|e| e.source == "B" && e.target == "A" && e.weight == 1));
}

#[test]
fn dominant_state_counts_then_recency() {
    let doc = load();
    // Low twice (positions 0 and 3), High twice (positions 1 and 2): Low was seen last.
    assert_eq!(doc.dominant_object_state(0), Some("Low".to_owned()));
}

#[test]
fn feature_columns_and_cells() {
    let doc = load();
    let objects = doc.state_detection_objects("Order").expect("objects");
    let encoder = doc.feature_encoder(&objects);
    assert_eq!(encoder.activities, vec!["A".to_owned(), "B".to_owned()]);
    assert!(encoder.related.is_empty());
    let labels: Vec<String> = encoder.columns.iter().map(column_label).collect();
    assert_eq!(labels, vec!["activity.A".to_owned(), "activity.B".to_owned()]);
    let cells = doc.window_feature_cells(0, &vec![0, 1, 2], &encoder.columns);
    let counts: Vec<usize> = cells
        .iter()
        .map(|c| match c {
            FeatureCell::Count(n) => *n,
            _ => panic!("count"),
        })
        .collect();
    assert_eq!(counts, vec![2, 1]);
    let numeric = vec![FeatureColumn::NumericAttribute("missing".to_owned())];
    match &doc.feature_cells_at(0, &vec![0], i64::MAX, &numeric)[0] {
        FeatureCell::Value(v) => assert!(v.is_none()),
        _ => panic!("value"),
    }
}

#[test]
fn csv_fields_are_quoted_when_needed() {
    assert_eq!(csv_escape("plain"), "plain");
    assert_eq!(csv_escape("a,b"), "\"a,b\"");
    assert_eq!(csv_escape("say \"hi\""), "\"say \"\"hi\"\"\"");
}

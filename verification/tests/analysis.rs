use ocel_core::document::OcelDocumentCore;
use ocel_core::dfg::GraphFilterRequest;
use ocel_core::error::OcelError;
use ocel_core::json::JsonValue;
use ocel_core::kpis::{StateTransitionKpiRequest, is_recovery_transition};
use ocel_core::perf::TimePerspectiveRequest;
use ocel_core::search::ObjectSearchRequest;
use ocel_core::source::{FloatReadings, SourceLog};
use ocel_core::state_labels::StateAssignment;

const T0: i64 = 1_704_067_200_000;
const HOUR: i64 = 3_600_000;

const LOG_XML: &str = r#"<?xml version="1.0" encoding="UTF-8"?>
<log>
  <event-types>
    <event-type name="Create">
      <attributes>
        <attribute name="state" type="string"/>
      </attributes>
    </event-type>
    <event-type name="Pay">
      <attributes>
        <attribute name="state" type="string"/>
        <attribute name="stock_level" type="integer"/>
      </attributes>
    </event-type>
    <event-type name="Ship">
      <attributes>
        <attribute name="state" type="string"/>
      </attributes>
    </event-type>
  </event-types>
  <object-types>
    <object-type name="Order">
      <attributes>
        <attribute name="priority" type="string"/>
      </attributes>
    </object-type>
    <object-type name="Item">
      <attributes/>
    </object-type>
  </object-types>
  <events>
    <event id="e1" type="Create" time="2024-01-01T00:00:00Z">
      <attributes>
        <attribute name="state">Normal</attribute>
      </attributes>
      <objects>
        <relationship object-id="o1" qualifier="order"/>
        <relationship object-id="i1" qualifier="item"/>
      </objects>
    </event>
    <event id="e2" type="Pay" time="2024-01-01T01:00:00Z">
      <attributes>
        <attribute name="state">Blocked</attribute>
        <attribute name="stock_level">5</attribute>
      </attributes>
      <objects>
        <relationship object-id="o1" qualifier="order"/>
      </objects>
    </event>
    <event id="e3" type="Ship" time="2024-01-01T03:00:00Z">
      <attributes>
        <attribute name="state">Normal</attribute>
      </attributes>
      <objects>
        <relationship object-id="o1" qualifier="order"/>
      </objects>
    </event>
    <event id="e4" type="Create" time="2024-01-01T00:30:00Z">
      <attributes>
        <attribute name="state">Normal</attribute>
      </attributes>
      <objects>
        <relationship object-id="o2" qualifier="order"/>
      </objects>
    </event>
    <event id="e5" type="Pay" time="2024-01-01T02:30:00Z">
      <attributes>
        <attribute name="state">Available</attribute>
      </attributes>
      <objects>
        <relationship object-id="o2" qualifier="order"/>
      </objects>
    </event>
  </events>
  <objects>
    <object id="o1" type="Order">
      <attributes>
        <attribute name="priority" time="2024-01-01T00:00:00Z">high</attribute>
      </attributes>
    </object>
    <object id="o2" type="Order">
      <attributes>
        <attribute name="priority" time="2024-01-01T00:00:00Z">low</attribute>
      </attributes>
    </object>
    <object id="i1" type="Item">
      <attributes/>
    </object>
  </objects>
</log>
"#;

fn no_json() -> Result<SourceLog, OcelError> {
    Err(OcelError::new("not read as JSON".to_owned()))
}

fn load() -> OcelDocumentCore {
    OcelDocumentCore::new(LOG_XML, Some("xml"), no_json(), &FloatReadings::new()).expect("import")
}

fn member<'a>(j: &'a JsonValue, key: &str) -> &'a JsonValue {
    match j {
        JsonValue::Object(ms) => &ms.iter().find(|(k, _)| k == key).expect("member").1,
        _ => panic!("not an object"),
    }
}

fn items(j: &JsonValue) -> &Vec<JsonValue> {
    match j {
        JsonValue::Array(v) => v,
        _ => panic!("not an array"),
    }
}

fn text(j: &JsonValue) -> &str {
    match j {
        JsonValue::Str(s) => s.as_str(),
        _ => panic!("not a string"),
    }
}

fn count(j: &JsonValue) -> usize {
    match j {
        JsonValue::Count(n) => *n,
        _ => panic!("not a count"),
    }
}

fn integer(j: &JsonValue) -> i64 {
    match j {
        JsonValue::Int(n) => *n,
        _ => panic!("not an integer"),
    }
}

#[test]
fn transition_kpis_of_orders() {
    let doc = load();
    let req = StateTransitionKpiRequest { object_type: Some("Order".to_owned()), stuck_limit: None };
    let k = doc.state_transition_kpis_json(&req).expect("kpis");
    assert_eq!(k.object_type, "Order");
    assert_eq!(k.object_count, 2);
    assert_eq!(k.stateful_object_count, 2);
    assert_eq!(k.states, vec!["Available".to_owned(), "Blocked".to_owned(), "Normal".to_owned()]);
    let keys: Vec<(String, String)> = k.transitions.iter().map(|r| (r.from_state.clone(), r.to_state.clone())).collect();
    assert_eq!(
        keys,
        vec![
            ("Blocked".to_owned(), "Normal".to_owned()),
            ("Normal".to_owned(), "Available".to_owned()),
            ("Normal".to_owned(), "Blocked".to_owned()),
        ]
    );
    assert_eq!(k.transitions[0].durations, vec![2 * HOUR]);
    assert_eq!(k.transitions[1].durations, vec![2 * HOUR]);
    assert_eq!(k.transitions[2].durations, vec![HOUR]);
    assert_eq!(k.transitions[2].stats.median_duration_ms, Some(HOUR));
    let dwell: Vec<&str> = k.dwell.iter().map(|r| r.state.as_str()).collect();
    assert_eq!(dwell, vec!["Normal", "Blocked", "Available"]);
    assert_eq!(k.dwell[0].durations, vec![0, HOUR, 2 * HOUR]);
    assert_eq!(k.dwell[0].total_duration_ms, 3 * HOUR);
    assert_eq!(k.dwell[0].object_count, 2);
    assert_eq!(k.dwell[0].stats.median_duration_ms, Some(HOUR));
    let rec: Vec<(&str, &str)> = k.recovery.iter().map(|r| (r.from_state.as_str(), r.to_state.as_str())).collect();
    assert_eq!(rec, vec![("Blocked", "Normal"), ("Normal", "Available")]);
    let stuck: Vec<(&str, &str, i64)> = k.stuck.iter().map(|r| (r.object_id.as_str(), r.state.as_str(), r.duration_ms)).collect();
    assert_eq!(stuck, vec![("o1", "Normal", 0), ("o2", "Available", 0)]);
    assert_eq!(k.stuck[0].entered_time_ms, T0 + 3 * HOUR);
    assert_eq!(k.stuck[0].event_count, 1);
}

#[test]
fn transition_kpis_limit_and_errors() {
    let doc = load();
    let req = StateTransitionKpiRequest { object_type: Some("Order".to_owned()), stuck_limit: Some(0) };
    let k = doc.state_transition_kpis_json(&req).expect("kpis");
    assert_eq!(k.stuck.len(), 1);
    let plain = OcelDocumentCore::new(
        LOG_XML.replace("name=\"state\"", "name=\"phase\"").as_str(),
        Some("xml"),
        no_json(),
        &FloatReadings::new(),
    )
    .expect("import");
    let err = plain.state_transition_kpis_json(&req).err().expect("error");
    assert_eq!(err.message, "event state attribute is missing; apply a state query first");
}

#[test]
fn recovery_transitions_need_a_recovery_target() {
    assert!(is_recovery_transition("Blocked", "Back To NORMAL"));
    assert!(is_recovery_transition("Down", "available"));
    assert!(is_recovery_transition("Rush", "Standard shipping"));
    assert!(!is_recovery_transition("Normal", "Normal"));
    assert!(!is_recovery_transition("Normal", "Blocked"));
}

#[test]
fn duration_stats_sort_and_pick_the_middle() {
    let (sorted, stats) = ocel_core::kpis::duration_stats(vec![30, 10, 20, 40]);
    assert_eq!(sorted, vec![10, 20, 30, 40]);
    assert_eq!(stats.sample_count, 4);
    assert_eq!(stats.min_duration_ms, Some(10));
    assert_eq!(stats.median_duration_ms, Some(30));
    assert_eq!(stats.max_duration_ms, Some(40));
    let (empty, none) = ocel_core::kpis::duration_stats(Vec::new());
    assert!(empty.is_empty());
    assert_eq!(none.median_duration_ms, None);
}

#[test]
fn time_perspective_picks_the_most_frequent_change() {
    let doc = load();
    let req = TimePerspectiveRequest {
        object_type: Some("Order".to_owned()),
        buckets: Some(200),
        from_state: None,
        to_state: None,
        roundtrip: false,
    };
    let t = doc.time_perspective_json(&req).expect("perspective");
    assert_eq!(t.event_min_ms, T0);
    assert_eq!(t.event_max_ms, T0 + 3 * HOUR);
    assert_eq!(t.bucket_count, 96);
    assert_eq!(t.states, vec!["Available".to_owned(), "Blocked".to_owned(), "Normal".to_owned()]);
    assert_eq!(t.stateful_events.len(), 5);
    assert_eq!(t.stateful_events[1], (T0 + HOUR, "Blocked".to_owned()));
    assert_eq!(t.performance.from_state, "Blocked");
    assert_eq!(t.performance.to_state, "Normal");
    assert_eq!(t.performance.samples.len(), 1);
    assert_eq!(t.performance.samples[0].object_id, "o1");
    assert_eq!(t.performance.samples[0].duration_ms, 2 * HOUR);
    assert_eq!(t.performance.stats.median_duration_ms, Some(2 * HOUR));
}

#[test]
fn round_trip_passages_need_a_return() {
    let doc = load();
    let req = TimePerspectiveRequest {
        object_type: Some("Order".to_owned()),
        buckets: None,
        from_state: Some("Normal".to_owned()),
        to_state: Some("Blocked".to_owned()),
        roundtrip: true,
    };
    let t = doc.time_perspective_json(&req).expect("perspective");
    assert_eq!(t.bucket_count, 24);
    assert_eq!(t.performance.samples.len(), 1);
    assert_eq!(t.performance.samples[0].end_time_ms, Some(T0 + 3 * HOUR));
    assert_eq!(t.performance.samples[0].duration_ms, 3 * HOUR);
}

#[test]
fn lifecycle_detail_of_an_order() {
    let doc = load();
    let d = doc.object_lifecycle_detail_json("o1").expect("detail");
    assert_eq!(text(member(&d, "object_type")), "Order");
    assert_eq!(count(member(&d, "event_count")), 3);
    assert_eq!(integer(member(&d, "event_min_ms")), T0);
    assert_eq!(integer(member(&d, "event_max_ms")), T0 + 3 * HOUR);
    let bands = items(member(&d, "state_bands"));
    let states: Vec<&str> = bands.iter().map(|b| text(member(b, "state"))).collect();
    assert_eq!(states, vec!["Normal", "Blocked", "Normal"]);
    let stock = items(member(&d, "stock_points"));
    assert_eq!(stock.len(), 1);
    assert_eq!(text(member(&stock[0], "name")), "stock_level");
    match member(&stock[0], "value") {
        JsonValue::Float(v) => assert_eq!(v, "5"),
        _ => panic!("float"),
    }
    let related = items(member(&d, "related_objects"));
    assert_eq!(related.len(), 1);
    assert_eq!(text(member(&related[0], "object_id")), "i1");
    assert_eq!(text(member(&related[0], "qualifier")), "item");
    assert_eq!(count(member(&related[0], "event_count")), 1);
    let err = doc.object_lifecycle_detail_json("nope").err().expect("error");
    assert_eq!(err.message, "object id 'nope' was not found in the active log");
}

#[test]
fn object_search_by_query_and_type() {
    let doc = load();
    let req = ObjectSearchRequest { query: Some("  O ".to_owned()), object_type: None, limit: None };
    let r = doc.object_search_json(&req);
    let ids: Vec<&str> = items(member(&r, "objects")).iter().map(|h| text(member(h, "object_id"))).collect();
    assert_eq!(ids, vec!["o1", "o2"]);
    let req = ObjectSearchRequest { query: None, object_type: Some("Item".to_owned()), limit: Some(0) };
    let r = doc.object_search_json(&req);
    let hits = items(member(&r, "objects"));
    assert_eq!(hits.len(), 1);
    assert_eq!(text(member(&hits[0], "object_id")), "i1");
}

#[test]
fn filter_options_list_types_values_and_times() {
    let doc = load();
    let o = doc.filter_options_json();
    assert_eq!(o.event_types, vec!["Create".to_owned(), "Pay".to_owned(), "Ship".to_owned()]);
    assert_eq!(o.object_types, vec!["Order".to_owned(), "Item".to_owned()]);
    assert_eq!(o.time_min_ms, Some(T0));
    assert_eq!(o.time_max_ms, Some(T0 + 3 * HOUR));
    let keys: Vec<(&str, &str)> = o.text_attributes.iter().map(|t| (t.scope.as_str(), t.name.as_str())).collect();
    assert_eq!(keys, vec![("event", "state"), ("object", "priority")]);
    assert_eq!(o.text_attributes[0].values, vec!["Available".to_owned(), "Blocked".to_owned(), "Normal".to_owned()]);
    assert_eq!(o.text_attributes[1].values, vec!["high".to_owned(), "low".to_owned()]);
}

#[test]
fn directly_follows_graph_counts_steps() {
    let doc = load();
    let g = doc.directly_follows_graph_json("Order").expect("graph");
    assert_eq!(g.title, "Directly-Follows Graph: Order");
    let w = |s: &str, t: &str| g.edges.iter().find(|e| e.source == s && e.target == t).map(|e| e.weight);
    assert_eq!(w("Create", "Pay"), Some(2));
    assert_eq!(w("Pay", "Ship"), Some(1));
    let err = doc.directly_follows_graph_json("Truck").err().expect("error");
    assert_eq!(err.message, "unknown leading object type 'Truck'");
    let all = doc.object_centric_directly_follows_graph_json();
    assert!(all.edges.iter().any(|e| e.source == "Create" && e.target == "Pay" && e.weight == 2));
    let mut req = GraphFilterRequest::all();
    req.min_path_frequency = 2;
    let filtered = doc.filtered_object_centric_directly_follows_graph_json(&req);
    assert!(filtered.edges.iter().all(|e| e.weight >= 2));
}

#[test]
fn state_labels_replace_earlier_states() {
    let mut doc = load();
    let states = vec![StateAssignment { event_id: ocel_core::pool::Symbol(0), state: "ignored".to_owned() }];
    let err = doc.apply_state_detection("Truck", &states).err().expect("error");
    assert_eq!(err.message, "unknown leading object type 'Truck'");
    let r = doc.apply_state_detection("Order", &Vec::new()).expect("apply");
    assert_eq!(count(member(&r, "assigned_events")), 0);
    assert_eq!(count(member(&r, "total_events")), 5);
    assert_eq!(text(member(&r, "attribute")), "state");
    let s = doc.summary_json();
    assert_eq!(count(member(&s, "stateful_events")), 0);
}

#[test]
fn state_detection_votes_label_events() {
    let doc = load();
    // Windows over event positions 0..2 and 1..3, assigned to two cells.
    let windows = vec![vec![0, 1], vec![1, 2]];
    let cells = vec![(0, 1), (2, 0)];
    let states = doc.state_detection_assignments(&windows, &cells);
    let labels: Vec<&str> = states.iter().map(|a| a.state.as_str()).collect();
    // Event 1 has one vote each; the later window wins.
    assert_eq!(labels, vec!["S1-2", "S3-1", "S3-1"]);
    let mut doc = doc;
    let r = doc.apply_state_detection("Order", &states).expect("apply");
    assert_eq!(count(member(&r, "assigned_events")), 3);
    let again = doc.apply_state_detection("Order", &states).expect("apply again");
    assert_eq!(count(member(&again, "assigned_events")), 3);
}

#[test]
fn cell_labels_and_map_sizes() {
    assert_eq!(ocel_core::votes::cell_label(0, 0), "S1-1");
    assert_eq!(ocel_core::votes::cell_label(9, 11), "S10-12");
    assert_eq!(ocel_core::votes::default_som_dimensions(0, None, None), (3, 3));
    assert_eq!(ocel_core::votes::default_som_dimensions(17, None, None), (5, 5));
    assert_eq!(ocel_core::votes::default_som_dimensions(1000, Some(1), Some(40)), (2, 12));
}

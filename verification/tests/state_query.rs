use ocel_core::document::OcelDocumentCore;
use ocel_core::error::OcelError;
use ocel_core::filter::OcelFilterRequest;
use ocel_core::json::JsonValue;
use ocel_core::source::{FloatReadings, SourceLog};
use ocel_core::state_query::{parse_state_query, CompareOp, Cond, Field, Operand};

const LOG_XML: &str = r#"<?xml version="1.0" encoding="UTF-8"?>
<log>
  <event-types>
    <event-type name="Create"><attributes/></event-type>
    <event-type name="Pay">
      <attributes>
        <attribute name="stock_level" type="integer"/>
      </attributes>
    </event-type>
    <event-type name="Ship"><attributes/></event-type>
    <event-type name="Cancel Order"><attributes/></event-type>
  </event-types>
  <object-types>
    <object-type name="Order">
      <attributes>
        <attribute name="status" type="string"/>
      </attributes>
    </object-type>
    <object-type name="Item"><attributes/></object-type>
  </object-types>
  <events>
    <event id="e1" type="Create" time="2024-01-01T00:00:00Z">
      <objects>
        <relationship object-id="o1" qualifier="order"/>
        <relationship object-id="i1" qualifier="item"/>
      </objects>
    </event>
    <event id="e2" type="Pay" time="2024-01-01T01:00:00Z">
      <attributes>
        <attribute name="stock_level">5</attribute>
      </attributes>
      <objects>
        <relationship object-id="o1" qualifier="order"/>
      </objects>
    </event>
    <event id="e3" type="Ship" time="2024-01-01T03:00:00Z">
      <objects>
        <relationship object-id="o1" qualifier="order"/>
      </objects>
    </event>
    <event id="e4" type="Cancel Order" time="2024-01-01T00:30:00Z">
      <objects>
        <relationship object-id="o2" qualifier="order"/>
      </objects>
    </event>
    <event id="e5" type="Pay" time="2024-01-01T02:30:00Z">
      <attributes>
        <attribute name="stock_level">2</attribute>
      </attributes>
      <objects>
        <relationship object-id="i1" qualifier="item"/>
      </objects>
    </event>
  </events>
  <objects>
    <object id="o1" type="Order">
      <attributes>
        <attribute name="status" time="2024-01-01T02:00:00Z">open</attribute>
      </attributes>
    </object>
    <object id="o2" type="Order"><attributes/></object>
    <object id="i1" type="Item"><attributes/></object>
  </objects>
</log>
"#;

const QUERY: &str = "STATE state FOR LEADING OBJECT TYPE 'Order' AS CASE
  WHEN object.status IS NOT NULL THEN object.status
  WHEN event.type LIKE '%cancel%' THEN 'Exception'
  WHEN event.stock_level >= 5 THEN 'Stocked'
  ELSE 'Normal'
END";

fn no_json() -> Result<SourceLog, OcelError> {
    Err(OcelError::new("not read as JSON".to_owned()))
}

fn load() -> OcelDocumentCore {
    OcelDocumentCore::new(LOG_XML, Some("xml"), no_json(), &FloatReadings::new()).expect("import")
}

fn member<'a>(j: &'a JsonValue, key: &str) -> &'a JsonValue {
    match j {
        JsonValue::Object(ms) => &ms.iter().find(|(k, _)| k == key).expect("member").1,
        _ => panic!("not an object"),
    }
}

fn count(j: &JsonValue) -> usize {
    match j {
        JsonValue::Count(n) => *n,
        _ => panic!("not a count"),
    }
}

fn text(j: &JsonValue) -> &str {
    match j {
        JsonValue::Str(s) => s.as_str(),
        _ => panic!("not a string"),
    }
}

fn states_of(doc: &OcelDocumentCore, query: &str) -> Vec<Option<String>> {
    let q = parse_state_query(query).expect("parse");
    doc.active_log().evaluate_state_query(&q)
}

#[test]
fn readme_query_parses() {
    let q = parse_state_query(QUERY).expect("parse");
    assert_eq!(q.attribute_name, "state");
    assert_eq!(q.leading_object_type, "Order");
    assert_eq!(q.branches.len(), 3);
    assert!(matches!(q.else_value, Some(Operand::Text(ref t)) if t == "Normal"));
    assert!(matches!(q.branches[0].condition, Cond::IsNull(Operand::Field(Field::ObjectAttr(ref n)), true) if n == "status"));
    assert!(matches!(q.branches[2].condition, Cond::Compare(Operand::Field(Field::EventAttr(_)), CompareOp::Ge, Operand::Int(5))));
}

#[test]
fn keywords_ignore_case_and_operators_nest() {
    let q = parse_state_query(
        "state s for leading object type 'Item' as case when not (event.id = 'e1' or event.time <> 3) and object.id is null then true end",
    )
    .expect("parse");
    assert!(q.else_value.is_none());
    match &q.branches[0].condition {
        Cond::And(a, b) => {
            assert!(matches!(**a, Cond::Not(_)));
            assert!(matches!(**b, Cond::IsNull(Operand::Field(Field::ObjectId), false)));
        }
        _ => panic!("expected AND"),
    }
    assert!(matches!(q.branches[0].value, Operand::Bool(true)));
}

#[test]
fn malformed_queries_are_refused() {
    for bad in [
        "",
        "STATE state FOR LEADING OBJECT TYPE 'Order' AS CASE",
        "STATE state FOR LEADING OBJECT TYPE 'Order AS CASE END",
        "STATE state FOR LEADING OBJECT TYPE 'Order' AS CASE WHEN event.type ! 'x' THEN 'a' END",
        "STATE state FOR LEADING OBJECT TYPE 'Order' AS CASE WHEN (event.type = 'x' THEN 'a' END",
        "STATE state FOR LEADING OBJECT TYPE 'Order' AS CASE WHEN event.type = 'x' THEN 'a' END extra",
        "STATE state FOR LEADING OBJECT TYPE Order AS CASE END",
    ] {
        let err = parse_state_query(bad).err().expect("error");
        assert_eq!(err.message, "could not parse state query");
    }
    assert!(parse_state_query("STATE state FOR LEADING OBJECT TYPE 'Order' AS CASE END").is_ok());
}

#[test]
fn query_gives_each_event_its_state() {
    let doc = load();
    let states = states_of(&doc, QUERY);
    let expected = vec![
        Some("Normal".to_owned()),
        Some("Stocked".to_owned()),
        Some("open".to_owned()),
        Some("Exception".to_owned()),
        None,
    ];
    assert_eq!(states, expected);
}

#[test]
fn comparisons_follow_numbers_and_texts() {
    let doc = load();
    let q = "STATE s FOR LEADING OBJECT TYPE 'Order' AS CASE WHEN event.time < 1704070800000 THEN 'early' WHEN event.type > 'Pay' THEN 'late-name' END";
    let states = states_of(&doc, q);
    assert_eq!(states[0], Some("early".to_owned()));
    assert_eq!(states[1], None);
    assert_eq!(states[2], Some("late-name".to_owned()));
    assert_eq!(states[3], Some("early".to_owned()));
    let unknown = "STATE s FOR LEADING OBJECT TYPE 'Truck' AS CASE ELSE 'x' END";
    assert_eq!(states_of(&doc, unknown), vec![None, None, None, None, None]);
    let else_object = "STATE s FOR LEADING OBJECT TYPE 'Order' AS CASE ELSE object.id END";
    assert_eq!(states_of(&doc, else_object)[3], Some("o2".to_owned()));
}

#[test]
fn applying_a_query_writes_the_attribute() {
    let mut doc = load();
    let r = doc.apply_state_query(QUERY).expect("apply");
    assert_eq!(text(member(&r, "attribute")), "state");
    assert_eq!(text(member(&r, "leading_object_type")), "Order");
    assert_eq!(count(member(&r, "assigned_events")), 4);
    assert_eq!(count(member(&r, "total_events")), 5);
    let s = doc.summary_json();
    assert_eq!(count(member(&s, "stateful_events")), 4);
    let again = doc.apply_state_query(QUERY).expect("apply again");
    assert_eq!(count(member(&again, "assigned_events")), 4);
    assert!(doc.state_aware_ocdfg_json().is_ok());
}

#[test]
fn refused_queries_leave_the_document() {
    let mut doc = load();
    let err = doc.apply_state_query("STATE state FOR").err().expect("error");
    assert_eq!(err.message, "could not parse state query");
    let err = doc
        .apply_state_query("STATE state FOR LEADING OBJECT TYPE 'Truck' AS CASE ELSE 'x' END")
        .err()
        .expect("error");
    assert_eq!(err.message, "unknown leading object type 'Truck'");
    let s = doc.summary_json();
    assert_eq!(count(member(&s, "stateful_events")), 0);
    assert!(doc.state_aware_ocdfg_json().is_err());
}

#[test]
fn unknown_type_names_select_nothing() {
    let mut doc = load();
    let mut f = OcelFilterRequest::all_for(doc.original_log());
    f.event_types = vec!["Create".to_owned(), "Nope".to_owned(), "Other".to_owned(), "Else".to_owned()];
    let s = doc.apply_filter(f);
    assert_eq!(count(member(&s, "events")), 1);
    assert_eq!(count(member(&s, "event_types")), 1);
}

#[test]
fn state_correlation_counts_follow_dominant_states() {
    let mut doc = load();
    let err = doc.state_correlations_json().err().expect("error");
    assert_eq!(err.message, "event state attribute is missing; apply a state query first");
    doc.apply_state_query(QUERY).expect("apply");
    let c = doc.state_correlations_json().expect("counts");
    assert_eq!(c.object_type, "Order");
    assert_eq!(c.objects.len(), 2);
    assert_eq!(c.states, vec![Some("open".to_owned()), Some("Exception".to_owned())]);
    assert_eq!(c.distribution, vec![("Exception".to_owned(), 1), ("open".to_owned(), 1)]);
    assert_eq!(c.stateful_object_count, 2);
}

use ocel_core::document::OcelDocumentCore;
use ocel_core::error::OcelError;
use ocel_core::json::JsonValue;
use ocel_core::source::{FloatReadings, SourceLog};

const SAMPLE_XML: &str = r#"<?xml version="1.0" encoding="UTF-8"?>
<log>
  <event-types>
    <event-type name="Create Order">
      <attributes>
        <attribute name="state" type="string"/>
      </attributes>
    </event-type>
    <event-type name="Ship">
      <attributes>
        <attribute name="state" type="string"/>
      </attributes>
    </event-type>
  </event-types>
  <object-types>
    <object-type name="Order">
      <attributes>
        <attribute name="status" type="string"/>
      </attributes>
    </object-type>
    <object-type name="Item">
      <attributes/>
    </object-type>
  </object-types>
  <events>
    <event id="e1" type="Create Order" time="2024-01-01T10:00:00Z">
      <attributes>
        <attribute name="state">Normal</attribute>
      </attributes>
      <objects>
        <relationship object-id="o1" qualifier="order"/>
        <relationship object-id="i1" qualifier="item"/>
      </objects>
    </event>
    <event id="e2" type="Ship" time="2024-01-02T10:00:00Z">
      <attributes>
        <attribute name="state">Late</attribute>
      </attributes>
      <objects>
        <relationship object-id="o1" qualifier="order"/>
      </objects>
    </event>
  </events>
  <objects>
    <object id="o1" type="Order">
      <attributes>
        <attribute name="status" time="2024-01-01T10:00:00Z">open</attribute>
      </attributes>
      <objects>
        <relationship object-id="i1" qualifier="contains"/>
      </objects>
    </object>
    <object id="i1" type="Item">
      <attributes/>
    </object>
  </objects>
</log>
"#;

fn no_json() -> Result<SourceLog, OcelError> {
    Err(OcelError::new("not read as JSON".to_owned()))
}

fn member<'a>(j: &'a JsonValue, key: &str) -> &'a JsonValue {
    match j {
        JsonValue::Object(ms) => &ms.iter().find(|(k, _)| k == key).expect("member").1,
        _ => panic!("not an object"),
    }
}

fn count(j: &JsonValue) -> usize {
    match j {
        JsonValue::Count(n) => *n,
        _ => panic!("not a count"),
    }
}

fn load() -> OcelDocumentCore {
    OcelDocumentCore::new(SAMPLE_XML, Some("xml"), no_json(), &FloatReadings::new()).expect("import")
}

#[test]
fn xml_import_counts() {
    let doc = load();
    let s = doc.summary_json();
    assert_eq!(count(member(&s, "event_types")), 2);
    assert_eq!(count(member(&s, "object_types")), 2);
    assert_eq!(count(member(&s, "events")), 2);
    assert_eq!(count(member(&s, "objects")), 2);
    assert_eq!(count(member(&s, "e2o_relationships")), 3);
    assert_eq!(count(member(&s, "o2o_relationships")), 1);
    assert_eq!(count(member(&s, "stateful_events")), 2);
    assert_eq!(count(member(&s, "objects_with_lifecycle")), 2);
}

#[test]
fn lifecycle_lists_event_ids_in_time_order() {
    let doc = load();
    match doc.object_lifecycle_json("o1").expect("lifecycle") {
        JsonValue::Array(items) => {
            let ids: Vec<String> = items
                .iter()
                .map(|j| match j {
                    JsonValue::Str(s) => s.clone(),
                    _ => panic!("id"),
                })
                .collect();
            assert_eq!(ids, vec!["e1".to_owned(), "e2".to_owned()]);
        }
        _ => panic!("array"),
    }
    let err = doc.object_lifecycle_json("missing").err().expect("error");
    assert_eq!(err.message, "object id 'missing' was not found in the log");
}

#[test]
fn xml_export_round_trips() {
    let doc = load();
    let text = doc.export_xml().expect("export");
    assert!(text.starts_with("<?xml version=\"1.0\" encoding=\"UTF-8\"?>\n<log>\n"));
    assert!(text.contains("    <event id=\"e1\" type=\"Create Order\" time=\"2024-01-01T10:00:00Z\">\n"));
    let again = OcelDocumentCore::new(&text, None, no_json(), &FloatReadings::new()).expect("reimport");
    assert_eq!(again.export_xml().expect("export again"), text);
}

#[test]
fn unknown_format_is_refused() {
    let err = OcelDocumentCore::new("   ", None, no_json(), &FloatReadings::new()).err().expect("error");
    assert_eq!(err.message, "cannot import an empty OCEL file");
    let err = OcelDocumentCore::new("hello", None, no_json(), &FloatReadings::new()).err().expect("error");
    assert_eq!(err.message, "could not detect OCEL format; expected JSON or XML input");
}

#[test]
fn state_patterns_group_episodes() {
    let doc = load();
    let p = doc.state_patterns_json().expect("patterns");
    let intra = match member(&p, "intra") {
        JsonValue::Array(v) => v,
        _ => panic!("array"),
    };
    let inter = match member(&p, "inter") {
        JsonValue::Array(v) => v,
        _ => panic!("array"),
    };
    // o1: Normal then Late gives two intra episodes and one change; i1: one Normal episode.
    assert_eq!(intra.len(), 3);
    assert_eq!(inter.len(), 1);
    match member(&inter[0], "label") {
        JsonValue::Str(s) => assert_eq!(s, "Normal -> Late on Order"),
        _ => panic!("label"),
    }
    match member(&inter[0], "id") {
        JsonValue::Str(s) => assert_eq!(s, "inter-1"),
        _ => panic!("id"),
    }
}

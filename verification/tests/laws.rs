use ocel_core::document::OcelDocumentCore;
use ocel_core::error::OcelError;
use ocel_core::filter::OcelFilterRequest;
use ocel_core::json::JsonValue;
use ocel_core::model::CompactOcelLog;
use ocel_core::source::{FloatReadings, SourceLog};

const LOG_XML: &str = r#"<?xml version="1.0" encoding="UTF-8"?>
<log>
  <event-types>
    <event-type name="A"><attributes/></event-type>
    <event-type name="B"><attributes/></event-type>
  </event-types>
  <object-types>
    <object-type name="T"><attributes/></object-type>
    <object-type name="U"><attributes/></object-type>
  </object-types>
  <events>
    <event id="e1" type="A" time="2024-01-01T00:00:00Z">
      <objects><relationship object-id="o1" qualifier="q"/></objects>
    </event>
    <event id="e2" type="B" time="2024-01-01T01:00:00Z">
      <objects>
        <relationship object-id="o1" qualifier="q"/>
        <relationship object-id="u1" qualifier="q"/>
      </objects>
    </event>
    <event id="e3" type="A" time="2024-01-01T02:00:00Z">
      <objects><relationship object-id="u1" qualifier="q"/></objects>
    </event>
  </events>
  <objects>
    <object id="o1" type="T"><attributes/></object>
    <object id="u1" type="U"><attributes/></object>
  </objects>
</log>
"#;

fn no_json() -> Result<SourceLog, OcelError> {
    Err(OcelError::new("not read as JSON".to_owned()))
}

fn load() -> OcelDocumentCore {
    OcelDocumentCore::new(LOG_XML, Some("xml"), no_json(), &FloatReadings::new()).expect("import")
}

fn render(j: &JsonValue) -> String {
    match j {
        JsonValue::Null => "null".to_owned(),
        JsonValue::Bool(b) => b.to_string(),
        JsonValue::Int(i) => i.to_string(),
        JsonValue::Count(n) => n.to_string(),
        JsonValue::Float(t) => t.clone(),
        JsonValue::Str(s) => format!("{s:?}"),
        JsonValue::Array(v) => format!("[{}]", v.iter().map(render).collect::<Vec<_>>().join(",")),
        JsonValue::Object(ms) => format!("{{{}}}", ms.iter().map(|(k, v)| format!("{k:?}:{}", render(v))).collect::<Vec<_>>().join(",")),
    }
}

fn types_filter(log: &CompactOcelLog, events: &[&str], objects: &[&str]) -> OcelFilterRequest {
    let mut f = OcelFilterRequest::all_for(log);
    f.event_types = events.iter().map(|s| (*s).to_owned()).collect();
    f.object_types = objects.iter().map(|s| (*s).to_owned()).collect();
    f
}

fn count_of(j: &JsonValue, key: &str) -> usize {
    match j {
        JsonValue::Object(ms) => match &ms.iter().find(|(k, _)| k == key).expect("member").1 {
            JsonValue::Count(n) => *n,
            _ => panic!("not a count"),
        },
        _ => panic!("not an object"),
    }
}

#[test]
fn fresh_document_summaries_agree() {
    let doc = load();
    assert_eq!(render(&doc.summary_json()), render(&doc.original_summary_json()));
}

#[test]
fn filters_do_not_stack() {
    let mut d1 = load();
    let d1_log = d1.original_log().duplicate();
    d1.apply_filter(types_filter(&d1_log, &["B"], &[]));
    let s1 = d1.apply_filter(types_filter(&d1_log, &["A"], &["T"]));
    let mut d2 = load();
    let s2 = d2.apply_filter(types_filter(&d1_log, &["A"], &["T"]));
    assert_eq!(render(&s1), render(&s2));
    assert_eq!(count_of(&s1, "events"), 1);
}

#[test]
fn type_filters_are_idempotent() {
    let doc = load();
    let log = doc.original_log();
    let f = types_filter(log, &["A", "B"], &["U"]);
    let once = log.filter(&f);
    let twice = once.filter(&types_filter(log, &["A", "B"], &["U"]));
    assert_eq!(render(&once.summary_json()), render(&twice.summary_json()));
    assert_eq!(once.events.len(), 2);
    assert_eq!(once.objects.len(), 1);
}

#[test]
fn filtering_keeps_the_imported_summary() {
    let mut doc = load();
    let before = render(&doc.original_summary_json());
    let log = doc.original_log().duplicate();
    doc.apply_filter(types_filter(&log, &["A"], &[]));
    doc.apply_filter(types_filter(&log, &["B"], &["U"]));
    doc.apply_filter(types_filter(&log, &["Nope"], &[]));
    assert_eq!(render(&doc.original_summary_json()), before);
}

use ocel_core::document::OcelDocumentCore;
use ocel_core::error::OcelError;
use ocel_core::source::{FloatReadings, SourceLog};

fn no_json() -> Result<SourceLog, OcelError> {
    Err(OcelError::new("not read as JSON".to_owned()))
}

fn refusal(xml: &str) -> String {
    OcelDocumentCore::new(xml, Some("xml"), no_json(), &FloatReadings::new()).err().expect("error").message
}

const HEAD: &str = r#"<log><event-types><event-type name="A"><attributes/></event-type></event-types><object-types><object-type name="T"><attributes/></object-type></object-types>"#;

#[test]
fn xml_structure_faults_are_named() {
    assert_eq!(refusal("<root/>"), "OCEL XML root element must be <log>");
    assert_eq!(refusal("<log><event-types/></log>"), "missing <object-types> element");
    let no_id = format!(r#"{HEAD}<events><event type="A" time="2024-01-01T00:00:00Z"/></events><objects/></log>"#);
    assert_eq!(refusal(&no_id), "missing required XML attribute 'id' on <event>");
}

#[test]
fn source_faults_are_named() {
    let dup = format!(
        r#"{HEAD}<events><event id="e1" type="A" time="2024-01-01T00:00:00Z"/><event id="e1" type="A" time="2024-01-01T00:00:00Z"/></events><objects/></log>"#
    );
    assert_eq!(refusal(&dup), "duplicate event id 'e1'");
    let unknown = format!(
        r#"{HEAD}<events><event id="e1" type="A" time="2024-01-01T00:00:00Z"><objects><relationship object-id="zz" qualifier="q"/></objects></event></events><objects/></log>"#
    );
    assert_eq!(refusal(&unknown), "event 'e1' references unknown object 'zz'");
    let bad_type = format!(r#"{HEAD}<events/><objects><object id="o1" type="X"/></objects></log>"#);
    assert_eq!(refusal(&bad_type), "object 'o1' references unknown object type 'X'");
    let dup_type = r#"<log><event-types><event-type name="A"/><event-type name="A"/></event-types><object-types/><events/><objects/></log>"#;
    assert_eq!(refusal(dup_type), "duplicate event type 'A'");
}

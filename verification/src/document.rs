use vstd::prelude::*;
use crate::error::OcelError;
use crate::model::{CompactOcelLog, OcelFormat};
use crate::source::{SourceLog, FloatReadings};
use crate::import::{from_source, source_ok, log_mirrors, pool_from_source, import_refusal};
use crate::format::{detect_format, detected_format, hint_view};
use crate::decode::{decode_ocel_bytes, decoded_text};
use crate::xml::{parse_xml, xml_read, xml_log_ok, xml_log_mirrors, xml_elements, xml_refusal, XmlElement};
use crate::filter::OcelFilterRequest;
use crate::filtering::{filter_result, same_log, lifecycles_ok, lemma_lifecycles_same_log, lemma_lifecycles_filter};
use crate::state_labels::lemma_lifecycles_labels;
use crate::json::{Json, JsonValue};
use crate::log_ops::summary_model;
use crate::export_xml::xml_export;
use crate::export_json::json_export;
use crate::pattern_groups::{patterns_json_ok, some_state};
use crate::log_ops::{symbol_of, has_object_type, events_with_attr};
use crate::correlations::{StateCounts, counts_ok};
use crate::state_query::{parse_state_query, state_query_of, query_states, picked, state_assignments};
use crate::state_labels::{StateAssignment, labels_applied, state_result_model, state_result_json};
use crate::text::owned;
use crate::graph::{GraphAccumulator, apply_ops, empty_graph, layout_filtered};
use crate::lifecycle_detail::{detail_ok, detail_events};
use crate::kpis::{StateTransitionKpiRequest, StateTransitionKpis, kpi_object_type, kpis_ok, stuck_limit_of};
use crate::perf::{TimePerspectiveRequest, TimePerspectiveInputs, chosen_object_type, perspective_ok};
use crate::votes::{Cell, assignments_view, voted_states};
use crate::options::{FilterOptions, text_options_ok, option_pairs, least_time, greatest_time};
use crate::search::{ObjectSearchRequest, search_json};
use crate::cells::{windows_view, windows_of, objects_of_type, StateWindow, BoundaryWindows, windows_ok, cell_ops, listed_ops, cell_title, boundary_ok, boundary_list};
use crate::dominant::{dominant, times, dominant_activity};
use crate::lifecycle_detail::lifecycle_states;
use crate::features::{ColorOption, color_options_ok, FeatureEncoder, FeatureColumn, FeatureCell, encoder_ok, cell_ok, window_time};
use crate::dfg::{GraphFilterRequest, dfg_all, state_aware_all, shows_type, no_threshold};

verus! {

/// An imported OCEL document: the log as imported and the active log that
/// the current filter keeps of it.
pub struct OcelDocumentCore {
    original_log: CompactOcelLog,
    log: CompactOcelLog,
    current_filter: OcelFilterRequest,
}

/// `log` is what importing `src` in `format` gives; its string pool holds
/// only texts of `src`.
pub open spec fn imported(log: CompactOcelLog, src: SourceLog, format: OcelFormat, readings: &FloatReadings) -> bool {
    &&& source_ok(src, readings.table@)
    &&& log.wf()
    &&& log_mirrors(log, src, readings.table@, format)
    &&& pool_from_source(log, src, readings.table@)
}

/// `log` is what importing the XML text `input` gives: the nodes the XML
/// reader gives for it hold an OCEL log, read as `src`.
pub open spec fn xml_imported(log: CompactOcelLog, input: Seq<char>, readings: &FloatReadings) -> bool {
    exists|nodes: Seq<XmlElement>, src: SourceLog|
        #![trigger xml_read(input, nodes), xml_log_mirrors(nodes, src)]
        xml_read(input, nodes) && xml_log_ok(nodes) && xml_log_mirrors(nodes, src) && imported(log, src, OcelFormat::Xml, readings)
}

/// Importing the XML text `input` fails with message `msg`: the XML reader
/// refuses the text; or its nodes hold no OCEL log, and `msg` names a
/// missing root, section or attribute; or the log they hold fails
/// validation, and `msg` names a fault it has.
pub open spec fn xml_refused(input: Seq<char>, readings: &FloatReadings, msg: Seq<char>) -> bool {
    match xml_elements(input) {
        Err(m) => msg == "invalid OCEL XML: "@ + m,
        Ok(_) => exists|nodes: Seq<XmlElement>| #[trigger] xml_read(input, nodes) && ((!xml_log_ok(nodes) && xml_refusal(nodes, msg))
            || exists|src: SourceLog| #[trigger] xml_log_mirrors(nodes, src) && !source_ok(src, readings.table@)
                && import_refusal(src, readings.table@, msg)),
    }
}

/// `b` is what filtering `a` by `f` leaves: the imported log unchanged and
/// the active log what filtering it by `f` gives.
pub open spec fn filter_step(a: OcelDocumentCore, f: OcelFilterRequest, b: OcelDocumentCore) -> bool {
    &&& b.wf()
    &&& b.original() == a.original()
    &&& filter_result(a.original(), f, b.active())
}

/// However many filters are applied in turn, the imported log, and so its
/// summary, stays what it was, and the active log is what the last filter
/// gives of it.
pub proof fn law_filters_keep_the_imported_log(ds: Seq<OcelDocumentCore>, fs: Seq<OcelFilterRequest>)
    requires
        ds.len() == fs.len() + 1,
        forall|i: int| 0 <= i < fs.len() ==> filter_step(#[trigger] ds[i], fs[i], ds[i + 1]),
    ensures
        forall|i: int| 0 <= i < ds.len() ==> (#[trigger] ds[i]).original() == ds[0].original(),
        summary_model(ds.last().original()) == summary_model(ds[0].original()),
        fs.len() > 0 ==> filter_result(ds[0].original(), fs.last(), ds.last().active()),
    decreases fs.len(),
{
    if fs.len() > 0 {
        let d2 = ds.drop_last();
        let f2 = fs.drop_last();
        assert forall|i: int| 0 <= i < f2.len() implies filter_step(#[trigger] d2[i], f2[i], d2[i + 1]) by {
            assert(filter_step(ds[i], fs[i], ds[i + 1]));
        }
        law_filters_keep_the_imported_log(d2, f2);
        assert(filter_step(ds[fs.len() - 1], fs[fs.len() - 1], ds[fs.len() as int]));
        assert forall|i: int| 0 <= i < ds.len() implies (#[trigger] ds[i]).original() == ds[0].original() by {
            if i < d2.len() {
                assert(d2[i] == ds[i]);
            }
        }
    }
}

impl OcelDocumentCore {
    /// The log as imported.
    pub closed spec fn original(&self) -> CompactOcelLog {
        self.original_log
    }

    /// The active log.
    pub closed spec fn active(&self) -> CompactOcelLog {
        self.log
    }

    /// Both logs are well formed and every object's lifecycle lists its
    /// events.
    pub closed spec fn wf(&self) -> bool {
        &&& self.original_log.wf() && self.log.wf()
        &&& lifecycles_ok(self.original_log) && lifecycles_ok(self.log)
    }

    fn from_log(log: CompactOcelLog) -> (r: Self)
        requires
            log.wf(),
            lifecycles_ok(log),
        ensures
            r.wf(),
            r.original() == log,
            same_log(r.active(), log),
    {
        let current_filter = OcelFilterRequest::all_for(&log);
        let active = log.duplicate();
        proof { lemma_lifecycles_same_log(active, log); }
        OcelDocumentCore { original_log: log, log: active, current_filter }
    }

    /// Imports an OCEL 2.0 JSON or XML text. `format_hint` may be `json`,
    /// `xml` or a file name; without one the format is detected from the
    /// first non-white-space character. An XML text is read here; a JSON
    /// text is read by the caller, who passes what its reader gave for
    /// `input` as `json`. `readings` gives the float values of texts.
    pub fn new(
        input: &str,
        format_hint: Option<&str>,
        json: Result<SourceLog, OcelError>,
        readings: &FloatReadings,
    ) -> (r: Result<Self, OcelError>)
        ensures
            match r {
                Ok(doc) => doc.wf() && same_log(doc.active(), doc.original())
                    && match detected_format(input@, hint_view(format_hint)) {
                        Ok(OcelFormat::Json) => json matches Ok(src) && imported(doc.original(), src, OcelFormat::Json, readings),
                        Ok(OcelFormat::Xml) => xml_imported(doc.original(), input@, readings),
                        Err(_) => false,
                    },
                Err(e) => match detected_format(input@, hint_view(format_hint)) {
                    Err(m) => e.message@ == m,
                    Ok(OcelFormat::Json) => match json {
                        Err(je) => e.message@ == je.message@,
                        Ok(src) => !source_ok(src, readings.table@) && import_refusal(src, readings.table@, e.message@),
                    },
                    Ok(OcelFormat::Xml) => xml_refused(input@, readings, e.message@),
                },
            },
    {
        let format = detect_format(input, format_hint)?;
        match format {
            OcelFormat::Json => {
                let src = json?;
                let log = from_source(&src, format, readings)?;
                assert(imported(log, src, format, readings));
                Ok(Self::from_log(log))
            },
            OcelFormat::Xml => {
                let src = parse_xml(input)?;
                let ghost nodes = choose|nodes: Seq<XmlElement>| xml_read(input@, nodes) && xml_log_ok(nodes) && xml_log_mirrors(nodes, src);
                match from_source(&src, format, readings) {
                    Ok(log) => {
                        assert(imported(log, src, format, readings));
                        assert(xml_imported(log, input@, readings));
                        Ok(Self::from_log(log))
                    },
                    Err(e) => {
                        assert(xml_read(input@, nodes) && xml_log_mirrors(nodes, src));
                        assert(xml_refused(input@, readings, e.message@));
                        Err(e)
                    },
                }
            },
        }
    }

    /// Imports an OCEL 2.0 file from its bytes, plain or gzip-compressed
    /// UTF-8 JSON or XML; `json` is what the caller's JSON reader gave for
    /// the decoded text.
    pub fn from_bytes(
        input: &[u8],
        format_hint: Option<&str>,
        json: Result<SourceLog, OcelError>,
        readings: &FloatReadings,
    ) -> (r: Result<Self, OcelError>)
        ensures
            match decoded_text(input@) {
                Err(m) => r matches Err(e) && e.message@ == m,
                Ok(text) => match r {
                    Ok(doc) => doc.wf() && same_log(doc.active(), doc.original())
                        && match detected_format(text, hint_view(format_hint)) {
                            Ok(OcelFormat::Json) => json matches Ok(src) && imported(doc.original(), src, OcelFormat::Json, readings),
                            Ok(OcelFormat::Xml) => xml_imported(doc.original(), text, readings),
                            Err(_) => false,
                        },
                    Err(e) => match detected_format(text, hint_view(format_hint)) {
                        Err(m) => e.message@ == m,
                        Ok(OcelFormat::Json) => match json {
                            Err(je) => e.message@ == je.message@,
                            Ok(src) => !source_ok(src, readings.table@) && import_refusal(src, readings.table@, e.message@),
                        },
                        Ok(OcelFormat::Xml) => xml_refused(text, readings, e.message@),
                    },
                },
            },
    {
        let text = decode_ocel_bytes(input)?;
        Self::new(text.as_str(), format_hint, json, readings)
    }

    /// Summary counts of the active log.
    pub fn summary_json(&self) -> (j: JsonValue)
        requires
            self.wf(),
        ensures
            j.model() == summary_model(self.active()),
    {
        self.log.summary_json()
    }

    /// Summary counts of the log as imported.
    pub fn original_summary_json(&self) -> (j: JsonValue)
        requires
            self.wf(),
        ensures
            j.model() == summary_model(self.original()),
    {
        self.original_log.summary_json()
    }

    /// Rebuilds the active log from the imported log with a new filter and
    /// returns its summary.
    pub fn apply_filter(&mut self, filter: OcelFilterRequest) -> (j: JsonValue)
        requires
            old(self).wf(),
        ensures
            final(self).wf(),
            final(self).original() == old(self).original(),
            filter_result(old(self).original(), filter, final(self).active()),
            filter_step(*old(self), filter, *final(self)),
            j.model() == summary_model(final(self).active()),
    {
        let active = self.original_log.filter(&filter);
        proof { lemma_lifecycles_filter(self.original_log, filter, active); }
        self.log = active;
        self.current_filter = filter;
        self.log.summary_json()
    }

    /// The active log as an OCEL 2.0 JSON document.
    pub fn export_json(&self) -> (r: Result<JsonValue, OcelError>)
        requires
            self.wf(),
        ensures
            match r {
                Ok(j) => json_export(self.active()) == Ok::<Json, Seq<char>>(j.model()),
                Err(e) => json_export(self.active()) == Err::<Json, Seq<char>>(e.message@),
            },
    {
        self.log.export_json()
    }

    /// The active log as OCEL 2.0 XML.
    pub fn export_xml(&self) -> (r: Result<String, OcelError>)
        requires
            self.wf(),
        ensures
            match r {
                Ok(t) => xml_export(self.active()) == Ok::<Seq<char>, Seq<char>>(t@),
                Err(e) => xml_export(self.active()) == Err::<Seq<char>, Seq<char>>(e.message@),
            },
    {
        self.log.export_xml()
    }

    /// Ids of the events in the lifecycle of an object of the active log.
    pub fn object_lifecycle_json(&self, object_id: &str) -> (r: Result<JsonValue, OcelError>)
        requires
            self.wf(),
        ensures
            match r {
                Ok(j) => exists|i: int| 0 <= i < self.active().objects@.len() && self.active().text(self.active().objects@[i].id) == object_id@
                    && crate::lifecycle::is_lifecycle(self.active().events@, self.active().objects@[i].id, self.active().objects@[i].lifecycle@)
                    && j.model() == Json::Array(self.active().objects@[i].lifecycle@.map_values(|e: usize| Json::Str(self.active().text(self.active().events@[e as int].id)))),
                Err(e) => (forall|i: int| 0 <= i < self.active().objects@.len() ==> self.active().text(self.active().objects@[i].id) != object_id@)
                    && e.message@ == "object id '"@ + object_id@ + "' was not found in the log"@,
            },
    {
        let r = self.log.lifecycle_json(object_id);
        proof {
            if r is Ok {
                let i = choose|i: int| 0 <= i < self.active().objects@.len() && self.active().text(self.active().objects@[i].id) == object_id@
                    && r->Ok_0.model() == Json::Array(self.active().objects@[i].lifecycle@.map_values(|e: usize| Json::Str(self.active().text(self.active().events@[e as int].id))));
                assert(crate::lifecycle::is_lifecycle(self.active().events@, self.active().objects@[i].id, self.active().objects@[i].lifecycle@));
            }
        }
        r
    }

    /// The state patterns of the active log.
    pub fn state_patterns_json(&self) -> (r: Result<JsonValue, OcelError>)
        requires
            self.wf(),
        ensures
            match r {
                Ok(j) => symbol_of(self.active(), "state"@) matches Some(st) && some_state(self.active(), st)
                    && patterns_json_ok(self.active(), st, j.model()),
                Err(e) => match symbol_of(self.active(), "state"@) {
                    None => e.message@ == "event state attribute is missing; apply a state query first"@,
                    Some(st) => !some_state(self.active(), st) && e.message@ == "event state attribute is empty; apply a state query first"@,
                },
            },
    {
        self.log.state_patterns_json()
    }

    /// The filter the active log was built with.
    pub closed spec fn filter_request(&self) -> OcelFilterRequest {
        self.current_filter
    }

    /// Writes the given states as the `state` event attribute of the
    /// imported log (see [`CompactOcelLog::apply_state_labels_by_event_id`]),
    /// rebuilds the active log with the current filter, and reports how many
    /// active events carry a state.
    pub fn apply_state_detection(&mut self, leading_object_type: &str, states: &Vec<StateAssignment>) -> (r: Result<JsonValue, OcelError>)
        requires
            old(self).wf(),
        ensures
            final(self).wf(),
            final(self).filter_request() == old(self).filter_request(),
            match r {
                Ok(j) => {
                    &&& has_object_type(old(self).original(), leading_object_type@)
                    &&& symbol_of(final(self).original(), "state"@) is Some
                    &&& labels_applied(
                        old(self).original(),
                        final(self).original(),
                        leading_object_type@,
                        "state"@,
                        states@,
                        symbol_of(final(self).original(), "state"@)->0,
                    )
                    &&& filter_result(final(self).original(), final(self).filter_request(), final(self).active())
                    &&& j.model() == state_result_model(
                        "state"@,
                        leading_object_type@,
                        events_with_attr(final(self).active(), "state"@),
                        final(self).active().events@.len(),
                    )
                },
                Err(e) => {
                    &&& !has_object_type(old(self).original(), leading_object_type@)
                    &&& *final(self) == *old(self)
                    &&& e.message@ == "unknown leading object type '"@ + leading_object_type@ + "'"@
                },
            },
    {
        let assigned = self.original_log.apply_state_labels_by_event_id(leading_object_type, "state", states);
        match assigned {
            Err(e) => Err(e),
            Ok(_) => {
                proof {
                    lemma_lifecycles_labels(old(self).original(), self.original_log, leading_object_type@, "state"@, states@,
                        symbol_of(self.original_log, "state"@)->0);
                }
                let active = self.original_log.filter(&self.current_filter);
                proof { lemma_lifecycles_filter(self.original_log, self.current_filter, active); }
                self.log = active;
                proof { reveal_strlit("state"); }
                let attribute = owned("state");
                let stateful = self.log.count_events_with_attribute("state");
                Ok(state_result_json(attribute, owned(leading_object_type), stateful, self.log.events.len()))
            },
        }
    }

    /// Evaluates a state query on the imported log, writes each event's
    /// state as the query's attribute (replacing earlier values of it),
    /// records the leading object type, rebuilds the active log with the
    /// current filter, and reports how many active events carry the
    /// attribute.
    pub fn apply_state_query(&mut self, query: &str) -> (r: Result<JsonValue, OcelError>)
        requires
            old(self).wf(),
        ensures
            final(self).wf(),
            final(self).filter_request() == old(self).filter_request(),
            match r {
                Ok(j) => state_query_of(query@) matches Some(q) && {
                    &&& has_object_type(old(self).original(), q.leading)
                    &&& symbol_of(final(self).original(), q.attribute) is Some
                    &&& exists|a: Seq<StateAssignment>|
                        #[trigger] assignments_view(a) == picked(
                            old(self).original().events@,
                            query_states(old(self).original(), q),
                            old(self).original().events@.len() as int,
                        ) && labels_applied(
                            old(self).original(),
                            final(self).original(),
                            q.leading,
                            q.attribute,
                            a,
                            symbol_of(final(self).original(), q.attribute)->0,
                        )
                    &&& filter_result(final(self).original(), final(self).filter_request(), final(self).active())
                    &&& j.model() == state_result_model(
                        q.attribute,
                        q.leading,
                        events_with_attr(final(self).active(), q.attribute),
                        final(self).active().events@.len(),
                    )
                },
                Err(e) => *final(self) == *old(self) && match state_query_of(query@) {
                    None => e.message@ == "could not parse state query"@,
                    Some(q) => !has_object_type(old(self).original(), q.leading)
                        && e.message@ == "unknown leading object type '"@ + q.leading + "'"@,
                },
            },
    {
        let q = match parse_state_query(query) {
            Ok(q) => q,
            Err(e) => return Err(e),
        };
        let states = self.original_log.evaluate_state_query(&q);
        assert(states@.map_values(|s: Option<String>| crate::state_query::opt_text(s)).len() == states@.len());
        let assign = state_assignments(&self.original_log.events, &states);
        let ghost a = assign@;
        let applied = self.original_log.apply_state_labels_by_event_id(
            q.leading_object_type.as_str(),
            q.attribute_name.as_str(),
            &assign,
        );
        match applied {
            Err(e) => Err(e),
            Ok(_) => {
                proof {
                    lemma_lifecycles_labels(old(self).original(), self.original_log, q.leading_object_type@, q.attribute_name@, a,
                        symbol_of(self.original_log, q.attribute_name@)->0);
                }
                let active = self.original_log.filter(&self.current_filter);
                proof { lemma_lifecycles_filter(self.original_log, self.current_filter, active); }
                self.log = active;
                let stateful = self.log.count_events_with_attribute(q.attribute_name.as_str());
                let total = self.log.events.len();
                let j = state_result_json(owned(q.attribute_name.as_str()), owned(q.leading_object_type.as_str()), stateful, total);
                Ok(j)
            },
        }
    }

    /// The directly-follows graph of the lifecycles of the active objects of
    /// one type.
    pub fn directly_follows_graph_json(&self, object_type: &str) -> (r: Result<GraphAccumulator, OcelError>)
        requires
            self.wf(),
        ensures
            match r {
                Ok(gr) => has_object_type(self.active(), object_type@)
                    && gr.title@ == "Directly-Follows Graph: "@ + object_type@
                    && gr.subtitle@ == "Flattened over "@ + object_type@ + " object lifecycles"@
                    && gr.holds(layout_filtered(
                        apply_ops(empty_graph(), dfg_all(self.active(), |t: Seq<char>| t == object_type@, self.active().objects@.len() as int)),
                        no_threshold(),
                    )),
                Err(e) => !has_object_type(self.active(), object_type@)
                    && e.message@ == "unknown leading object type '"@ + object_type@ + "'"@,
            },
    {
        self.log.directly_follows_graph_json(object_type)
    }

    /// The object-centric directly-follows graph of the active log.
    pub fn object_centric_directly_follows_graph_json(&self) -> (gr: GraphAccumulator)
        requires
            self.wf(),
        ensures
            gr.title@ == "Object-Centric Directly-Follows Graph"@,
            gr.subtitle@ == "Flattened over selected object types with typed lifecycle edges"@,
            gr.holds(layout_filtered(
                apply_ops(empty_graph(), dfg_all(self.active(), |t: Seq<char>| true, self.active().objects@.len() as int)),
                no_threshold(),
            )),
    {
        self.log.object_centric_directly_follows_graph_json()
    }

    /// The object-centric directly-follows graph of the active log over the
    /// requested object types and frequency thresholds.
    pub fn filtered_object_centric_directly_follows_graph_json(&self, request: &GraphFilterRequest) -> (gr: GraphAccumulator)
        requires
            self.wf(),
        ensures
            gr.title@ == "Object-Centric Directly-Follows Graph"@,
            gr.subtitle@ == "Flattened over selected object types with typed lifecycle edges"@,
            gr.holds(layout_filtered(
                apply_ops(empty_graph(), dfg_all(self.active(), |t: Seq<char>| shows_type(*request, t), self.active().objects@.len() as int)),
                request.layout_filter_view(),
            )),
    {
        self.log.filtered_object_centric_directly_follows_graph_json(request)
    }

    /// The state-aware object-centric directly-follows graph of the active
    /// log.
    pub fn state_aware_ocdfg_json(&self) -> (r: Result<GraphAccumulator, OcelError>)
        requires
            self.wf(),
        ensures
            match r {
                Ok(gr) => symbol_of(self.active(), "state"@) matches Some(st)
                    && gr.title@ == "State-Aware Object-Centric Directly-Follows Graph"@
                    && gr.subtitle@ == "State-enriched lifecycles collated across object types"@
                    && gr.holds(layout_filtered(
                        apply_ops(empty_graph(), state_aware_all(self.active(), |t: Seq<char>| true, st, self.active().objects@.len() as int)),
                        no_threshold(),
                    )),
                Err(e) => symbol_of(self.active(), "state"@) is None
                    && e.message@ == "event state attribute is missing; apply a state query first"@,
            },
    {
        self.log.state_aware_ocdfg_json()
    }

    /// The state-aware object-centric directly-follows graph of the active
    /// log over the requested object types and frequency thresholds.
    pub fn filtered_state_aware_ocdfg_json(&self, request: &GraphFilterRequest) -> (r: Result<GraphAccumulator, OcelError>)
        requires
            self.wf(),
        ensures
            match r {
                Ok(gr) => symbol_of(self.active(), "state"@) matches Some(st)
                    && gr.title@ == "State-Aware Object-Centric Directly-Follows Graph"@
                    && gr.subtitle@ == "State-enriched lifecycles collated across object types"@
                    && gr.holds(layout_filtered(
                        apply_ops(empty_graph(), state_aware_all(self.active(), |t: Seq<char>| shows_type(*request, t), st, self.active().objects@.len() as int)),
                        request.layout_filter_view(),
                    )),
                Err(e) => symbol_of(self.active(), "state"@) is None
                    && e.message@ == "event state attribute is missing; apply a state query first"@,
            },
    {
        self.log.filtered_state_aware_ocdfg_json(request)
    }

    /// Events, state bands, stock readings and related objects of an object
    /// of the active log.
    pub fn object_lifecycle_detail_json(&self, object_id: &str) -> (r: Result<JsonValue, OcelError>)
        requires
            self.wf(),
        ensures
            match r {
                Ok(j) => exists|o: int| 0 <= o < self.active().objects@.len() && self.active().text(self.active().objects@[o].id) == object_id@
                    && #[trigger] detail_ok(self.active(), o, j.model()),
                Err(e) => {
                    ||| (forall|o: int| 0 <= o < self.active().objects@.len() ==> self.active().text(self.active().objects@[o].id) != object_id@)
                        && e.message@ == "object id '"@ + object_id@ + "' was not found in the active log"@
                    ||| exists|o: int| 0 <= o < self.active().objects@.len() && self.active().text(self.active().objects@[o].id) == object_id@
                        && #[trigger] detail_events(self.active(), o) == Err::<Seq<Json>, Seq<char>>(e.message@)
                },
            },
    {
        self.log.object_lifecycle_detail_json(object_id)
    }

    /// Transition, dwell, recovery and stuck-state figures of the active log.
    pub fn state_transition_kpis_json(&self, request: &StateTransitionKpiRequest) -> (r: Result<StateTransitionKpis, OcelError>)
        requires
            self.wf(),
        ensures
            match r {
                Ok(k) => symbol_of(self.active(), "state"@) matches Some(st) && kpi_object_type(self.active(), *request) matches Some(ot)
                    && kpis_ok(k, self.active(), st, ot, stuck_limit_of(*request)),
                Err(e) => match symbol_of(self.active(), "state"@) {
                    None => e.message@ == "event state attribute is missing; apply a state query first"@,
                    Some(_) => kpi_object_type(self.active(), *request) is None
                        && e.message@ == "no object type is available for transition KPIs"@,
                },
            },
    {
        self.log.state_transition_kpis(request)
    }

    /// Time range, states, stateful events and passage spectrum of the
    /// active log.
    pub fn time_perspective_json(&self, request: &TimePerspectiveRequest) -> (r: Result<TimePerspectiveInputs, OcelError>)
        requires
            self.wf(),
        ensures
            match r {
                Ok(t) => symbol_of(self.active(), "state"@) matches Some(st)
                    && chosen_object_type(self.active(), request.object_type) matches Some(ot)
                    && perspective_ok(t, self.active(), st, ot, *request),
                Err(e) => match symbol_of(self.active(), "state"@) {
                    None => e.message@ == "event state attribute is missing; apply a state query first"@,
                    Some(_) => chosen_object_type(self.active(), request.object_type) is None
                        && e.message@ == "no object type is available for time perspective"@,
                },
            },
    {
        self.log.time_perspective_inputs(request)
    }

    /// The states that the windows of a state detection run give the events
    /// of the active log: each window votes for its cell on behalf of its
    /// events (given by position in the active log).
    pub fn state_detection_assignments(&self, windows: &Vec<Vec<usize>>, cells: &Vec<Cell>) -> (r: Vec<StateAssignment>)
        requires
            self.wf(),
            forall|w: int, j: int| 0 <= w < windows@.len() && 0 <= j < windows@[w]@.len() ==> #[trigger] windows@[w]@[j] < self.active().events@.len(),
            forall|w: int| 0 <= w < cells@.len() ==> #[trigger] cells@[w].0 < usize::MAX && cells@[w].1 < usize::MAX,
        ensures
            assignments_view(r@) == voted_states(self.active(), windows@, cells@, self.active().events@.len() as int),
    {
        self.log.state_assignments_from_votes(windows, cells)
    }

    /// The filter options of the log as imported: its event and object
    /// types, text attribute values and time range.
    pub fn filter_options_json(&self) -> (r: FilterOptions)
        requires
            self.wf(),
        ensures
            r.event_types@.map_values(|t: String| t@) == self.original().event_types@.map_values(|t: crate::model::TypeDef| self.original().text(t.name)),
            r.object_types@.map_values(|t: String| t@) == self.original().object_types@.map_values(|t: crate::model::TypeDef| self.original().text(t.name)),
            text_options_ok(r.text_attributes@, option_pairs(self.original())),
            r.time_min_ms == least_time(self.original()),
            r.time_max_ms == greatest_time(self.original()),
    {
        self.original_log.filter_options()
    }

    /// Objects of the active log whose id contains the query.
    pub fn object_search_json(&self, request: &ObjectSearchRequest) -> (j: JsonValue)
        requires
            self.wf(),
        ensures
            j.model() == search_json(self.active(), *request),
    {
        self.log.object_search(request)
    }

    /// The directly-follows graph over the windows of a state detection run
    /// (over the active log) that were assigned to a cell.
    pub fn state_detection_cell_dfg(&self, windows: &Vec<StateWindow>, cells: &Vec<Cell>, cell_x: usize, cell_y: usize) -> (r: GraphAccumulator)
        requires
            self.wf(),
            windows_ok(self.active(), windows@),
            windows@.len() > 0,
            cell_x < usize::MAX,
            cell_y < usize::MAX,
        ensures
            r.title@ == cell_title(cell_x, cell_y),
            r.subtitle@ == "Directly-follows graph over windows assigned to the selected SOM cell"@,
            r.holds(apply_ops(empty_graph(), cell_ops(
                self.active(),
                windows@,
                cells@,
                (cell_x, cell_y),
                self.active().text(self.active().objects@[windows@[0].object_index as int].type_symbol),
                if windows@.len() < cells@.len() { windows@.len() as int } else { cells@.len() as int },
            ))),
    {
        self.log.state_detection_cell_dfg(windows, cells, cell_x, cell_y)
    }

    /// The directly-follows graph over the listed windows of a state
    /// detection run over the active log.
    pub fn state_detection_windows_dfg(&self, windows: &Vec<StateWindow>, indices: &Vec<usize>, title: String, subtitle: String) -> (r: GraphAccumulator)
        requires
            self.wf(),
            windows_ok(self.active(), windows@),
            windows@.len() > 0,
        ensures
            r.title@ == title@,
            r.subtitle@ == subtitle@,
            r.holds(apply_ops(empty_graph(), listed_ops(
                self.active(),
                windows@,
                indices@,
                self.active().text(self.active().objects@[windows@[0].object_index as int].type_symbol),
                indices@.len() as int,
            ))),
    {
        self.log.state_detection_windows_dfg(windows, indices, title, subtitle)
    }

    /// The windows of a state detection run over the active log that enter
    /// and leave a cell.
    pub fn state_detection_boundary_windows(&self, windows: &Vec<StateWindow>, cells: &Vec<Cell>, cell_x: usize, cell_y: usize) -> (r: BoundaryWindows)
        requires
            self.wf(),
            windows_ok(self.active(), windows@),
            cells@.len() >= windows@.len(),
            forall|w: int| 0 <= w < cells@.len() ==> #[trigger] cells@[w].0 < usize::MAX && cells@[w].1 < usize::MAX,
        ensures
            boundary_ok(self.active(), windows@, boundary_list(windows@, cells@, (cell_x, cell_y), true, windows@.len() as int), r.entering@, r.entering_indices@),
            boundary_ok(self.active(), windows@, boundary_list(windows@, cells@, (cell_x, cell_y), false, windows@.len() as int), r.exiting@, r.exiting_indices@),
    {
        self.log.state_detection_boundary_windows(windows, cells, cell_x, cell_y)
    }

    /// The positions of the active objects of the named type.
    pub fn state_detection_objects(&self, object_type: &str) -> (r: Result<Vec<usize>, OcelError>)
        requires
            self.wf(),
        ensures
            match r {
                Ok(v) => has_object_type(self.active(), object_type@) && (symbol_of(self.active(), object_type@) matches Some(ot)
                    && v@.map_values(|o: usize| o as int) == objects_of_type(self.active(), ot) && v@.len() > 0),
                Err(e) => if !has_object_type(self.active(), object_type@) {
                    e.message@ == "unknown object type '"@ + object_type@ + "' for state detection"@
                } else {
                    (symbol_of(self.active(), object_type@) matches Some(ot) && objects_of_type(self.active(), ot).len() == 0)
                        && e.message@ == "no objects of type '"@ + object_type@ + "' are available in the active log"@
                },
            },
    {
        self.log.state_detection_objects(object_type)
    }

    /// Cuts the lifecycles of the listed active objects into windows.
    pub fn lifecycle_windows(&self, objects: &Vec<usize>, size: usize) -> (r: Vec<StateWindow>)
        requires
            self.wf(),
            size >= 1,
            forall|k: int| 0 <= k < objects@.len() ==> #[trigger] objects@[k] < self.active().objects@.len(),
        ensures
            windows_view(r@) == windows_of(self.active(), objects@, size as nat, objects@.len() as int),
            windows_ok(self.active(), r@),
    {
        self.log.lifecycle_windows(objects, size)
    }

    /// The state the active object at `o` spends most lifecycle events in,
    /// under the `state` attribute; none without that attribute.
    pub fn dominant_object_state(&self, o: usize) -> (r: Option<String>)
        requires
            self.wf(),
            o < self.active().objects@.len(),
        ensures
            match symbol_of(self.active(), "state"@) {
                None => r is None,
                Some(st) => match r {
                    Some(t) => dominant(lifecycle_states(self.active(), self.active().objects@[o as int].lifecycle@, Some(st)), t@),
                    None => forall|t: Seq<char>| times(
                        lifecycle_states(self.active(), self.active().objects@[o as int].lifecycle@, Some(st)),
                        t,
                        self.active().objects@[o as int].lifecycle@.len() as int,
                    ) == 0,
                },
            },
    {
        proof { reveal_strlit("state"); }
        match self.log.symbol_for_value("state") {
            None => None,
            Some(st) => self.log.dominant_object_state(o, st),
        }
    }

    /// The counts behind the state correlations of the active log: the
    /// objects of the leading type, the state each spends most events in,
    /// and how many objects have each state. The correlations themselves
    /// are floating-point figures over the feature table and are left to
    /// the caller.
    pub fn state_correlations_json(&self) -> (r: Result<StateCounts, OcelError>)
        requires
            self.wf(),
        ensures
            counts_ok(self.active(), r),
    {
        self.log.state_correlation_counts()
    }

    /// The log as imported, to read.
    pub fn original_log(&self) -> (r: &CompactOcelLog)
        ensures
            *r == self.original(),
    {
        &self.original_log
    }

    /// The active log, to read.
    pub fn active_log(&self) -> (r: &CompactOcelLog)
        ensures
            *r == self.active(),
    {
        &self.log
    }

    /// The columns of the feature table of the listed active objects.
    pub fn feature_encoder(&self, objs: &Vec<usize>) -> (e: FeatureEncoder)
        requires
            self.wf(),
            forall|k: int| 0 <= k < objs@.len() ==> #[trigger] objs@[k] < self.active().objects@.len(),
        ensures
            encoder_ok(self.active(), objs@, e),
    {
        self.log.feature_encoder(objs)
    }

    /// The feature cells of a window of the active object at `o`, read at
    /// the time of the window's last event (or at the end of time).
    pub fn window_feature_cells(&self, o: usize, evs: &Vec<usize>, columns: &Vec<FeatureColumn>) -> (r: Vec<FeatureCell>)
        requires
            self.wf(),
            o < self.active().objects@.len(),
            forall|k: int| 0 <= k < evs@.len() ==> #[trigger] evs@[k] < self.active().events@.len(),
        ensures
            r@.len() == columns@.len(),
            forall|i: int| 0 <= i < r@.len() ==> cell_ok(self.active(), o as int, evs@, window_time(self.active(), evs@), columns@[i].view_of(), #[trigger] r@[i]),
    {
        let at = self.log.window_attribute_time(evs);
        self.log.encode_feature_cells(o, evs, at, columns)
    }

    /// The feature cells of events of the active object at `o`, with
    /// attribute values read at time `at`.
    pub fn feature_cells_at(&self, o: usize, evs: &Vec<usize>, at: i64, columns: &Vec<FeatureColumn>) -> (r: Vec<FeatureCell>)
        requires
            self.wf(),
            o < self.active().objects@.len(),
            forall|k: int| 0 <= k < evs@.len() ==> #[trigger] evs@[k] < self.active().events@.len(),
        ensures
            r@.len() == columns@.len(),
            forall|i: int| 0 <= i < r@.len() ==> cell_ok(self.active(), o as int, evs@, at, columns@[i].view_of(), #[trigger] r@[i]),
    {
        self.log.encode_feature_cells(o, evs, at, columns)
    }

    /// The ways to colour a state map of the listed active objects.
    pub fn state_detection_color_options(&self, objs: &Vec<usize>) -> (r: Vec<ColorOption>)
        requires
            self.wf(),
            forall|k: int| 0 <= k < objs@.len() ==> #[trigger] objs@[k] < self.active().objects@.len(),
        ensures
            color_options_ok(self.active(), objs@, r@),
    {
        self.log.state_detection_color_options(objs)
    }

    /// The most frequent activity of a window of active events.
    pub fn dominant_window_activity(&self, evs: &Vec<usize>) -> (r: Option<String>)
        requires
            self.wf(),
            forall|k: int| 0 <= k < evs@.len() ==> #[trigger] evs@[k] < self.active().events@.len(),
        ensures
            match r {
                Some(t) => dominant_activity(self.active(), evs@, t@),
                None => evs@.len() == 0,
            },
    {
        self.log.dominant_window_activity(evs)
    }
}

} // verus!

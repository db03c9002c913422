use vstd::prelude::*;
use crate::pool::Symbol;
use crate::model::CompactOcelLog;
use crate::text::{owned, trim_text, trim_seq, lower_text, ascii_lower, text_contains, seq_contains_text};
use crate::json::{Json, JsonValue, items_model, members_model, add_member, add_item, text_value, object, array};
use crate::log_ops::symbol_of;
use crate::counting::{positions, lemma_positions};

verus! {

/// A search over object ids.
pub struct ObjectSearchRequest {
    pub query: Option<String>,
    pub object_type: Option<String>,
    pub limit: Option<usize>,
}

/// The lower-cased, trimmed query; empty when none is given.
pub open spec fn search_query(req: ObjectSearchRequest) -> Seq<char> {
    match req.query {
        Some(q) => ascii_lower(trim_seq(q@)),
        None => Seq::empty(),
    }
}

/// The number of hits to return: 30 unless requested, within 1 to 200.
pub open spec fn search_limit(req: ObjectSearchRequest) -> nat {
    let l = match req.limit {
        Some(l) => l as nat,
        None => 30nat,
    };
    if l < 1 {
        1
    } else if l > 200 {
        200
    } else {
        l
    }
}

/// The object at `o` is a hit: of the requested type when that type's name
/// is interned, with an id whose lower-cased text contains the query.
pub open spec fn search_hit(log: CompactOcelLog, req: ObjectSearchRequest, o: int) -> bool {
    let ob = log.objects@[o];
    let q = search_query(req);
    &&& match req.object_type {
        Some(t) => match symbol_of(log, t@) {
            Some(s) => ob.type_symbol == s,
            None => true,
        },
        None => true,
    }
    &&& (q.len() == 0 || seq_contains_text(ascii_lower(log.text(ob.id)), q))
}

/// JSON of a hit.
pub open spec fn hit_json(log: CompactOcelLog, o: int) -> Json {
    let ob = log.objects@[o];
    Json::Object(seq![
        ("object_id"@, Json::Str(log.text(ob.id))),
        ("object_type"@, Json::Str(log.text(ob.type_symbol))),
        ("event_count"@, Json::Int(ob.lifecycle@.len() as int)),
    ])
}

/// The first hits, in object order, up to the limit.
pub open spec fn search_json(log: CompactOcelLog, req: ObjectSearchRequest) -> Json {
    let hits = positions(log.objects@.len() as int, |o: int| search_hit(log, req, o));
    let n = if hits.len() < search_limit(req) { hits.len() } else { search_limit(req) };
    Json::Object(seq![("objects"@, Json::Array(hits.take(n as int).map_values(|o: int| hit_json(log, o))))])
}

impl CompactOcelLog {
    /// Objects whose id contains the query, optionally of one type, up to a
    /// limit.
    pub fn object_search(&self, request: &ObjectSearchRequest) -> (j: JsonValue)
        requires
            self.wf(),
        ensures
            j.model() == search_json(*self, *request),
    {
        let query = match &request.query {
            Some(q) => lower_text(trim_text(q.as_str()).as_str()),
            None => owned(""),
        };
        proof { reveal_strlit(""); }
        let type_symbol: Option<Symbol> = match &request.object_type {
            Some(t) => self.symbol_for_value(t.as_str()),
            None => None,
        };
        let requested = match request.limit {
            Some(l) => l,
            None => 30,
        };
        let limit: usize = if requested < 1 {
            1
        } else if requested > 200 {
            200
        } else {
            requested
        };
        let ghost pred = |o: int| search_hit(*self, *request, o);
        let ghost n = self.objects@.len() as int;
        let mut items: Vec<JsonValue> = Vec::new();
        let mut o: usize = 0;
        proof {
            assert(items_model(items@) =~= positions(0, pred).map_values(|o: int| hit_json(*self, o)));
        }
        while o < self.objects.len() && items.len() < limit
            invariant
                self.wf(),
                pred == |o: int| search_hit(*self, *request, o),
                query@ == search_query(*request),
                type_symbol == match request.object_type {
                    Some(t) => symbol_of(*self, t@),
                    None => None,
                },
                limit as nat == search_limit(*request),
                o <= self.objects@.len(),
                items@.len() <= limit,
                items@.len() == positions(o as int, pred).len(),
                items_model(items@) == positions(o as int, pred).map_values(|o: int| hit_json(*self, o)),
            decreases self.objects.len() - o,
        {
            let ob = &self.objects[o];
            proof {
                assert(crate::model::object_ok(self.pool@.len(), self.events@.len(), *ob));
            }
            let type_ok = match type_symbol {
                Some(s) => ob.type_symbol == s,
                None => true,
            };
            let id = self.pool.resolve(ob.id);
            let text_ok = query.as_str().is_empty() || text_contains(lower_text(id).as_str(), query.as_str());
            if type_ok && text_ok {
                let mut members: Vec<(String, JsonValue)> = Vec::new();
                add_member(&mut members, "object_id", text_value(id));
                add_member(&mut members, "object_type", text_value(self.pool.resolve(ob.type_symbol)));
                add_member(&mut members, "event_count", JsonValue::Count(ob.lifecycle.len()));
                let item = object(members);
                proof {
                    reveal_strlit("object_id");
                    reveal_strlit("object_type");
                    reveal_strlit("event_count");
                    assert(members_model(members@) =~= hit_json(*self, o as int)->Object_0);
                    assert(pred(o as int));
                }
                add_item(&mut items, item);
                proof {
                    assert(positions(o + 1, pred).map_values(|o: int| hit_json(*self, o))
                        =~= positions(o as int, pred).map_values(|o: int| hit_json(*self, o)).push(hit_json(*self, o as int)));
                }
            } else {
                proof {
                    assert(!pred(o as int));
                }
            }
            o = o + 1;
        }
        let ghost hits = positions(n, pred);
        proof {
            lemma_positions(n, pred);
            lemma_positions(o as int, pred);
            let taken = if hits.len() < search_limit(*request) { hits.len() } else { search_limit(*request) };
            lemma_positions_prefix(n, o as int, pred);
            assert(positions(o as int, pred) == hits.take(positions(o as int, pred).len() as int));
            if o < self.objects@.len() {
                assert(items@.len() == limit);
            } else {
                assert(positions(o as int, pred) == hits);
            }
            assert(positions(o as int, pred).len() == taken);
        }
        let mut members: Vec<(String, JsonValue)> = Vec::new();
        add_member(&mut members, "objects", array(items));
        let j = object(members);
        proof {
            reveal_strlit("objects");
            assert(members_model(members@) =~= search_json(*self, *request)->Object_0);
        }
        j
    }
}

/// The positions below `m` are a prefix of those below `n`.
proof fn lemma_positions_prefix(n: int, m: int, p: spec_fn(int) -> bool)
    requires
        0 <= m <= n,
    ensures
        positions(m, p) == positions(n, p).take(positions(m, p).len() as int),
        positions(m, p).len() <= positions(n, p).len(),
    decreases n - m,
{
    if m < n {
        lemma_positions_prefix(n - 1, m, p);
        let a = positions(n - 1, p);
        assert(positions(n, p).take(a.len() as int) =~= a);
        assert(positions(n, p).take(positions(m, p).len() as int) =~= a.take(positions(m, p).len() as int));
    } else {
        assert(positions(n, p).take(positions(n, p).len() as int) =~= positions(n, p));
    }
}

} // verus!
